use std::borrow::Cow;

use html5ever::tendril::{StrTendril, TendrilSink};
use html5ever::tree_builder::{ElementFlags as ParserFlags, TreeSink};
use html5ever::{driver, ExpandedName, LocalName, Namespace};
use markdown_render::html_process::dom::{
    Attribute, ElementFlags, Handle, NodeData, NodeOrText, QualName, QuirksMode, RcDom,
};
use markdown_render::html_process::rewrite::Document;
use markdown_render::html_process::serialize::process_html;
use markdown_render::html_process::Builder;
use markdown_render::markdown::document::parse_markdown_to_html;
use markdown_render::markdown::options::Heading;
use markdown_render::markdown::statistics::TextStatistics;
use markdown_render::url_utility::relative_url;
use markdown_render::{
    html_of_mjml, markdown_to_plaintext, markdown_to_processed_html, mjml_to_html,
    try_mjml_to_html, MjmlError, ParseInputOptions, ParseResults,
};

struct Sink {
    dom: RcDom,
    names: Vec<Option<html5ever::QualName>>,
}

fn library_name(name: &html5ever::QualName) -> QualName {
    QualName {
        prefix: name.prefix.as_ref().map(|prefix| prefix.to_string()),
        ns: name.ns.to_string(),
        local: name.local.to_string(),
    }
}

fn library_attributes(attrs: Vec<html5ever::Attribute>) -> Vec<Attribute> {
    attrs
        .iter()
        .map(|attr| Attribute {
            name: library_name(&attr.name),
            value: attr.value.to_string(),
        })
        .collect()
}

impl Sink {
    fn child(&self, parent: Handle, child: html5ever::tree_builder::NodeOrText<Handle>) -> NodeOrText {
        match child {
            html5ever::tree_builder::NodeOrText::AppendNode(node) => {
                assert!(node < self.dom.len());
                assert!(!matches!(self.dom.data(node), NodeData::Document));
                assert!(!self.dom.in_subtree(node, parent));
                NodeOrText::AppendNode(node)
            }
            html5ever::tree_builder::NodeOrText::AppendText(text) => {
                NodeOrText::AppendText(text.to_string())
            }
        }
    }
}

impl TreeSink for Sink {
    type Handle = Handle;
    type Output = RcDom;

    fn finish(self) -> RcDom {
        self.dom
    }

    fn parse_error(&mut self, msg: Cow<'static, str>) {
        self.dom.parse_error(msg.into_owned());
    }

    fn get_document(&mut self) -> Handle {
        self.dom.get_document()
    }

    fn elem_name<'a>(&'a self, target: &'a Handle) -> ExpandedName<'a> {
        match self.names.get(*target) {
            Some(Some(name)) => name.expanded(),
            _ => panic!("not an element"),
        }
    }

    fn create_element(
        &mut self,
        name: html5ever::QualName,
        attrs: Vec<html5ever::Attribute>,
        flags: ParserFlags,
    ) -> Handle {
        let handle = self.dom.create_element(
            library_name(&name),
            library_attributes(attrs),
            ElementFlags {
                template: flags.template,
                mathml_annotation_xml_integration_point: flags
                    .mathml_annotation_xml_integration_point,
            },
        );
        self.names.resize(handle + 1, None);
        self.names[handle] = Some(name);
        handle
    }

    fn create_comment(&mut self, text: StrTendril) -> Handle {
        self.dom.create_comment(text.to_string())
    }

    fn create_pi(&mut self, target: StrTendril, data: StrTendril) -> Handle {
        self.dom.create_pi(target.to_string(), data.to_string())
    }

    fn append(&mut self, parent: &Handle, child: html5ever::tree_builder::NodeOrText<Handle>) {
        assert!(!matches!(self.dom.data(*parent), NodeData::Text { .. }));
        let child = self.child(*parent, child);
        if let NodeOrText::AppendNode(node) = child {
            assert!(self.dom.parent(node).is_none());
        }
        self.dom.append(*parent, child);
    }

    fn append_based_on_parent_node(
        &mut self,
        element: &Handle,
        prev_element: &Handle,
        child: html5ever::tree_builder::NodeOrText<Handle>,
    ) {
        assert!(*element < self.dom.len() && *prev_element < self.dom.len());
        let child = match self.dom.parent(*element) {
            Some(parent) => self.child(parent, child),
            None => {
                assert!(!matches!(self.dom.data(*prev_element), NodeData::Text { .. }));
                let child = self.child(*prev_element, child);
                if let NodeOrText::AppendNode(node) = child {
                    assert!(self.dom.parent(node).is_none());
                }
                child
            }
        };
        self.dom
            .append_based_on_parent_node(*element, *prev_element, child);
    }

    fn append_doctype_to_document(
        &mut self,
        name: StrTendril,
        public_id: StrTendril,
        system_id: StrTendril,
    ) {
        self.dom.append_doctype_to_document(
            name.to_string(),
            public_id.to_string(),
            system_id.to_string(),
        );
    }

    fn get_template_contents(&mut self, target: &Handle) -> Handle {
        match self.dom.data(*target) {
            NodeData::Element {
                template_contents: Some(_),
                ..
            } => self.dom.get_template_contents(*target),
            _ => panic!("not a template element!"),
        }
    }

    fn same_node(&self, x: &Handle, y: &Handle) -> bool {
        self.dom.same_node(*x, *y)
    }

    fn set_quirks_mode(&mut self, mode: html5ever::tree_builder::QuirksMode) {
        self.dom.set_quirks_mode(match mode {
            html5ever::tree_builder::QuirksMode::Quirks => QuirksMode::Quirks,
            html5ever::tree_builder::QuirksMode::LimitedQuirks => QuirksMode::LimitedQuirks,
            html5ever::tree_builder::QuirksMode::NoQuirks => QuirksMode::NoQuirks,
        });
    }

    fn append_before_sibling(
        &mut self,
        sibling: &Handle,
        child: html5ever::tree_builder::NodeOrText<Handle>,
    ) {
        let parent = self
            .dom
            .parent(*sibling)
            .expect("append_before_sibling called on node without parent");
        let child = self.child(parent, child);
        self.dom.append_before_sibling(*sibling, child);
    }

    fn add_attrs_if_missing(&mut self, target: &Handle, attrs: Vec<html5ever::Attribute>) {
        assert!(matches!(self.dom.data(*target), NodeData::Element { .. }));
        self.dom.add_attrs_if_missing(*target, library_attributes(attrs));
    }

    fn remove_from_parent(&mut self, target: &Handle) {
        self.dom.remove_from_parent(*target);
    }

    fn reparent_children(&mut self, node: &Handle, new_parent: &Handle) {
        assert!(!self.dom.in_subtree(*node, *new_parent));
        assert!(!matches!(self.dom.data(*new_parent), NodeData::Text { .. }));
        self.dom.reparent_children(*node, *new_parent);
    }

    fn is_mathml_annotation_xml_integration_point(&self, target: &Handle) -> bool {
        match self.dom.data(*target) {
            NodeData::Element { .. } => self.dom.is_mathml_annotation_xml_integration_point(*target),
            _ => panic!("not an element"),
        }
    }
}

fn parse(src: &str) -> RcDom {
    let sink = Sink {
        dom: RcDom::new(),
        names: Vec::new(),
    };
    let context = html5ever::QualName::new(
        None,
        Namespace::from("http://www.w3.org/1999/xhtml"),
        LocalName::from("div"),
    );
    driver::parse_fragment(sink, driver::ParseOpts::default(), context, Vec::new()).one(src)
}

fn process(builder: &Builder, src: &str) -> Document {
    builder.process_dom(parse(src))
}

fn process_page(html: &str, canonical_root_url: Option<&str>, search_term: Option<&str>) -> String {
    process_html(parse(html), canonical_root_url, search_term)
}

#[test]
fn test_builder_process() {
    let mut builder = Builder::new();
    builder.canonical_root_url(Some("https://example.com"));
    let result = process(&builder, r#"<a href="/about-us">About</a>"#).to_string();
    let expected = r#"<a href="https://example.com/about-us">About</a>"#;
    assert_eq!(result, expected);

    let result = process(&Builder::new(), r#"<a href="/about-us">About</a>"#).to_string();
    let expected = r#"<a href="/about-us" target="_blank" rel="noopener noreferrer">About</a>"#;
    assert_eq!(result, expected);
}

#[test]
fn test_process_html() {
    let result = process_page("<a href=\"https://example.com\">Example</a>", None, None);
    let expected = r#"<a href="https://example.com" target="_blank" rel="nofollow noopener noreferrer">Example</a>"#;
    assert_eq!(result, expected);

    let result = process_page(
        "<a href=\"/pathname?utm=123#anchor\">Example</a>",
        None,
        None,
    );
    let expected = r#"<a href="/pathname?utm=123#anchor" target="_blank" rel="nofollow noopener noreferrer">Example</a>"#;
    assert_eq!(result, expected);

    let result = process_page("<h2>Heading</h2>", None, None);
    let expected = "<h2>Heading</h2>";
    assert_eq!(result, expected);

    let result = process_page("<h2 id=\"heading\">Heading</h2>", None, None);
    let expected =
        "<h2 id=\"heading\">Heading <a href=\"#heading\" class=\"heading-anchor\">#</a></h2>";
    assert_eq!(result, expected);

    let result = process_page("<h3 id=\"heading\">Heading</h3>", None, None);
    let expected = "<h3 id=\"heading\">Heading</h3>";
    assert_eq!(result, expected);
}

#[test]
fn search_html_highlight_requested_term() {
    let result = process_page(
        r#"<h2>Heading</h2><p>Nobody likes maple in their apple flavoured Snapple. APPLE</p><p>Paragraph with no matches</p><p>Paragraph which mentions apples again</p>"#,
        None,
        Some("apple"),
    )
    .to_string();
    let expected = r#"<h2>Heading</h2><p>Nobody likes maple in their <mark id="search-match">apple</mark> flavoured Sn<mark>apple</mark>. <mark>APPLE</mark></p><p>Paragraph with no matches</p><p>Paragraph which mentions <mark>apple</mark>s again</p>"#;
    assert_eq!(result, expected);
}

#[test]
fn search_html_highlight_requested_nested_term() {
    let result = process_page(
        r#"<h2>Heading</h2><section><div><p>Nobody likes maple in their apple flavoured Snapple. APPLE</p><p>Paragraph with no matches</p><p>Paragraph which mentions apples again</p></div></section>"#,
        None,
        Some("apple"),
    )
    .to_string();
    let expected = r#"<h2>Heading</h2><section><div><p>Nobody likes maple in their <mark id="search-match">apple</mark> flavoured Sn<mark>apple</mark>. <mark>APPLE</mark></p><p>Paragraph with no matches</p><p>Paragraph which mentions <mark>apple</mark>s again</p></div></section>"#;
    assert_eq!(result, expected);
}

#[test]
fn search_html_matches_on_multiple_terms() {
    let result = process_page(
        r#"<h2>Heading</h2><p>Nobody likes maple in their apple flavoured Snapple. APPLE</p><p>Paragraph with no matches</p><p>Paragraph which mentions apples again</p>"#,
        None,
        Some("apple flavour"),
    )
    .to_string();
    let expected = r#"<h2>Heading</h2><p>Nobody likes maple in their <mark id="search-match">apple</mark> <mark>flavour</mark>ed Sn<mark>apple</mark>. <mark>APPLE</mark></p><p>Paragraph with no matches</p><p>Paragraph which mentions <mark>apple</mark>s again</p>"#;
    assert_eq!(result, expected);
}

#[test]
fn search_html_highlight_does_nothing_when_there_are_no_matches() {
    let result = process_page(
        r#"<h2>Heading</h2><p>Nobody likes maple in their apple flavoured Snapple. APPLE</p>"#,
        None,
        Some("nonsense"),
    )
    .to_string();
    let expected =
        r#"<h2>Heading</h2><p>Nobody likes maple in their apple flavoured Snapple. APPLE</p>"#;
    assert_eq!(result, expected);
}

#[test]
fn relative_links_are_told_from_absolute_ones() {
    assert!(relative_url("/about.html"));
    assert!(!relative_url("https://example.com"));
}

fn to_results(markdown: &str, options: &ParseInputOptions) -> ParseResults {
    let parsed = parse_markdown_to_html(markdown)
        .map(|(html, headings, statistics)| (parse(&html), headings, statistics));
    markdown_to_processed_html(parsed, options)
}

#[test]
fn test_markdown_to_html() {
    let markdown = r"
hello you
=========

* alpha
* beta
";

    let result = to_results(
        markdown,
        &ParseInputOptions {
            canonical_root_url: None,
            enable_smart_punctuation: Some(true),
            search_term: None,
        },
    );
    let html = String::from(
        r#"<h1 id="hello-you">hello you</h1>
<ul>
<li>alpha</li>
<li>beta</li>
</ul>
"#,
    );
    assert_eq!(
        result,
        ParseResults::success(
            html,
            vec![Heading::new("hello you", "hello-you")],
            TextStatistics::new(4),
        )
    );

    let markdown = "
## Subheading

Paragraph text.
";

    let result = to_results(
        markdown,
        &ParseInputOptions {
            canonical_root_url: None,
            enable_smart_punctuation: Some(true),
            search_term: None,
        },
    );
    let html = String::from(
        r##"<h2 id="subheading">Subheading <a href="#subheading" class="heading-anchor">#</a></h2>
<p>Paragraph text.</p>
"##,
    );
    assert_eq!(
        result,
        ParseResults::success(
            html,
            vec![Heading::new("Subheading", "subheading")],
            TextStatistics::new(3),
        ),
    );

    let markdown = "
### Subheading

Link: [Example site](https://example.com).
";

    let result = to_results(
        markdown,
        &ParseInputOptions {
            canonical_root_url: None,
            enable_smart_punctuation: Some(true),
            search_term: None,
        },
    );
    let html = String::from(
        r#"<h3 id="subheading">Subheading</h3>
<p>Link: <a href="https://example.com" target="_blank" rel="nofollow noopener noreferrer">Example site</a>.</p>
"#,
    );
    assert_eq!(
        result,
        ParseResults::success(
            html,
            vec![Heading::new("Subheading", "subheading")],
            TextStatistics::new(4),
        )
    );
}

#[test]
fn test_mjml_to_html() {
    let mjml = r"<mjml></mjml>";
    let result = mjml_to_html(mjml);
    let expected = r#"<!doctype html><html xmlns="http://www.w3.org/1999/xhtml" xmlns:v="urn:schemas-microsoft-com:vml" xmlns:o="urn:schemas-microsoft-com:office:office"><head><title></title><!--[if !mso]><!--><meta http-equiv="X-UA-Compatible" content="IE=edge"><!--<![endif]--><meta http-equiv="Content-Type" content="text/html; charset=UTF-8"><meta name="viewport" content="width=device-width, initial-scale=1">
<style type="text/css">
#outlook a { padding: 0; }
body { margin: 0; padding: 0; -webkit-text-size-adjust: 100%; -ms-text-size-adjust: 100%; }
table, td { border-collapse: collapse; mso-table-lspace: 0pt; mso-table-rspace: 0pt; }
img { border: 0; height: auto; line-height: 100%; outline: none; text-decoration: none; -ms-interpolation-mode: bicubic; }
p { display: block; margin: 13px 0; }
</style>
<!--[if mso]>
<noscript>
<xml>
<o:OfficeDocumentSettings>
  <o:AllowPNG/>
  <o:PixelsPerInch>96</o:PixelsPerInch>
</o:OfficeDocumentSettings>
</xml>
</noscript>
<![endif]-->
<!--[if lte mso 11]>
<style type="text/css">
.mj-outlook-group-fix { width:100% !important; }
</style>
<![endif]-->
<style type="text/css"></style></head><body></body></html>"#;
    assert_eq!(result, expected);
}

#[test]
fn mjml_that_cannot_be_parsed_gives_no_html() {
    assert_eq!(mjml_to_html("<mjml>"), "");
    assert_eq!(mjml_to_html("not a template"), "");
}

#[test]
fn a_failed_conversion_reports_one_error_and_nothing_else() {
    let options = ParseInputOptions::default();
    let failed = markdown_to_processed_html(
        Err(markdown_render::markdown::document::MarkdownError::Render(
            String::from("disk full"),
        )),
        &options,
    );
    assert_eq!(failed.html(), None);
    assert_eq!(failed.headings(), None);
    assert_eq!(failed.statistics(), None);
    assert_eq!(
        failed.errors(),
        Some(&vec![String::from("Error parsing markdown: disk full")])
    );
    assert_eq!(
        failed,
        ParseResults::failure(String::from("Error parsing markdown: disk full"))
    );
}

#[test]
fn a_conversion_marks_the_search_term_and_rewrites_relative_links() {
    let options = ParseInputOptions {
        canonical_root_url: Some(String::from("https://example.com")),
        enable_smart_punctuation: None,
        search_term: Some(String::from("us")),
    };
    let results = to_results("[About us](/about-us)\n", &options);
    assert_eq!(
        results.html().map(|html| html.as_str()),
        Some(
            "<p><a href=\"https://example.com/about-us\">About <mark id=\"search-match\">us</mark></a></p>\n"
        )
    );
    assert_eq!(results.errors(), None);
    assert_eq!(results.statistics(), Some(&TextStatistics::new(2)));
    assert_eq!(results.headings(), Some(&Vec::new()));
}

#[test]
fn plaintext_follows_the_callers_options() {
    assert_eq!(
        markdown_to_plaintext("[Contact us](/contact) it's", None),
        "Contact us (/contact) it’s\n"
    );
    let options = ParseInputOptions {
        canonical_root_url: Some(String::from("https://example.com")),
        enable_smart_punctuation: Some(false),
        search_term: None,
    };
    assert_eq!(
        markdown_to_plaintext("[Contact us](/contact) it's", Some(options)),
        "Contact us (https://example.com/contact) it's\n"
    );
    let options = ParseInputOptions {
        canonical_root_url: None,
        enable_smart_punctuation: None,
        search_term: None,
    };
    assert_eq!(markdown_to_plaintext("it's", Some(options)), "it’s\n");
}

#[test]
fn markup_that_is_parsed_and_written_again_stays_the_same() {
    let sources = [
        r#"<h2 id="heading">Heading</h2><p>Nobody likes <a href="/maple">maple</a> in their apple flavoured Snapple.</p>"#,
        "<table><tr><td>cell</td></tr>stray</table><p>a<br>b</p>",
        "<ul><li>one<li>two</ul><!-- note --><p>1 &lt; 2 &amp; \"x\"</p>",
        "<p>unclosed <b>bold <i>both</b> italic</i></p>",
        "<template><p>inside</p></template><svg><a xlink:href=\"#x\"></a></svg>",
        "",
    ];
    let searches = [None, Some("apple"), Some("a b")];
    for source in sources {
        for search in searches {
            let first = process_page(source, Some("https://example.com"), search);
            let copy = Document(parse(&first));
            let second = copy.to_string();
            assert_eq!(second, first);
            let third = Document(parse(&second)).to_string();
            assert_eq!(third, second);
        }
    }
}

#[test]
fn a_search_term_that_is_absent_changes_nothing() {
    let source = r#"<h2 id="heading">Heading</h2><p>Nobody likes <a href="/maple">maple</a>.</p>"#;
    assert_eq!(
        process_page(source, None, Some("nonsense")),
        process_page(source, None, None)
    );
    assert_eq!(
        process_page(source, None, Some("  ")),
        process_page(source, None, None)
    );
}

#[test]
fn only_the_first_match_of_a_document_is_named() {
    let result = process_page("<p>a</p><div><p>b a</p></div><p>a</p>", None, Some("a"));
    assert_eq!(
        result,
        "<p><mark id=\"search-match\">a</mark></p><div><p>b <mark>a</mark></p></div><p><mark>a</mark></p>"
    );
}

#[test]
fn the_anchor_of_a_heading_is_left_as_it_is_made() {
    let result = process_page(
        "<h2 id=\"top\">Top # one</h2>",
        Some("https://example.com"),
        Some("#"),
    );
    assert_eq!(
        result,
        "<h2 id=\"top\">Top <mark id=\"search-match\">#</mark> one <a href=\"#top\" class=\"heading-anchor\">#</a></h2>"
    );
}

#[test]
fn links_inside_headings_are_decorated_too() {
    let result = process_page(
        "<h2 id=\"x\"><a href=\"https://example.com\">X</a></h2><a>bare</a>",
        None,
        None,
    );
    assert_eq!(
        result,
        "<h2 id=\"x\"><a href=\"https://example.com\" target=\"_blank\" rel=\"nofollow noopener noreferrer\">X</a> <a href=\"#x\" class=\"heading-anchor\">#</a></h2><a>bare</a>"
    );
}

#[test]
fn a_document_without_fragment_has_no_markup() {
    assert_eq!(Document(RcDom::new()).to_string(), "");
}

/// Every child names its parent, and every node with a parent is among the
/// children of that parent, once.
fn assert_linked(dom: &RcDom) {
    let mut node = 0;
    while node < dom.len() {
        for child in dom.children(node) {
            assert_eq!(dom.parent(*child), Some(node));
        }
        if let Some(parent) = dom.parent(node) {
            let times = dom
                .children(parent)
                .iter()
                .filter(|child| **child == node)
                .count();
            assert_eq!(times, 1);
            assert!(!dom.in_subtree(node, parent));
            assert!(!matches!(dom.data(node), NodeData::Document));
        }
        if matches!(dom.data(node), NodeData::Text { .. }) {
            assert!(dom.children(node).is_empty());
        }
        node += 1;
    }
}

#[test]
fn misnested_markup_gives_well_linked_trees() {
    let sources = [
        "<table><b><tr><td>x</td></tr>y</b>z</table>",
        "<p><table><p>a</table>b",
        "<a href=\"/x\"><p>one</a>two</p>three",
        "<b><i><p>x</b>y</i>z",
        "<b>1<p>2</b>3</p>",
        "<select><option>a<optgroup><option>b</select>c",
        "<svg><g><foreignObject><p>x</p></foreignObject></g></svg>",
        "<math><annotation-xml encoding=\"text/html\"><p>x</p></annotation-xml></math>",
        "<template><tr><td>x</td></tr><template>y</template></template>",
        "<ul><li><ul><li>a</li></ul><li>b",
        "<h2 id=a><h2 id=b>c</h2></h2><h2 id=\"d\"></h2>",
        "<table>text<tr>more<td>cell</td>yet more</tr></table>",
        "<div id=a><div id=a class=b></div></div><html lang=en><body class=x>",
        "<!-- c --><?pi?><!DOCTYPE html><p>&amp;&nbsp;&#0;\u{0}</p>",
        "<frameset><frame></frameset><noscript><p>x</p></noscript><script>a<b</script>",
        "<a><a><a>nested anchors</a></a></a><nobr><nobr>x</nobr></nobr>",
    ];
    for source in sources {
        let dom = parse(source);
        assert_linked(&dom);
        let root = dom.get_document();
        assert_eq!(dom.parent(root), None);
        assert_eq!(dom.children(root).len(), 1);
        let fragment = dom.children(root)[0];

        let mut builder = Builder::new();
        builder.canonical_root_url(Some("https://example.com"));
        builder.search_term(Some("x a"));
        let document = builder.process_dom(dom);
        assert_linked(&document.0);
        assert_eq!(document.0.children(document.0.get_document()), &vec![fragment]);
        let first = document.to_string();
        let second = Document(parse(&first)).to_string();
        let third = Document(parse(&second)).to_string();
        assert_eq!(third, second, "for {:?}", source);
    }
}

#[test]
fn mjml_that_cannot_be_parsed_says_why() {
    let failed = try_mjml_to_html("<mjml>");
    assert!(matches!(&failed, Err(MjmlError::Parse(message)) if !message.is_empty()));
    assert_eq!(html_of_mjml(failed), "");
    let rendered = try_mjml_to_html("<mjml></mjml>");
    assert_eq!(rendered.as_ref().ok(), Some(&mjml_to_html("<mjml></mjml>")));
    assert_eq!(html_of_mjml(Err(MjmlError::Render(String::from("x")))), "");
    assert_eq!(html_of_mjml(Ok(String::from("<p></p>"))), "<p></p>");
}

#[test]
fn a_line_feed_at_the_start_of_pre_is_lost_each_time_markup_is_read() {
    let first = process_page("<pre>\n\nx</pre>", None, None);
    assert_eq!(first, "<pre>\nx</pre>");
    let second = Document(parse(&first)).to_string();
    assert_eq!(second, "<pre>x</pre>");
    let third = Document(parse(&second)).to_string();
    assert_eq!(third, second);
}
