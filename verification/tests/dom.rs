use markdown_render::html_process::dom::{
    holds_name, Attribute, ElementFlags, Handle, Node, NodeData, NodeOrText, QualName,
    QuirksMode, RcDom,
};
use markdown_render::html_process::serialize::{SerializableHandle, TraversalScope};

const HTML: &str = "http://www.w3.org/1999/xhtml";

fn element(dom: &mut RcDom, local: &str, attrs: Vec<Attribute>) -> Handle {
    dom.create_element(
        QualName::new(None, HTML, local),
        attrs,
        ElementFlags::default(),
    )
}

fn attribute(local: &str, value: &str) -> Attribute {
    Attribute {
        name: QualName::new(None, "", local),
        value: value.to_string(),
    }
}

fn text(dom: &mut RcDom, parent: Handle, value: &str) {
    dom.append(parent, NodeOrText::AppendText(value.to_string()));
}

fn markup(dom: &RcDom, node: Handle) -> String {
    SerializableHandle::from(node).to_markup(dom, TraversalScope::IncludeNode)
}

fn contents(dom: &RcDom, node: Handle) -> String {
    match dom.data(node) {
        NodeData::Text { contents } => contents.clone(),
        _ => panic!("a text node was expected"),
    }
}

/// Every child names its parent, and every node with a parent is among the
/// children of that parent, once.
fn assert_linked(dom: &RcDom) {
    let mut node = 0;
    while node < dom.len() {
        for child in dom.children(node) {
            assert_eq!(dom.parent(*child), Some(node));
        }
        if let Some(parent) = dom.parent(node) {
            let times = dom
                .children(parent)
                .iter()
                .filter(|child| **child == node)
                .count();
            assert_eq!(times, 1);
            assert!(dom.in_subtree(parent, node));
            assert!(!dom.in_subtree(node, parent));
        }
        node += 1;
    }
}

#[test]
fn a_new_document_holds_its_root_only() {
    let dom = RcDom::new();
    assert_eq!(dom.len(), 1);
    assert_eq!(dom.get_document(), 0);
    assert_eq!(dom.parent(0), None);
    assert!(dom.children(0).is_empty());
    assert!(matches!(dom.data(0), NodeData::Document));
    assert_linked(&dom);
}

#[test]
fn a_new_node_has_no_parent_and_no_children() {
    let mut dom = RcDom::new();
    let node = dom.create(NodeData::Comment {
        contents: String::from("note"),
    });
    assert_eq!(node, 1);
    assert_eq!(dom.parent(node), None);
    assert!(dom.children(node).is_empty());
    let detached = Node::new(NodeData::Document);
    assert!(format!("{:?}", detached).contains("Document"));
}

#[test]
fn append_makes_the_node_the_last_child() {
    let mut dom = RcDom::new();
    let root = dom.get_document();
    let div = element(&mut dom, "div", Vec::new());
    let first = element(&mut dom, "p", Vec::new());
    let second = element(&mut dom, "p", Vec::new());
    dom.append(root, NodeOrText::AppendNode(div));
    dom.append(div, NodeOrText::AppendNode(first));
    dom.append(div, NodeOrText::AppendNode(second));
    assert_eq!(dom.children(div), &vec![first, second]);
    assert_eq!(dom.parent(first), Some(div));
    assert_eq!(dom.parent(second), Some(div));
    assert_eq!(dom.get_parent_and_index(second), Some((div, 1)));
    assert_eq!(dom.get_parent_and_index(div), Some((root, 0)));
    assert_eq!(dom.get_parent_and_index(root), None);
    assert_linked(&dom);
}

#[test]
fn appended_text_joins_a_text_node_before_it() {
    let mut dom = RcDom::new();
    let p = element(&mut dom, "p", Vec::new());
    text(&mut dom, p, "Head");
    text(&mut dom, p, "ing");
    assert_eq!(dom.children(p).len(), 1);
    assert_eq!(contents(&dom, dom.children(p)[0]), "Heading");

    let b = element(&mut dom, "b", Vec::new());
    dom.append(p, NodeOrText::AppendNode(b));
    text(&mut dom, p, "tail");
    assert_eq!(dom.children(p).len(), 3);
    assert_eq!(markup(&dom, p), "<p>Heading<b></b>tail</p>");
    assert_linked(&dom);
}

#[test]
fn an_appended_text_node_is_not_joined() {
    let mut dom = RcDom::new();
    let p = element(&mut dom, "p", Vec::new());
    text(&mut dom, p, "a");
    let other = dom.create_text(String::from("b"));
    dom.append(p, NodeOrText::AppendNode(other));
    assert_eq!(dom.children(p).len(), 2);
    assert_eq!(markup(&dom, p), "<p>ab</p>");
}

#[test]
fn append_to_existing_text_tells_text_nodes_from_others() {
    let mut dom = RcDom::new();
    let p = element(&mut dom, "p", Vec::new());
    let t = dom.create_text(String::from("a"));
    assert!(dom.append_to_existing_text(t, "b"));
    assert_eq!(contents(&dom, t), "ab");
    assert!(!dom.append_to_existing_text(p, "b"));
    assert_eq!(markup(&dom, p), "<p></p>");
}

#[test]
fn append_before_sibling_puts_the_node_at_the_place_of_the_sibling() {
    let mut dom = RcDom::new();
    let ul = element(&mut dom, "ul", Vec::new());
    let a = element(&mut dom, "a", Vec::new());
    let b = element(&mut dom, "b", Vec::new());
    let c = element(&mut dom, "c", Vec::new());
    dom.append(ul, NodeOrText::AppendNode(a));
    dom.append(ul, NodeOrText::AppendNode(c));
    dom.append_before_sibling(c, NodeOrText::AppendNode(b));
    assert_eq!(dom.children(ul), &vec![a, b, c]);
    assert_eq!(dom.parent(b), Some(ul));
    assert_linked(&dom);
}

#[test]
fn append_before_sibling_takes_the_node_from_its_parent_first() {
    let mut dom = RcDom::new();
    let ul = element(&mut dom, "ul", Vec::new());
    let ol = element(&mut dom, "ol", Vec::new());
    let a = element(&mut dom, "a", Vec::new());
    let b = element(&mut dom, "b", Vec::new());
    dom.append(ul, NodeOrText::AppendNode(a));
    dom.append(ol, NodeOrText::AppendNode(b));
    dom.append_before_sibling(a, NodeOrText::AppendNode(b));
    assert_eq!(dom.children(ul), &vec![b, a]);
    assert!(dom.children(ol).is_empty());
    assert_eq!(dom.parent(b), Some(ul));
    assert_linked(&dom);
}

#[test]
fn append_before_sibling_keeps_the_position_found_before_the_node_left() {
    let mut dom = RcDom::new();
    let ul = element(&mut dom, "ul", Vec::new());
    let a = element(&mut dom, "a", Vec::new());
    let b = element(&mut dom, "b", Vec::new());
    let c = element(&mut dom, "c", Vec::new());
    dom.append(ul, NodeOrText::AppendNode(a));
    dom.append(ul, NodeOrText::AppendNode(b));
    dom.append(ul, NodeOrText::AppendNode(c));
    dom.append_before_sibling(c, NodeOrText::AppendNode(a));
    assert_eq!(dom.children(ul), &vec![b, c, a]);
    assert_linked(&dom);
}

#[test]
fn text_before_a_sibling_joins_the_text_before_it() {
    let mut dom = RcDom::new();
    let p = element(&mut dom, "p", Vec::new());
    text(&mut dom, p, "a");
    let b = element(&mut dom, "b", Vec::new());
    dom.append(p, NodeOrText::AppendNode(b));
    dom.append_before_sibling(b, NodeOrText::AppendText(String::from("c")));
    assert_eq!(dom.children(p).len(), 2);
    assert_eq!(markup(&dom, p), "<p>ac<b></b></p>");

    let first = dom.children(p)[0];
    dom.append_before_sibling(first, NodeOrText::AppendText(String::from("z")));
    assert_eq!(dom.children(p).len(), 3);
    assert_eq!(markup(&dom, p), "<p>zac<b></b></p>");
    assert_linked(&dom);
}

#[test]
fn append_based_on_parent_node_goes_by_the_parent_of_the_element() {
    let mut dom = RcDom::new();
    let table = element(&mut dom, "table", Vec::new());
    let div = element(&mut dom, "div", Vec::new());
    let fallback = element(&mut dom, "section", Vec::new());
    dom.append(div, NodeOrText::AppendNode(table));
    dom.append_based_on_parent_node(table, fallback, NodeOrText::AppendText(String::from("x")));
    assert_eq!(markup(&dom, div), "<div>x<table></table></div>");
    assert!(dom.children(fallback).is_empty());

    let loose = element(&mut dom, "table", Vec::new());
    dom.append_based_on_parent_node(loose, fallback, NodeOrText::AppendText(String::from("y")));
    assert_eq!(markup(&dom, fallback), "<section>y</section>");
    assert_linked(&dom);
}

#[test]
fn remove_from_parent_detaches_the_node_and_nothing_else() {
    let mut dom = RcDom::new();
    let ul = element(&mut dom, "ul", Vec::new());
    let a = element(&mut dom, "a", Vec::new());
    let b = element(&mut dom, "b", Vec::new());
    let below = element(&mut dom, "i", Vec::new());
    dom.append(ul, NodeOrText::AppendNode(a));
    dom.append(ul, NodeOrText::AppendNode(b));
    dom.append(a, NodeOrText::AppendNode(below));
    dom.remove_from_parent(a);
    assert_eq!(dom.children(ul), &vec![b]);
    assert_eq!(dom.parent(a), None);
    assert_eq!(dom.children(a), &vec![below]);
    dom.remove_from_parent(a);
    assert_eq!(dom.parent(a), None);
    assert_linked(&dom);
}

#[test]
fn reparent_children_moves_all_children_in_their_order() {
    let mut dom = RcDom::new();
    let from = element(&mut dom, "ul", Vec::new());
    let to = element(&mut dom, "ol", Vec::new());
    let kept = element(&mut dom, "li", Vec::new());
    let a = element(&mut dom, "a", Vec::new());
    let b = element(&mut dom, "b", Vec::new());
    dom.append(to, NodeOrText::AppendNode(kept));
    dom.append(from, NodeOrText::AppendNode(a));
    dom.append(from, NodeOrText::AppendNode(b));
    dom.reparent_children(from, to);
    assert!(dom.children(from).is_empty());
    assert_eq!(dom.children(to), &vec![kept, a, b]);
    assert_eq!(dom.parent(a), Some(to));
    assert_eq!(dom.parent(b), Some(to));
    assert_linked(&dom);
}

#[test]
fn add_attrs_if_missing_keeps_the_first_of_each_name() {
    let mut dom = RcDom::new();
    let a = element(&mut dom, "a", vec![attribute("href", "/x"), attribute("id", "one")]);
    dom.add_attrs_if_missing(
        a,
        vec![
            attribute("id", "two"),
            attribute("class", "first"),
            attribute("class", "second"),
            attribute("rel", "next"),
        ],
    );
    assert_eq!(
        markup(&dom, a),
        "<a href=\"/x\" id=\"one\" class=\"first\" rel=\"next\"></a>"
    );
    match dom.data(a) {
        NodeData::Element { attrs, .. } => {
            assert!(holds_name(attrs, &QualName::new(None, "", "rel")));
            assert!(!holds_name(attrs, &QualName::new(None, HTML, "rel")));
            assert!(!holds_name(attrs, &QualName::new(None, "", "target")));
        }
        _ => panic!("an element was expected"),
    }
}

#[test]
fn names_are_the_same_only_if_every_part_is() {
    let name = QualName::new(Some("xlink"), "http://www.w3.org/1999/xlink", "href");
    assert!(name.same(&name.duplicate()));
    assert!(!name.same(&QualName::new(None, "http://www.w3.org/1999/xlink", "href")));
    assert!(!name.same(&QualName::new(Some("xlink"), "", "href")));
    assert!(!name.same(&QualName::new(Some("xlink"), "http://www.w3.org/1999/xlink", "src")));
    let attr = attribute("id", "x");
    assert_eq!(attr.duplicate(), attr);
}

#[test]
fn a_template_element_gets_contents_of_its_own() {
    let mut dom = RcDom::new();
    let template = dom.create_element(
        QualName::new(None, HTML, "template"),
        Vec::new(),
        ElementFlags {
            template: true,
            mathml_annotation_xml_integration_point: false,
        },
    );
    let contents = dom.get_template_contents(template);
    assert_ne!(contents, template);
    assert!(matches!(dom.data(contents), NodeData::Document));
    assert_eq!(dom.parent(contents), None);
    assert!(dom.children(contents).is_empty());
    assert_eq!(dom.elem_name(template).local, "template");
    assert!(!dom.is_mathml_annotation_xml_integration_point(template));

    let point = dom.create_element(
        QualName::new(None, "http://www.w3.org/1998/Math/MathML", "annotation-xml"),
        Vec::new(),
        ElementFlags {
            template: false,
            mathml_annotation_xml_integration_point: true,
        },
    );
    assert!(dom.is_mathml_annotation_xml_integration_point(point));
}

#[test]
fn nodes_are_the_same_only_if_their_handles_are() {
    let mut dom = RcDom::new();
    let a = element(&mut dom, "p", Vec::new());
    let b = element(&mut dom, "p", Vec::new());
    assert!(dom.same_node(a, a));
    assert!(!dom.same_node(a, b));
}

#[test]
fn the_parser_leaves_its_messages_and_the_quirks_mode() {
    let mut dom = RcDom::new();
    dom.parse_error(String::from("unexpected token"));
    dom.set_quirks_mode(QuirksMode::LimitedQuirks);
    dom.append_doctype_to_document(String::from("html"), String::new(), String::new());
    let root = dom.get_document();
    assert_eq!(dom.children(root).len(), 1);
    assert_eq!(markup(&dom, dom.children(root)[0]), "<!DOCTYPE html>");
    assert_linked(&dom);
}

#[test]
fn in_subtree_holds_of_a_node_and_of_what_is_below_it() {
    let mut dom = RcDom::new();
    let a = element(&mut dom, "a", Vec::new());
    let b = element(&mut dom, "b", Vec::new());
    let c = element(&mut dom, "c", Vec::new());
    let d = element(&mut dom, "d", Vec::new());
    dom.append_node(a, b);
    dom.append_node(b, c);
    dom.append_node(a, d);
    assert!(dom.in_subtree(a, a));
    assert!(dom.in_subtree(a, c));
    assert!(dom.in_subtree(b, c));
    assert!(!dom.in_subtree(b, d));
    assert!(!dom.in_subtree(c, a));
    let e = element(&mut dom, "e", Vec::new());
    dom.attach(a, 1, e);
    assert_eq!(dom.children(a), &vec![b, e, d]);
    assert_linked(&dom);
}

#[test]
fn descendants_come_in_document_order() {
    let mut dom = RcDom::new();
    let a = element(&mut dom, "a", Vec::new());
    let b = element(&mut dom, "b", Vec::new());
    let c = element(&mut dom, "c", Vec::new());
    let d = element(&mut dom, "d", Vec::new());
    let e = element(&mut dom, "e", Vec::new());
    dom.append_node(a, d);
    dom.append_node(d, b);
    dom.append_node(d, e);
    dom.append_node(a, c);
    assert_eq!(dom.descendants(a), vec![d, b, e, c]);
    assert_eq!(dom.descendants(d), vec![b, e]);
    assert_eq!(dom.descendants(c), Vec::<Handle>::new());
}

#[test]
fn markup_opens_and_closes_elements_around_their_children() {
    let mut dom = RcDom::new();
    let div = element(&mut dom, "div", vec![attribute("class", "a\"b")]);
    let p = element(&mut dom, "p", Vec::new());
    dom.append_node(div, p);
    text(&mut dom, p, "1 < 2 & 3");
    let comment = dom.create_comment(String::from(" note "));
    dom.append_node(div, comment);
    let pi = dom.create_pi(String::from("xml"), String::from("version"));
    dom.append_node(div, pi);
    let br = element(&mut dom, "br", Vec::new());
    dom.append_node(div, br);
    assert_eq!(
        markup(&dom, div),
        "<div class=\"a&quot;b\"><p>1 &lt; 2 &amp; 3</p><!-- note --><?xml version><br></div>"
    );
    assert_eq!(
        SerializableHandle(div).to_markup(&dom, TraversalScope::ChildrenOnly(None)),
        "<p>1 &lt; 2 &amp; 3</p><!-- note --><?xml version><br>"
    );
    assert_eq!(
        SerializableHandle(p).to_markup(&dom, TraversalScope::ChildrenOnly(None)),
        "1 &lt; 2 &amp; 3"
    );
}
