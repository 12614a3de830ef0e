use crate::html_process::model::{
    has_attribute, lemma_attach_well_formed, lemma_create_well_formed,
    lemma_detach_in_subtree, lemma_detach_well_formed, lemma_fresh_node_is_alone,
    lemma_in_subtree_of_parent, lemma_in_subtree_rank, lemma_move_keeps_ancestors,
    lemma_with_data_well_formed,
    merge_missing, AppendModel, DomModel,
};
use vstd::prelude::*;

verus! {

/// A node of a document, named by its place in the document's store. A
/// handle stays valid, and names the same node, for as long as the document
/// lives: two handles name one node exactly if they are equal.
pub type Handle = usize;

/// The full name of an element or attribute.
#[derive(Debug, Clone, PartialEq, Eq)]
pub struct QualName {
    pub prefix: Option<String>,
    pub ns: String,
    pub local: String,
}

/// A name as mathematical values.
pub struct NameModel {
    pub prefix: Option<Seq<char>>,
    pub ns: Seq<char>,
    pub local: Seq<char>,
}

impl View for QualName {
    type V = NameModel;

    open spec fn view(&self) -> NameModel {
        NameModel {
            prefix: match self.prefix {
                Some(prefix) => Some(prefix@),
                None => None,
            },
            ns: self.ns@,
            local: self.local@,
        }
    }
}

impl QualName {
    /// A name with the given parts.
    pub fn new(prefix: Option<&str>, ns: &str, local: &str) -> (name: QualName)
        ensures
            name@ == (NameModel {
                prefix: match prefix {
                    Some(prefix) => Some(prefix@),
                    None => None,
                },
                ns: ns@,
                local: local@,
            }),
    {
        QualName {
            prefix: match prefix {
                Some(prefix) => Some(prefix.to_owned()),
                None => None,
            },
            ns: ns.to_owned(),
            local: local.to_owned(),
        }
    }

    /// A copy of the name.
    pub fn duplicate(&self) -> (copy: QualName)
        ensures
            copy@ == self@,
    {
        QualName {
            prefix: match &self.prefix {
                Some(prefix) => Some(prefix.clone()),
                None => None,
            },
            ns: self.ns.clone(),
            local: self.local.clone(),
        }
    }

    /// Whether the two names are the same in every part.
    pub fn same(&self, other: &QualName) -> (same: bool)
        ensures
            same == (self@ == other@),
    {
        let same_prefix = match (&self.prefix, &other.prefix) {
            (Some(a), Some(b)) => *a == *b,
            (None, None) => true,
            _ => false,
        };
        same_prefix && self.ns == other.ns && self.local == other.local
    }
}

/// An attribute of an element.
#[derive(Debug, Clone, PartialEq, Eq)]
pub struct Attribute {
    pub name: QualName,
    pub value: String,
}

/// An attribute as mathematical values.
pub struct AttributeModel {
    pub name: NameModel,
    pub value: Seq<char>,
}

impl View for Attribute {
    type V = AttributeModel;

    open spec fn view(&self) -> AttributeModel {
        AttributeModel { name: self.name@, value: self.value@ }
    }
}

impl Attribute {
    /// A copy of the attribute.
    pub fn duplicate(&self) -> (copy: Attribute)
        ensures
            copy@ == self@,
    {
        Attribute { name: self.name.duplicate(), value: self.value.clone() }
    }
}

/// The attributes of a list, as mathematical values.
pub open spec fn attributes_model(attrs: Seq<Attribute>) -> Seq<AttributeModel> {
    attrs.map_values(|attr: Attribute| attr@)
}

/// What a node is and holds.
#[derive(Debug)]
#[allow(inconsistent_fields)]
pub enum NodeData {
    Document,
    Doctype { name: String, public_id: String, system_id: String },
    Text { contents: String },
    Comment { contents: String },
    Element {
        name: QualName,
        attrs: Vec<Attribute>,
        template_contents: Option<Handle>,
        mathml_annotation_xml_integration_point: bool,
    },
    ProcessingInstruction { target: String, contents: String },
}

/// What a node is and holds, as mathematical values.
#[allow(inconsistent_fields)]
pub enum DataModel {
    Document,
    Doctype { name: Seq<char>, public_id: Seq<char>, system_id: Seq<char> },
    Text { contents: Seq<char> },
    Comment { contents: Seq<char> },
    Element {
        name: NameModel,
        attrs: Seq<AttributeModel>,
        template_contents: Option<int>,
        mathml_annotation_xml_integration_point: bool,
    },
    ProcessingInstruction { target: Seq<char>, contents: Seq<char> },
}

impl View for NodeData {
    type V = DataModel;

    open spec fn view(&self) -> DataModel {
        match self {
            NodeData::Document => DataModel::Document,
            NodeData::Doctype { name, public_id, system_id } => DataModel::Doctype {
                name: name@,
                public_id: public_id@,
                system_id: system_id@,
            },
            NodeData::Text { contents } => DataModel::Text { contents: contents@ },
            NodeData::Comment { contents } => DataModel::Comment { contents: contents@ },
            NodeData::Element {
                name,
                attrs,
                template_contents,
                mathml_annotation_xml_integration_point,
            } => DataModel::Element {
                name: name@,
                attrs: attributes_model(attrs@),
                template_contents: match template_contents {
                    Some(handle) => Some(*handle as int),
                    None => None,
                },
                mathml_annotation_xml_integration_point: *mathml_annotation_xml_integration_point,
            },
            NodeData::ProcessingInstruction { target, contents } => {
                DataModel::ProcessingInstruction { target: target@, contents: contents@ }
            },
        }
    }
}

/// A node of a document: its data, its children in document order, and its
/// parent, if it has one.
#[derive(Debug)]
pub struct Node {
    parent: Option<Handle>,
    children: Vec<Handle>,
    data: NodeData,
}

/// A node as mathematical values.
pub struct NodeModel {
    pub parent: Option<int>,
    pub children: Seq<int>,
    pub data: DataModel,
}

impl View for Node {
    type V = NodeModel;

    closed spec fn view(&self) -> NodeModel {
        NodeModel {
            parent: match self.parent {
                Some(parent) => Some(parent as int),
                None => None,
            },
            children: self.children@.map_values(|child: Handle| child as int),
            data: self.data@,
        }
    }
}

impl Node {
    /// A node with the given data, without parent or children.
    pub fn new(data: NodeData) -> (node: Node)
        ensures
            node@ == (NodeModel { parent: None, children: Seq::empty(), data: data@ }),
    {
        let node = Node { parent: None, children: Vec::new(), data };
        proof {
            assert(node.children@.map_values(|child: Handle| child as int) =~= Seq::<
                int,
            >::empty());
        }
        node
    }
}

/// Whether an attribute of the given name is in the list.
pub fn holds_name(attrs: &Vec<Attribute>, name: &QualName) -> (held: bool)
    ensures
        held == has_attribute(attributes_model(attrs@), name@),
{
    let mut i: usize = 0;
    while i < attrs.len()
        invariant
            i <= attrs.len(),
            forall|j: int| 0 <= j < i ==> (#[trigger] attributes_model(attrs@)[j]).name != name@,
        decreases attrs.len() - i,
    {
        if attrs[i].name.same(name) {
            proof {
                assert(attributes_model(attrs@)[i as int].name == name@);
            }
            return true;
        }
        i += 1;
    }
    false
}

/// What is appended to a node: another node, or text.
#[derive(Debug)]
pub enum NodeOrText {
    AppendNode(Handle),
    AppendText(String),
}

impl View for NodeOrText {
    type V = AppendModel;

    open spec fn view(&self) -> AppendModel {
        match self {
            NodeOrText::AppendNode(node) => AppendModel::AppendNode(*node as int),
            NodeOrText::AppendText(text) => AppendModel::AppendText(text@),
        }
    }
}

/// What the parser says of an element when it creates it.
#[derive(Debug, Clone, Copy, Default)]
pub struct ElementFlags {
    /// The element is a template: it gets contents of its own.
    pub template: bool,
    /// The element is a MathML `annotation-xml` integration point.
    pub mathml_annotation_xml_integration_point: bool,
}

/// How far a document departs from the standard in its rendering.
#[derive(Debug, Clone, Copy, PartialEq, Eq, Structural)]
pub enum QuirksMode {
    Quirks,
    LimitedQuirks,
    NoQuirks,
}

/// A document: a store of nodes, one of which is the root.
pub struct RcDom {
    nodes: Vec<Node>,
    document: Handle,
    errors: Vec<String>,
    quirks_mode: QuirksMode,
    ranks: Ghost<Seq<nat>>,
    limit: Ghost<nat>,
}

impl View for RcDom {
    type V = DomModel;

    closed spec fn view(&self) -> DomModel {
        DomModel {
            nodes: self.nodes@.map_values(|node: Node| node@),
            document: self.document as int,
            ranks: self.ranks@,
            limit: self.limit@,
            errors: self.errors@.map_values(|message: String| message@),
            quirks_mode: self.quirks_mode,
        }
    }
}

impl RcDom {
    /// A document that holds its root and nothing else.
    pub fn new() -> (dom: RcDom)
        ensures
            dom@.well_formed(),
            dom@.nodes.len() == 1,
            dom@.document == 0,
            dom@.children(0).len() == 0,
            dom@.errors.len() == 0,
            dom@.quirks_mode == QuirksMode::NoQuirks,
    {
        let mut nodes: Vec<Node> = Vec::new();
        nodes.push(Node::new(NodeData::Document));
        let dom = RcDom {
            nodes,
            document: 0,
            errors: Vec::new(),
            quirks_mode: QuirksMode::NoQuirks,
            ranks: Ghost(Seq::<nat>::empty().push(0)),
            limit: Ghost(1nat),
        };
        proof {
            assert(dom@.nodes.len() == 1);
            assert(dom@.nodes[0] == dom.nodes@[0]@);
            assert(dom@.errors.len() == 0);
        }
        dom
    }

    /// The number of nodes that the document has ever held.
    pub fn len(&self) -> (n: usize)
        ensures
            n == self@.nodes.len(),
    {
        self.nodes.len()
    }

    /// The root of the document.
    pub fn get_document(&self) -> (root: Handle)
        ensures
            root == self@.document,
    {
        self.document
    }

    /// The parent of node `h`.
    pub fn parent(&self, h: Handle) -> (parent: Option<Handle>)
        requires
            self@.has(h as int),
        ensures
            match parent {
                Some(p) => self@.parent(h as int) == Some(p as int),
                None => self@.parent(h as int) is None,
            },
    {
        self.nodes[h].parent
    }

    /// The children of node `h`, in document order.
    pub fn children(&self, h: Handle) -> (children: &Vec<Handle>)
        requires
            self@.has(h as int),
        ensures
            children@.map_values(|child: Handle| child as int) == self@.children(h as int),
    {
        &self.nodes[h].children
    }

    /// The data of node `h`.
    pub fn data(&self, h: Handle) -> (data: &NodeData)
        requires
            self@.has(h as int),
        ensures
            data@ == self@.data(h as int),
    {
        &self.nodes[h].data
    }

    /// Whether `x` is `top` or one of its descendants.
    pub fn in_subtree(&self, top: Handle, x: Handle) -> (within: bool)
        requires
            self@.well_formed(),
            self@.has(x as int),
        ensures
            within == self@.in_subtree(top as int, x as int),
    {
        let mut at = x;
        loop
            invariant
                self@.well_formed(),
                self@.has(at as int),
                self@.in_subtree(top as int, at as int) == self@.in_subtree(top as int, x as int),
            decreases self@.rank(at as int),
        {
            if at == top {
                return true;
            }
            match self.nodes[at].parent {
                Some(p) => {
                    proof {
                        assert(self@.parent(at as int) == Some(p as int));
                    }
                    at = p;
                },
                None => {
                    proof {
                        assert(self@.parent(at as int) is None);
                    }
                    return false;
                },
            }
        }
    }

    /// Puts the parentless node `child` among the children of `parent`, at
    /// position `at`.
    pub fn attach(&mut self, parent: Handle, at: usize, child: Handle)
        requires
            old(self)@.well_formed(),
            old(self)@.has(parent as int),
            old(self)@.has(child as int),
            !(old(self)@.data(child as int) is Document),
            old(self)@.parent(child as int) is None,
            !old(self)@.in_subtree(child as int, parent as int),
            !(old(self)@.data(parent as int) is Text),
            at <= old(self)@.children(parent as int).len(),
        ensures
            final(self)@ == old(self)@.attach(parent as int, at as int, child as int),
            final(self)@.well_formed(),
    {
        let ghost before = self@;
        proof {
            lemma_attach_well_formed(before, parent as int, at as int, child as int);
        }
        self.nodes[child].parent = Some(parent);
        self.nodes[parent].children.insert(at, child);
        proof {
            let shift = before.rank(parent as int) + 1;
            self.ranks@ = Seq::new(
                before.ranks.len(),
                |x: int|
                    if before.in_subtree(child as int, x) {
                        before.ranks[x] + shift
                    } else {
                        before.ranks[x]
                    },
            );
            self.limit@ = before.limit + shift;
            let after = before.attach(parent as int, at as int, child as int);
            assert(self@.nodes[parent as int].children =~= after.nodes[parent as int].children);
            assert(self@.nodes =~= after.nodes);
            assert(self@.ranks =~= after.ranks);
        }
    }

    /// Takes node `target` away from its parent. A node without parent is
    /// left as it is.
    pub fn remove_from_parent(&mut self, target: Handle)
        requires
            old(self)@.well_formed(),
            old(self)@.has(target as int),
        ensures
            final(self)@ == old(self)@.detach(target as int),
            final(self)@.well_formed(),
    {
        let ghost before = self@;
        proof {
            lemma_detach_well_formed(before, target as int);
        }
        if let Some((parent, i)) = self.get_parent_and_index(target) {
            self.nodes[parent].children.remove(i);
            self.nodes[target].parent = None;
            proof {
                let after = before.detach(target as int);
                assert(self@.nodes[parent as int].children =~= after.nodes[parent as int].children);
                assert(self@.nodes =~= after.nodes);
            }
        }
    }

    /// The parent of `target` and the position of `target` among its
    /// children, if `target` has a parent.
    pub fn get_parent_and_index(&self, target: Handle) -> (found: Option<(Handle, usize)>)
        requires
            self@.well_formed(),
            self@.has(target as int),
        ensures
            match found {
                Some((parent, i)) => {
                    &&& self@.parent(target as int) == Some(parent as int)
                    &&& self@.has(parent as int)
                    &&& i == self@.children(parent as int).index_of(target as int)
                    &&& i < self@.children(parent as int).len()
                    &&& self@.children(parent as int)[i as int] == target
                },
                None => self@.parent(target as int) is None,
            },
    {
        match self.nodes[target].parent {
            Some(parent) => {
                proof {
                    assert(self@.parent(target as int) == Some(parent as int));
                    assert(self@.children(parent as int).contains(target as int));
                }
                let children = &self.nodes[parent].children;
                let mut i: usize = 0;
                while i < children.len() && children[i] != target
                    invariant
                        self@.well_formed(),
                        self@.has(parent as int),
                        children@.map_values(|child: Handle| child as int) == self@.children(
                            parent as int,
                        ),
                        i <= children.len(),
                        forall|j: int| 0 <= j < i ==> self@.children(parent as int)[j] != target,
                        self@.children(parent as int).contains(target as int),
                    decreases children.len() - i,
                {
                    i += 1;
                }
                proof {
                    let list = self@.children(parent as int);
                    let k = list.index_of(target as int);
                    assert(list[k] == target);
                    assert(i < list.len());
                    assert(list[i as int] == children@[i as int] as int);
                    if k != i {
                        if k < i {
                            assert(list[k] != target);
                        } else {
                            assert(list[i as int] != list[k]);
                        }
                    }
                }
                Some((parent, i))
            },
            None => None,
        }
    }

    /// Adds `text` to the end of node `prev` where that is a text node, and
    /// says whether it did.
    pub fn append_to_existing_text(&mut self, prev: Handle, text: &str) -> (joined: bool)
        requires
            old(self)@.well_formed(),
            old(self)@.has(prev as int),
        ensures
            joined == (old(self)@.data(prev as int) is Text),
            final(self)@ == old(self)@.extend_text(prev as int, text@),
            final(self)@.well_formed(),
    {
        let ghost before = self@;
        match &mut self.nodes[prev].data {
            NodeData::Text { contents } => {
                contents.push_str(text);
                proof {
                    let after = before.extend_text(prev as int, text@);
                    lemma_with_data_well_formed(before, prev as int, after.data(prev as int));
                    assert(self@.nodes =~= after.nodes);
                }
                true
            },
            _ => {
                proof {
                    assert(self@.nodes =~= before.nodes);
                }
                false
            },
        }
    }

    /// Gives up the text of the text node `h`, so that what held it is free
    /// again at once. The node stays in the document, empty.
    pub fn release(&mut self, h: Handle)
        requires
            old(self)@.well_formed(),
            old(self)@.has(h as int),
        ensures
            final(self)@ == old(self)@.released(h as int),
            final(self)@.well_formed(),
    {
        let ghost before = self@;
        match &mut self.nodes[h].data {
            NodeData::Text { contents } => {
                *contents = String::new();
                proof {
                    let after = before.released(h as int);
                    lemma_with_data_well_formed(before, h as int, after.data(h as int));
                    assert(self@.nodes =~= after.nodes);
                }
            },
            _ => {
                proof {
                    assert(self@.nodes =~= before.nodes);
                }
            },
        }
    }

    /// Records a message of the parser. Messages never stop the work.
    pub fn parse_error(&mut self, msg: String)
        ensures
            final(self)@ == (DomModel { errors: old(self)@.errors.push(msg@), ..old(self)@ }),
    {
        let ghost before = self@;
        self.errors.push(msg);
        proof {
            assert(self@.errors =~= before.errors.push(msg@));
        }
    }

    /// Sets the quirks mode of the document.
    pub fn set_quirks_mode(&mut self, mode: QuirksMode)
        ensures
            final(self)@ == (DomModel { quirks_mode: mode, ..old(self)@ }),
    {
        self.quirks_mode = mode;
    }

    /// Whether the two handles name one node.
    pub fn same_node(&self, x: Handle, y: Handle) -> (same: bool)
        ensures
            same == (x == y),
    {
        x == y
    }

    /// The name of element `target`.
    pub fn elem_name(&self, target: Handle) -> (name: &QualName)
        requires
            self@.has(target as int),
            self@.data(target as int) is Element,
        ensures
            self@.data(target as int) matches DataModel::Element { name: n, .. } && name@ == n,
    {
        match &self.nodes[target].data {
            NodeData::Element { name, .. } => name,
            _ => vstd::pervasive::unreached(),
        }
    }

    /// The contents of the template element `target`.
    pub fn get_template_contents(&self, target: Handle) -> (contents: Handle)
        requires
            self@.well_formed(),
            self@.has(target as int),
            self@.data(target as int) matches DataModel::Element { template_contents, .. }
                && template_contents is Some,
        ensures
            self@.data(target as int) matches DataModel::Element { template_contents, .. }
                && template_contents == Some(contents as int),
            self@.has(contents as int),
    {
        proof {
            assert(self@.holds_template_of(self@.data(target as int)));
        }
        match &self.nodes[target].data {
            NodeData::Element { template_contents: Some(contents), .. } => *contents,
            _ => vstd::pervasive::unreached(),
        }
    }

    /// Whether element `target` is a MathML `annotation-xml` integration
    /// point.
    pub fn is_mathml_annotation_xml_integration_point(&self, target: Handle) -> (is_point: bool)
        requires
            self@.has(target as int),
            self@.data(target as int) is Element,
        ensures
            self@.data(target as int) matches DataModel::Element {
                mathml_annotation_xml_integration_point,
                ..
            } && is_point == mathml_annotation_xml_integration_point,
    {
        match &self.nodes[target].data {
            NodeData::Element { mathml_annotation_xml_integration_point, .. } => {
                *mathml_annotation_xml_integration_point
            },
            _ => vstd::pervasive::unreached(),
        }
    }

    /// Adds an element without parent or children. A template element
    /// gets an empty document of its own as its contents.
    pub fn create_element(&mut self, name: QualName, attrs: Vec<Attribute>, flags: ElementFlags) -> (handle:
        Handle)
        requires
            old(self)@.well_formed(),
        ensures
            final(self)@.well_formed(),
            final(self)@.has(handle as int),
            flags.template ==> handle == old(self)@.nodes.len() + 1 && final(self)@ == old(
                self,
            )@.create(DataModel::Document).create(
                DataModel::Element {
                    name: name@,
                    attrs: attributes_model(attrs@),
                    template_contents: Some(old(self)@.nodes.len() as int),
                    mathml_annotation_xml_integration_point:
                        flags.mathml_annotation_xml_integration_point,
                },
            ),
            !flags.template ==> handle == old(self)@.nodes.len() && final(self)@ == old(
                self,
            )@.create(
                DataModel::Element {
                    name: name@,
                    attrs: attributes_model(attrs@),
                    template_contents: None,
                    mathml_annotation_xml_integration_point:
                        flags.mathml_annotation_xml_integration_point,
                },
            ),
    {
        let template_contents = if flags.template {
            Some(self.create(NodeData::Document))
        } else {
            None
        };
        self.create(
            NodeData::Element {
                name,
                attrs,
                template_contents,
                mathml_annotation_xml_integration_point:
                    flags.mathml_annotation_xml_integration_point,
            },
        )
    }

    /// Adds a comment without parent.
    pub fn create_comment(&mut self, text: String) -> (handle: Handle)
        requires
            old(self)@.well_formed(),
        ensures
            final(self)@ == old(self)@.create(DataModel::Comment { contents: text@ }),
            final(self)@.well_formed(),
            handle == old(self)@.nodes.len(),
    {
        self.create(NodeData::Comment { contents: text })
    }

    /// Adds a processing instruction without parent.
    pub fn create_pi(&mut self, target: String, data: String) -> (handle: Handle)
        requires
            old(self)@.well_formed(),
        ensures
            final(self)@ == old(self)@.create(
                DataModel::ProcessingInstruction { target: target@, contents: data@ },
            ),
            final(self)@.well_formed(),
            handle == old(self)@.nodes.len(),
    {
        self.create(NodeData::ProcessingInstruction { target, contents: data })
    }

    /// Adds a text node without parent.
    pub fn create_text(&mut self, text: String) -> (handle: Handle)
        requires
            old(self)@.well_formed(),
        ensures
            final(self)@ == old(self)@.create(DataModel::Text { contents: text@ }),
            final(self)@.well_formed(),
            handle == old(self)@.nodes.len(),
    {
        self.create(NodeData::Text { contents: text })
    }

    /// Makes the parentless node `child` the last child of `parent`.
    pub fn append_node(&mut self, parent: Handle, child: Handle)
        requires
            old(self)@.well_formed(),
            old(self)@.has(parent as int),
            old(self)@.has(child as int),
            !(old(self)@.data(child as int) is Document),
            old(self)@.parent(child as int) is None,
            !old(self)@.in_subtree(child as int, parent as int),
            !(old(self)@.data(parent as int) is Text),
        ensures
            final(self)@ == old(self)@.append_node(parent as int, child as int),
            final(self)@.well_formed(),
    {
        let at = self.nodes[parent].children.len();
        self.attach(parent, at, child);
    }

    /// Puts a new text node among the children of `parent`, at position
    /// `at`.
    fn attach_text(&mut self, parent: Handle, at: usize, text: String)
        requires
            old(self)@.well_formed(),
            old(self)@.has(parent as int),
            !(old(self)@.data(parent as int) is Text),
            at <= old(self)@.children(parent as int).len(),
        ensures
            final(self)@ == old(self)@.attach_text(parent as int, at as int, text@),
            final(self)@.well_formed(),
    {
        let ghost before = self@;
        let node = self.create_text(text);
        proof {
            let grown = self@;
            assert(grown.parent(node as int) is None);
            assert(grown.children(parent as int) == before.children(parent as int));
            assert(grown.data(parent as int) == before.data(parent as int));
            assert(!grown.in_subtree(node as int, parent as int)) by {
                lemma_fresh_node_is_alone(before, DataModel::Text { contents: text@ }, parent as int);
            }
        }
        self.attach(parent, at, node);
    }

    /// Appends `child` to `parent`. Text joins the last child of `parent`
    /// where that is a text node; otherwise it becomes a new text node, the
    /// last child. A node becomes the last child.
    pub fn append(&mut self, parent: Handle, child: NodeOrText)
        requires
            old(self)@.well_formed(),
            old(self)@.has(parent as int),
            !(old(self)@.data(parent as int) is Text),
            child@ matches AppendModel::AppendNode(node) ==> {
                &&& old(self)@.has(node)
                &&& !(old(self)@.data(node) is Document)
                &&& old(self)@.parent(node) is None
                &&& !old(self)@.in_subtree(node, parent as int)
            },
        ensures
            final(self)@ == old(self)@.append(parent as int, child@),
            final(self)@.well_formed(),
    {
        match child {
            NodeOrText::AppendText(text) => {
                let count = self.nodes[parent].children.len();
                if count > 0 {
                    let last = self.nodes[parent].children[count - 1];
                    proof {
                        assert(self@.children(parent as int)[count - 1] == last);
                    }
                    if self.append_to_existing_text(last, text.as_str()) {
                        return ;
                    }
                }
                self.attach_text(parent, count, text);
            },
            NodeOrText::AppendNode(node) => {
                self.append_node(parent, node);
            },
        }
    }

    /// Puts `child` before `sibling` among the children of the parent of
    /// `sibling`. Text joins the child before `sibling` where that is a
    /// text node. A node is first taken away from the parent it has.
    pub fn append_before_sibling(&mut self, sibling: Handle, child: NodeOrText)
        requires
            old(self)@.well_formed(),
            old(self)@.has(sibling as int),
            old(self)@.parent(sibling as int) is Some,
            child@ matches AppendModel::AppendNode(node) ==> {
                &&& old(self)@.has(node)
                &&& !(old(self)@.data(node) is Document)
                &&& !old(self)@.in_subtree(node, old(self)@.parent(sibling as int)->0)
            },
        ensures
            final(self)@ == old(self)@.append_before_sibling(sibling as int, child@),
            final(self)@.well_formed(),
    {
        let ghost before = self@;
        let found = self.get_parent_and_index(sibling);
        let (parent, i) = found.unwrap();
        proof {
            assert(before.children(parent as int).len() > 0);
            assert(!(before.data(parent as int) is Text));
        }
        match child {
            NodeOrText::AppendText(text) => {
                if i > 0 {
                    let prev = self.nodes[parent].children[i - 1];
                    proof {
                        assert(self@.children(parent as int)[i - 1] == prev);
                    }
                    if self.append_to_existing_text(prev, text.as_str()) {
                        return ;
                    }
                }
                self.attach_text(parent, i, text);
            },
            NodeOrText::AppendNode(node) => {
                self.remove_from_parent(node);
                proof {
                    let detached = self@;
                    assert(detached.parent(node as int) is None);
                    assert(detached.data(parent as int) == before.data(parent as int));
                    if detached.in_subtree(node as int, parent as int) {
                        lemma_detach_in_subtree(before, node as int, node as int, parent as int);
                    }
                    if before.parent(node as int) == Some(parent as int) {
                        let list = before.children(parent as int);
                        assert(list.contains(node as int));
                        list.remove_ensures(list.index_of(node as int));
                    }
                }
                self.attach(parent, i, node);
            },
        }
    }

    /// Puts `child` before `element` where `element` has a parent, and
    /// appends it to `prev_element` otherwise.
    pub fn append_based_on_parent_node(
        &mut self,
        element: Handle,
        prev_element: Handle,
        child: NodeOrText,
    )
        requires
            old(self)@.well_formed(),
            old(self)@.has(element as int),
            old(self)@.has(prev_element as int),
            old(self)@.parent(element as int) is None ==> !(old(self)@.data(prev_element as int)
                is Text),
            child@ matches AppendModel::AppendNode(node) ==> {
                &&& old(self)@.has(node)
                &&& !(old(self)@.data(node) is Document)
                &&& match old(self)@.parent(element as int) {
                    Some(parent) => !old(self)@.in_subtree(node, parent),
                    None => old(self)@.parent(node) is None && !old(self)@.in_subtree(
                        node,
                        prev_element as int,
                    ),
                }
            },
        ensures
            final(self)@ == if old(self)@.parent(element as int) is Some {
                old(self)@.append_before_sibling(element as int, child@)
            } else {
                old(self)@.append(prev_element as int, child@)
            },
            final(self)@.well_formed(),
    {
        let has_parent = self.nodes[element].parent.is_some();
        proof {
            assert(has_parent == (self@.parent(element as int) is Some));
        }
        if has_parent {
            self.append_before_sibling(element, child);
        } else {
            self.append(prev_element, child);
        }
    }

    /// Makes a doctype node the last child of the root.
    pub fn append_doctype_to_document(&mut self, name: String, public_id: String, system_id: String)
        requires
            old(self)@.well_formed(),
        ensures
            final(self)@ == old(self)@.create(
                DataModel::Doctype { name: name@, public_id: public_id@, system_id: system_id@ },
            ).append_node(old(self)@.document, old(self)@.nodes.len() as int),
            final(self)@.well_formed(),
    {
        let ghost before = self@;
        let ghost data = DataModel::Doctype {
            name: name@,
            public_id: public_id@,
            system_id: system_id@,
        };
        let node = self.create(NodeData::Doctype { name, public_id, system_id });
        proof {
            lemma_fresh_node_is_alone(before, data, before.document);
            assert(self@.data(before.document) == before.data(before.document));
        }
        let root = self.document;
        self.append_node(root, node);
    }

    /// Replaces the attributes of element `h`.
    pub fn set_attributes(&mut self, h: Handle, attrs: Vec<Attribute>)
        requires
            old(self)@.well_formed(),
            old(self)@.has(h as int),
            old(self)@.data(h as int) is Element,
        ensures
            final(self)@ == old(self)@.with_attributes(h as int, attributes_model(attrs@)),
            final(self)@.well_formed(),
    {
        let ghost before = self@;
        let ghost model = attributes_model(attrs@);
        match &mut self.nodes[h].data {
            NodeData::Element { attrs: held, .. } => {
                *held = attrs;
                proof {
                    let after = before.with_attributes(h as int, model);
                    assert(before.holds_template_of(before.data(h as int)));
                    lemma_with_data_well_formed(before, h as int, after.data(h as int));
                    assert(self@.nodes =~= after.nodes);
                }
            },
            _ => {},
        }
    }

    /// Adds to element `target` those of `attrs` whose names it does not
    /// have yet. Of two of them with one name the first is added.
    pub fn add_attrs_if_missing(&mut self, target: Handle, attrs: Vec<Attribute>)
        requires
            old(self)@.well_formed(),
            old(self)@.has(target as int),
            old(self)@.data(target as int) is Element,
        ensures
            final(self)@ == old(self)@.with_attributes(
                target as int,
                merge_missing(old(self)@.attributes(target as int), attributes_model(attrs@)),
            ),
            final(self)@.well_formed(),
    {
        let ghost existing = self@.attributes(target as int);
        let ghost candidates = attributes_model(attrs@);
        let mut merged: Vec<Attribute> = Vec::new();
        match &self.nodes[target].data {
            NodeData::Element { attrs: held, .. } => {
                let mut k: usize = 0;
                while k < held.len()
                    invariant
                        k <= held.len(),
                        attributes_model(merged@) == attributes_model(held@).take(k as int),
                    decreases held.len() - k,
                {
                    let ghost so_far = attributes_model(merged@);
                    merged.push(held[k].duplicate());
                    proof {
                        assert(attributes_model(merged@) =~= so_far.push(held@[k as int]@));
                        assert(attributes_model(held@).take(k + 1) =~= attributes_model(
                            held@,
                        ).take(k as int).push(held@[k as int]@));
                    }
                    k += 1;
                }
                proof {
                    assert(attributes_model(held@).take(held@.len() as int) =~= attributes_model(
                        held@,
                    ));
                }
            },
            _ => {},
        }
        let mut i: usize = 0;
        proof {
            assert(candidates.skip(0) =~= candidates);
        }
        while i < attrs.len()
            invariant
                i <= attrs.len(),
                candidates == attributes_model(attrs@),
                merge_missing(attributes_model(merged@), candidates.skip(i as int))
                    == merge_missing(existing, candidates),
            decreases attrs.len() - i,
        {
            let ghost so_far = attributes_model(merged@);
            proof {
                assert(candidates.skip(i as int)[0] == attrs@[i as int]@);
                assert(candidates.skip(i as int).drop_first() =~= candidates.skip(i + 1));
            }
            if !holds_name(&merged, &attrs[i].name) {
                merged.push(attrs[i].duplicate());
                proof {
                    assert(attributes_model(merged@) =~= so_far.push(attrs@[i as int]@));
                }
            }
            i += 1;
        }
        self.set_attributes(target, merged);
    }

    /// Makes all children of `node` the last children of `new_parent`, in
    /// their order.
    pub fn reparent_children(&mut self, node: Handle, new_parent: Handle)
        requires
            old(self)@.well_formed(),
            old(self)@.has(node as int),
            old(self)@.has(new_parent as int),
            !old(self)@.in_subtree(node as int, new_parent as int),
            !(old(self)@.data(new_parent as int) is Text),
        ensures
            final(self)@ == old(self)@.reparent_children(node as int, new_parent as int),
            final(self)@.well_formed(),
            final(self)@.children(node as int).len() == 0,
    {
        let ghost start = self@;
        let ghost total = self@.children(node as int).len();
        while self.nodes[node].children.len() > 0
            invariant
                self@.well_formed(),
                self@.has(node as int),
                self@.has(new_parent as int),
                !self@.in_subtree(node as int, new_parent as int),
                !(self@.data(new_parent as int) is Text),
                self@.move_children(
                    node as int,
                    new_parent as int,
                    self@.children(node as int).len(),
                ) == start.move_children(node as int, new_parent as int, total),
            decreases self@.children(node as int).len(),
        {
            let ghost before = self@;
            let child = self.nodes[node].children[0];
            proof {
                let list = before.children(node as int);
                assert(list[0] == child);
                assert(before.parent(child as int) == Some(node as int));
                assert(list.contains(child as int));
                let at = list.index_of(child as int);
                if at != 0 {
                    assert(list[0] != list[at]);
                }
                list.remove_ensures(0);
            }
            self.remove_from_parent(child);
            proof {
                let detached = self@;
                assert(detached.parent(child as int) is None);
                assert(detached.data(new_parent as int) == before.data(new_parent as int));
                if detached.in_subtree(child as int, new_parent as int) {
                    lemma_detach_in_subtree(
                        before,
                        child as int,
                        child as int,
                        new_parent as int,
                    );
                    lemma_in_subtree_of_parent(before, child as int, new_parent as int);
                }
                assert(before.rank(node as int) < before.rank(child as int));
                assert(!(before.data(child as int) is Document));
            }
            let ghost detached = self@;
            self.append_node(new_parent, child);
            proof {
                let after = self@;
                assert(node != new_parent) by {
                    assert(before.in_subtree(node as int, node as int));
                }
                assert(after.children(node as int) == before.children(node as int).remove(0));
                assert(after.data(new_parent as int) == before.data(new_parent as int));
                assert forall|y: int| before.has(y) && y != child implies #[trigger] after.parent(y)
                    == before.parent(y) by {
                    assert(detached.parent(y) == before.parent(y));
                }
                if after.in_subtree(node as int, new_parent as int) {
                    if after.in_subtree(child as int, new_parent as int) {
                        lemma_in_subtree_rank(after, child as int, new_parent as int);
                        assert(after.parent(child as int) == Some(new_parent as int));
                        assert(after.rank(new_parent as int) < after.rank(child as int));
                    }
                    lemma_move_keeps_ancestors(
                        before,
                        after,
                        child as int,
                        node as int,
                        new_parent as int,
                    );
                }
            }
        }
    }

    /// Adds a node with the given data, without parent or children, and
    /// returns its handle.
    pub fn create(&mut self, data: NodeData) -> (handle: Handle)
        requires
            old(self)@.well_formed(),
            old(self)@.holds_template_of(data@),
        ensures
            final(self)@ == old(self)@.create(data@),
            final(self)@.well_formed(),
            handle == old(self)@.nodes.len(),
    {
        let handle = self.nodes.len();
        proof {
            lemma_create_well_formed(self@, data@);
        }
        let ghost before = self@;
        let ghost data_model = data@;
        self.nodes.push(Node::new(data));
        proof {
            self.ranks@ = self.ranks@.push(0);
            self.limit@ = self.limit@ + 1;
            assert(self@.nodes =~= before.create(data_model).nodes);
        }
        handle
    }
}

} // verus!
