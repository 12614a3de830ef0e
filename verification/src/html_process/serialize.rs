use crate::html_process::dom::{
    attributes_model, Attribute, AttributeModel, DataModel, Handle, NameModel, NodeData, QualName,
    RcDom,
};
use crate::html_process::model::DomModel;
use crate::html_process::rewrite::Document;
use crate::html_process::rules::{text_of, BuilderModel};
use crate::html_process::Builder;
use html5ever::serialize::{HtmlSerializer, SerializeOpts, Serializer};
use std::collections::VecDeque;
use vstd::prelude::*;

verus! {

/// The serializer of html5ever, `HtmlSerializer`, over a buffer of bytes.
/// It turns the steps of a walk through a tree into markup, and keeps to
/// itself what it has written.
#[verifier::external_body]
pub struct MarkupWriter {
    inner: HtmlSerializer<Vec<u8>>,
}

/// A step of a walk through a tree, as the serializer is told of it.
pub enum StepModel {
    Open(NameModel, Seq<AttributeModel>),
    Close(NameModel),
    Text(Seq<char>),
    Comment(Seq<char>),
    Doctype(Seq<char>),
    ProcessingInstruction(Seq<char>, Seq<char>),
}

/// The steps that the serializer has been told of since it was made, in
/// their order.
pub uninterp spec fn steps_taken(serializer: MarkupWriter) -> Seq<StepModel>;

/// The markup that a serializer with the default options has written once
/// it has been told of `steps`.
pub uninterp spec fn markup(steps: Seq<StepModel>) -> Seq<char>;

/// How many elements the serializer takes to be open after `steps`,
/// counting the one that it starts with.
pub open spec fn open_elements(steps: Seq<StepModel>) -> int
    decreases steps.len(),
{
    if steps.len() == 0 {
        1
    } else {
        open_elements(steps.drop_last()) + match steps.last() {
            StepModel::Open(..) => 1int,
            StepModel::Close(_) => -1int,
            _ => 0int,
        }
    }
}

/// Makes a serializer with `HtmlSerializer::new`, which writes into an
/// empty buffer with the default options. It has been told of no step.
#[verifier::external_body]
fn new_serializer() -> (serializer: MarkupWriter)
    ensures
        steps_taken(serializer) == Seq::<StepModel>::empty(),
{
    MarkupWriter { inner: HtmlSerializer::new(Vec::new(), SerializeOpts::default()) }
}

/// Calls `start_elem` of the serializer. It fails without an open element,
/// so one is asked for. Writing into a buffer does not fail.
#[verifier::external_body]
fn start_elem(serializer: &mut MarkupWriter, name: &QualName, attrs: &Vec<Attribute>)
    requires
        open_elements(steps_taken(*old(serializer))) >= 1,
    ensures
        steps_taken(*final(serializer)) == steps_taken(*old(serializer)).push(
            StepModel::Open(name@, attributes_model(attrs@)),
        ),
{
    let outside = |n: &QualName|
        html5ever::QualName::new(
            n.prefix.as_deref().map(Into::into),
            n.ns.as_str().into(),
            n.local.as_str().into(),
        );
    let names: Vec<html5ever::QualName> = attrs.iter().map(|attr| outside(&attr.name)).collect();
    let pairs = names.iter().zip(attrs.iter()).map(|(n, attr)| (n, attr.value.as_str()));
    let _ = serializer.inner.start_elem(outside(name), pairs);
}

/// Calls `end_elem` of the serializer. It fails without an open element,
/// so one is asked for.
#[verifier::external_body]
fn end_elem(serializer: &mut MarkupWriter, name: &QualName)
    requires
        open_elements(steps_taken(*old(serializer))) >= 1,
    ensures
        steps_taken(*final(serializer)) == steps_taken(*old(serializer)).push(
            StepModel::Close(name@),
        ),
{
    let outside = html5ever::QualName::new(
        name.prefix.as_deref().map(Into::into),
        name.ns.as_str().into(),
        name.local.as_str().into(),
    );
    let _ = serializer.inner.end_elem(outside);
}

/// Calls `write_text` of the serializer. It fails without an open element,
/// so one is asked for.
#[verifier::external_body]
fn write_text(serializer: &mut MarkupWriter, text: &str)
    requires
        open_elements(steps_taken(*old(serializer))) >= 1,
    ensures
        steps_taken(*final(serializer)) == steps_taken(*old(serializer)).push(
            StepModel::Text(text@),
        ),
{
    let _ = serializer.inner.write_text(text);
}

/// Calls `write_comment` of the serializer.
#[verifier::external_body]
fn write_comment(serializer: &mut MarkupWriter, text: &str)
    ensures
        steps_taken(*final(serializer)) == steps_taken(*old(serializer)).push(
            StepModel::Comment(text@),
        ),
{
    let _ = serializer.inner.write_comment(text);
}

/// Calls `write_doctype` of the serializer.
#[verifier::external_body]
fn write_doctype(serializer: &mut MarkupWriter, name: &str)
    ensures
        steps_taken(*final(serializer)) == steps_taken(*old(serializer)).push(
            StepModel::Doctype(name@),
        ),
{
    let _ = serializer.inner.write_doctype(name);
}

/// Calls `write_processing_instruction` of the serializer.
#[verifier::external_body]
fn write_processing_instruction(
    serializer: &mut MarkupWriter,
    target: &str,
    data: &str,
)
    ensures
        steps_taken(*final(serializer)) == steps_taken(*old(serializer)).push(
            StepModel::ProcessingInstruction(target@, data@),
        ),
{
    let _ = serializer.inner.write_processing_instruction(target, data);
}

/// Takes the buffer out of the serializer and reads it as a string with
/// `String::from_utf8`. What was written is a matter of the steps alone.
#[verifier::external_body]
fn written(serializer: MarkupWriter) -> (text: String)
    ensures
        text@ == markup(steps_taken(serializer)),
{
    String::from_utf8(serializer.inner.writer).unwrap_or_default()
}

/// What of a node is serialized.
#[derive(Debug)]
pub enum TraversalScope {
    /// The node itself with all that is below it.
    IncludeNode,
    /// What is below the node. The name of the node may be given.
    ChildrenOnly(Option<QualName>),
}

/// A node that can be serialized.
pub struct SerializableHandle(pub Handle);

impl vstd::std_specs::convert::FromSpecImpl<Handle> for SerializableHandle {
    open spec fn obeys_from_spec() -> bool {
        true
    }

    open spec fn from_spec(h: Handle) -> Self {
        SerializableHandle(h)
    }
}

impl From<Handle> for SerializableHandle {
    fn from(h: Handle) -> (handle: SerializableHandle) {
        SerializableHandle(h)
    }
}

/// What a walk has yet to do: to open a node, or to close an element.
enum SerializeOp {
    Open(Handle),
    Close(QualName),
}

/// What a walk has yet to do, as mathematical values.
pub enum OpModel {
    Open(int),
    Close(NameModel),
}

impl View for SerializeOp {
    type V = OpModel;

    closed spec fn view(&self) -> OpModel {
        match self {
            SerializeOp::Open(h) => OpModel::Open(*h as int),
            SerializeOp::Close(name) => OpModel::Close(name@),
        }
    }
}

spec fn ops_model(ops: Seq<SerializeOp>) -> Seq<OpModel> {
    ops.map_values(|op: SerializeOp| op@)
}

impl DomModel {
    /// The steps of a walk through node `h` and what is below it: an
    /// element is opened, its children are walked through in their order,
    /// and it is closed. Any other node is one step, whatever is below it.
    pub open spec fn node_steps(self, h: int) -> Seq<StepModel>
        decreases self.limit - self.rank(h), self.children(h).len() + 1,
    {
        match self.data(h) {
            DataModel::Element { name, attrs, .. } => seq![StepModel::Open(name, attrs)]
                + self.children_steps(h, 0) + seq![StepModel::Close(name)],
            DataModel::Doctype { name, .. } => seq![StepModel::Doctype(name)],
            DataModel::Text { contents } => seq![StepModel::Text(contents)],
            DataModel::Comment { contents } => seq![StepModel::Comment(contents)],
            DataModel::ProcessingInstruction { target, contents } => seq![
                StepModel::ProcessingInstruction(target, contents),
            ],
            DataModel::Document => Seq::empty(),
        }
    }

    /// The steps of a walk through the children of `h` from position `i`
    /// on.
    pub open spec fn children_steps(self, h: int, i: int) -> Seq<StepModel>
        decreases self.limit - self.rank(h), self.children(h).len() - i,
    {
        if i < 0 || i >= self.children(h).len() {
            Seq::empty()
        } else {
            let child = self.children(h)[i];
            let steps = if self.rank(h) < self.rank(child) < self.limit {
                self.node_steps(child)
            } else {
                Seq::empty()
            };
            steps + self.children_steps(h, i + 1)
        }
    }

    /// The steps that a walk has yet to take: what is at the front of its
    /// queue comes first.
    pub open spec fn pending_steps(self, ops: Seq<OpModel>) -> Seq<StepModel>
        decreases ops.len(),
    {
        if ops.len() == 0 {
            Seq::empty()
        } else {
            (match ops[0] {
                OpModel::Open(h) => self.node_steps(h),
                OpModel::Close(name) => seq![StepModel::Close(name)],
            }) + self.pending_steps(ops.drop_first())
        }
    }

    /// The steps of a walk through `h` in the given scope.
    pub open spec fn scope_steps(self, h: int, include_node: bool) -> Seq<StepModel> {
        if include_node {
            self.node_steps(h)
        } else {
            self.children_steps(h, 0)
        }
    }
}

/// How many elements a walk has yet to close.
pub open spec fn closes_in(ops: Seq<OpModel>) -> int
    decreases ops.len(),
{
    if ops.len() == 0 {
        0
    } else {
        closes_in(ops.drop_first()) + if ops[0] is Close {
            1int
        } else {
            0int
        }
    }
}

/// The queue after the nodes of `list` from position `i` on have been put
/// at its front to be opened, the last of them first, so that they stand
/// there in their order.
pub open spec fn pushed_open(ops: Seq<OpModel>, list: Seq<int>, i: int) -> Seq<OpModel>
    decreases list.len() - i,
{
    if i < 0 || i >= list.len() {
        ops
    } else {
        seq![OpModel::Open(list[i])] + pushed_open(ops, list, i + 1)
    }
}

/// A walk that puts the children of a node at the front of its queue
/// walks through them in document order, and has no more to close.
pub proof fn lemma_pending_pushed_open(m: DomModel, ops: Seq<OpModel>, h: int, i: int)
    requires
        m.well_formed(),
        m.has(h),
        0 <= i <= m.children(h).len(),
    ensures
        m.pending_steps(pushed_open(ops, m.children(h), i)) == m.children_steps(h, i)
            + m.pending_steps(ops),
        closes_in(pushed_open(ops, m.children(h), i)) == closes_in(ops),
    decreases m.children(h).len() - i,
{
    let list = m.children(h);
    if i >= list.len() {
        assert(m.children_steps(h, i) + m.pending_steps(ops) =~= m.pending_steps(ops));
    } else {
        let child = list[i];
        let later = pushed_open(ops, list, i + 1);
        lemma_pending_pushed_open(m, ops, h, i + 1);
        assert(m.has(child));
        assert(m.parent(child) == Some(h));
        assert(m.rank(h) < m.rank(child));
        assert(m.rank(child) < m.limit);
        let all = seq![OpModel::Open(child)] + later;
        assert(all[0] == OpModel::Open(child));
        assert(all.drop_first() =~= later);
        assert(m.pending_steps(all) =~= m.node_steps(child) + (m.children_steps(h, i + 1)
            + m.pending_steps(ops)));
        assert(m.children_steps(h, i) =~= m.node_steps(child) + m.children_steps(h, i + 1));
    }
}

/// A walk never has fewer than no elements to close.
proof fn lemma_closes_in_positive(ops: Seq<OpModel>)
    ensures
        closes_in(ops) >= 0,
    decreases ops.len(),
{
    if ops.len() > 0 {
        lemma_closes_in_positive(ops.drop_first());
    }
}

/// Whether every node that the walk has yet to open is a node of the
/// document, and no `Document`.
spec fn opens_nodes(m: DomModel, ops: Seq<SerializeOp>) -> bool {
    forall|k: int|
        0 <= k < ops.len() ==> ((#[trigger] ops[k]@) matches OpModel::Open(node) ==> m.has(node)
            && !(m.data(node) is Document))
}

/// One more step changes the number of open elements by what the step
/// does, and is the first of the steps that were yet to take.
proof fn lemma_open_elements_push(steps: Seq<StepModel>, step: StepModel, later: Seq<StepModel>)
    ensures
        open_elements(steps.push(step)) == open_elements(steps) + match step {
            StepModel::Open(..) => 1int,
            StepModel::Close(_) => -1int,
            _ => 0int,
        },
        steps + (seq![step] + later) == steps.push(step) + later,
{
    assert(steps.push(step).drop_last() =~= steps);
    assert(steps + (seq![step] + later) =~= steps.push(step) + later);
}

impl SerializableHandle {
    /// Puts the children of `h` at the front of the queue to be opened,
    /// the last of them first.
    fn push_children(dom: &RcDom, ops: &mut VecDeque<SerializeOp>, h: Handle)
        requires
            dom@.well_formed(),
            dom@.has(h as int),
            opens_nodes(dom@, old(ops)@),
        ensures
            ops_model(final(ops)@) == pushed_open(
                ops_model(old(ops)@),
                dom@.children(h as int),
                0,
            ),
            opens_nodes(dom@, final(ops)@),
    {
        let ghost base = ops_model(ops@);
        let children = dom.children(h);
        let ghost list = dom@.children(h as int);
        let mut j: usize = children.len();
        proof {
            assert(children@.len() == list.len());
        }
        while j > 0
            invariant
                dom@.well_formed(),
                dom@.has(h as int),
                list == dom@.children(h as int),
                children@.map_values(|child: Handle| child as int) == list,
                j <= children.len(),
                ops_model(ops@) == pushed_open(base, list, j as int),
                opens_nodes(dom@, ops@),
            decreases j,
        {
            j -= 1;
            let ghost so_far = ops_model(ops@);
            let ghost held = ops@;
            proof {
                assert(list[j as int] == children@[j as int] as int);
                assert(dom@.has(list[j as int]));
                assert(dom@.parent(list[j as int]) == Some(h as int));
                assert(!(dom@.data(list[j as int]) is Document));
            }
            ops.push_front(SerializeOp::Open(children[j]));
            proof {
                assert(ops_model(ops@) =~= seq![OpModel::Open(children@[j as int] as int)]
                    + so_far);
                assert forall|k: int| 0 <= k < ops@.len() implies ((#[trigger] ops@[k]@) matches OpModel::Open(
                    node,
                ) ==> dom@.has(node) && !(dom@.data(node) is Document)) by {
                    if k > 0 {
                        assert(ops@[k] == held[k - 1]);
                    }
                }
            }
        }
    }

    /// Tells the serializer of the steps of a walk through this node: of
    /// the node with all that is below it, or of what is below it only.
    ///
    /// A `Document` node cannot be serialized itself.
    pub fn serialize(&self, dom: &RcDom, serializer: &mut MarkupWriter, traversal_scope: TraversalScope)
        requires
            dom@.well_formed(),
            dom@.has(self.0 as int),
            traversal_scope is IncludeNode ==> !(dom@.data(self.0 as int) is Document),
            open_elements(steps_taken(*old(serializer))) >= 1,
        ensures
            steps_taken(*final(serializer)) == steps_taken(*old(serializer)) + dom@.scope_steps(
                self.0 as int,
                traversal_scope is IncludeNode,
            ),
            open_elements(steps_taken(*final(serializer))) == open_elements(
                steps_taken(*old(serializer)),
            ),
    {
        let ghost start = steps_taken(*serializer);
        let ghost total = dom@.scope_steps(self.0 as int, traversal_scope is IncludeNode);
        let mut ops: VecDeque<SerializeOp> = VecDeque::new();
        proof {
            assert(ops_model(ops@) =~= Seq::<OpModel>::empty());
            assert(dom@.pending_steps(Seq::<OpModel>::empty()) =~= Seq::<StepModel>::empty());
            assert(closes_in(Seq::<OpModel>::empty()) == 0);
        }
        match traversal_scope {
            TraversalScope::IncludeNode => {
                ops.push_back(SerializeOp::Open(self.0));
                proof {
                    assert(ops@[0]@ == OpModel::Open(self.0 as int));
                    let model = ops_model(ops@);
                    assert(model =~= seq![OpModel::Open(self.0 as int)]);
                    assert(model.drop_first() =~= Seq::<OpModel>::empty());
                    assert(dom@.pending_steps(model) =~= dom@.node_steps(self.0 as int));
                    assert(closes_in(model) == 0);
                }
            },
            TraversalScope::ChildrenOnly(_) => {
                Self::push_children(dom, &mut ops, self.0);
                proof {
                    lemma_pending_pushed_open(dom@, Seq::empty(), self.0 as int, 0);
                    assert(dom@.children_steps(self.0 as int, 0) + Seq::<StepModel>::empty()
                        =~= dom@.children_steps(self.0 as int, 0));
                }
            },
        }
        proof {
            assert(start + dom@.pending_steps(ops_model(ops@)) =~= start + total);
        }
        while ops.len() > 0
            invariant
                dom@.well_formed(),
                steps_taken(*serializer) + dom@.pending_steps(ops_model(ops@)) == start + total,
                open_elements(steps_taken(*serializer)) == open_elements(start) + closes_in(
                    ops_model(ops@),
                ),
                open_elements(start) >= 1,
                opens_nodes(dom@, ops@),
            decreases (start + total).len() - steps_taken(*serializer).len(),
        {
            let ghost taken = steps_taken(*serializer);
            let ghost waiting = ops_model(ops@);
            let ghost before = ops@;
            let op = ops.pop_front().unwrap();
            let ghost lower = ops_model(ops@);
            proof {
                assert(before[0] == op);
                assert(waiting[0] == op@);
                assert(lower =~= waiting.drop_first());
                lemma_closes_in_positive(lower);
                assert(opens_nodes(dom@, ops@)) by {
                    assert forall|k: int| 0 <= k < ops@.len() implies ((#[trigger] ops@[k]@) matches OpModel::Open(
                        node,
                    ) ==> dom@.has(node) && !(dom@.data(node) is Document)) by {
                        assert(ops@[k] == before[k + 1]);
                    }
                }
            }
            match op {
                SerializeOp::Open(handle) => {
                    proof {
                        assert(before[0]@ == op@);
                        assert(!(dom@.data(handle as int) is Document));
                    }
                    match dom.data(handle) {
                        NodeData::Element { name, attrs, .. } => {
                            start_elem(serializer, name, attrs);
                            let ghost rest = ops@;
                            ops.push_front(SerializeOp::Close(name.duplicate()));
                            let ghost closing = ops_model(ops@);
                            proof {
                                assert(closing =~= seq![OpModel::Close(name@)] + lower);
                                assert(closing.drop_first() =~= lower);
                                assert(opens_nodes(dom@, ops@)) by {
                                    assert forall|k: int| 0 <= k < ops@.len() implies ((
                                    #[trigger] ops@[k]@) matches OpModel::Open(node) ==> dom@.has(
                                        node,
                                    ) && !(dom@.data(node) is Document)) by {
                                        if k > 0 {
                                            assert(ops@[k] == rest[k - 1]);
                                        }
                                    }
                                }
                            }
                            Self::push_children(dom, &mut ops, handle);
                            proof {
                                let opened = StepModel::Open(name@, attributes_model(attrs@));
                                lemma_open_elements_push(taken, opened, Seq::empty());
                                lemma_pending_pushed_open(dom@, closing, handle as int, 0);
                                assert(taken + (seq![opened] + dom@.children_steps(
                                    handle as int,
                                    0,
                                ) + seq![StepModel::Close(name@)] + dom@.pending_steps(lower))
                                    =~= taken.push(opened) + (dom@.children_steps(handle as int, 0)
                                    + (seq![StepModel::Close(name@)] + dom@.pending_steps(lower))));
                            }
                        },
                        NodeData::Doctype { name, .. } => {
                            write_doctype(serializer, name.as_str());
                            proof {
                                let step = StepModel::Doctype(name@);
                                lemma_open_elements_push(taken, step, dom@.pending_steps(lower));
                            }
                        },
                        NodeData::Text { contents } => {
                            write_text(serializer, contents.as_str());
                            proof {
                                let step = StepModel::Text(contents@);
                                lemma_open_elements_push(taken, step, dom@.pending_steps(lower));
                            }
                        },
                        NodeData::Comment { contents } => {
                            write_comment(serializer, contents.as_str());
                            proof {
                                let step = StepModel::Comment(contents@);
                                lemma_open_elements_push(taken, step, dom@.pending_steps(lower));
                            }
                        },
                        NodeData::ProcessingInstruction { target, contents } => {
                            write_processing_instruction(
                                serializer,
                                target.as_str(),
                                contents.as_str(),
                            );
                            proof {
                                let step = StepModel::ProcessingInstruction(target@, contents@);
                                lemma_open_elements_push(taken, step, dom@.pending_steps(lower));
                            }
                        },
                        NodeData::Document => {},
                    }
                },
                SerializeOp::Close(name) => {
                    end_elem(serializer, &name);
                    proof {
                        let step = StepModel::Close(name@);
                        lemma_open_elements_push(taken, step, dom@.pending_steps(lower));
                    }
                },
            }
        }
        proof {
            assert(ops_model(ops@) =~= Seq::<OpModel>::empty());
            assert(steps_taken(*serializer) + Seq::<StepModel>::empty() =~= steps_taken(
                *serializer,
            ));
        }
    }
}

impl SerializableHandle {
    /// The markup of this node in the given scope: of the node with all
    /// that is below it, or of what is below it only.
    pub fn to_markup(&self, dom: &RcDom, traversal_scope: TraversalScope) -> (html: String)
        requires
            dom@.well_formed(),
            dom@.has(self.0 as int),
            traversal_scope is IncludeNode ==> !(dom@.data(self.0 as int) is Document),
        ensures
            html@ == markup(dom@.scope_steps(self.0 as int, traversal_scope is IncludeNode)),
    {
        let mut serializer = new_serializer();
        proof {
            assert(open_elements(Seq::<StepModel>::empty()) == 1);
            assert(Seq::<StepModel>::empty() + dom@.scope_steps(
                self.0 as int,
                traversal_scope is IncludeNode,
            ) =~= dom@.scope_steps(self.0 as int, traversal_scope is IncludeNode));
        }
        self.serialize(dom, &mut serializer, traversal_scope);
        written(serializer)
    }
}

impl DomModel {
    /// The steps of a walk through what is below the fragment of the
    /// document. A document without fragment has none.
    pub open spec fn fragment_steps(self) -> Seq<StepModel> {
        if self.children(self.document).len() > 0 {
            self.children_steps(self.fragment(), 0)
        } else {
            Seq::empty()
        }
    }
}

impl Document {
    /// The markup of what is below the fragment of the document.
    pub fn to_string(&self) -> (html: String)
        requires
            self@.well_formed(),
        ensures
            html@ == markup(self@.fragment_steps()),
    {
        let mut serializer = new_serializer();
        let root = self.0.get_document();
        let children = self.0.children(root);
        if children.len() > 0 {
            let fragment = children[0];
            proof {
                assert(self@.children(self@.document)[0] == fragment);
                assert(open_elements(Seq::<StepModel>::empty()) == 1);
                assert(Seq::<StepModel>::empty() + self@.children_steps(fragment as int, 0)
                    =~= self@.children_steps(fragment as int, 0));
            }
            SerializableHandle(fragment).serialize(
                &self.0,
                &mut serializer,
                TraversalScope::ChildrenOnly(None),
            );
        }
        written(serializer)
    }
}

/// The options with which a page is rewritten: links that lead elsewhere
/// open in a new window, do not tell where they come from, and are not
/// followed by crawlers.
pub open spec fn page_options(
    canonical_root_url: Option<Seq<char>>,
    search_term: Option<Seq<char>>,
) -> BuilderModel {
    BuilderModel {
        canonical_root_url,
        link_rel: Some("nofollow noopener noreferrer"@),
        link_target: Some("_blank"@),
        search_term,
    }
}

/// Rewrites the fragment of a parsed page and returns its markup.
pub fn process_html(dom: RcDom, canonical_root_url: Option<&str>, search_term: Option<&str>) -> (html:
    String)
    requires
        dom@.well_formed(),
        dom@.children(dom@.document).len() > 0,
    ensures
        html@ == markup(
            dom@.processed(
                page_options(text_of(canonical_root_url), text_of(search_term)),
            ).children_steps(dom@.fragment(), 0),
        ),
{
    let mut builder = Builder::new();
    builder.link_rel(Some("nofollow noopener noreferrer"));
    builder.canonical_root_url(canonical_root_url);
    builder.search_term(search_term);
    builder.process_dom(dom).to_string()
}

} // verus!
