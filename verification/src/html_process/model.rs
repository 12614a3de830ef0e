use crate::html_process::dom::{AttributeModel, DataModel, NameModel, NodeModel, QuirksMode};
use vstd::prelude::*;

verus! {

/// A document as mathematical values: its nodes by handle, the handle of
/// its root, and what parsing reported.
///
/// Every node has a rank, which grows from a parent to each of its children
/// and stays below `limit`. The ranks show that no node is its own
/// ancestor.
pub struct DomModel {
    pub nodes: Seq<NodeModel>,
    pub document: int,
    pub ranks: Seq<nat>,
    pub limit: nat,
    pub errors: Seq<Seq<char>>,
    pub quirks_mode: QuirksMode,
}

impl DomModel {
    /// Whether `h` names a node of the document.
    pub open spec fn has(self, h: int) -> bool {
        0 <= h < self.nodes.len()
    }

    /// The parent of node `h`.
    pub open spec fn parent(self, h: int) -> Option<int> {
        self.nodes[h].parent
    }

    /// The children of node `h`, in document order.
    pub open spec fn children(self, h: int) -> Seq<int> {
        self.nodes[h].children
    }

    /// The data of node `h`.
    pub open spec fn data(self, h: int) -> DataModel {
        self.nodes[h].data
    }

    /// The rank of node `h`.
    pub open spec fn rank(self, h: int) -> nat {
        if 0 <= h < self.ranks.len() {
            self.ranks[h]
        } else {
            0
        }
    }

    /// Whether the template contents that `data` names, if any, are a node
    /// of the document.
    pub open spec fn holds_template_of(self, data: DataModel) -> bool {
        match data {
            DataModel::Element { template_contents: Some(contents), .. } => self.has(contents),
            _ => true,
        }
    }

    /// Parents and children agree: a node is among the children of `p`
    /// exactly if its parent is `p`, and it is so once.
    pub open spec fn linked(self) -> bool {
        &&& forall|h: int, i: int|
            self.has(h) && 0 <= i < self.children(h).len() ==> self.has(
                #[trigger] self.children(h)[i],
            ) && self.parent(self.children(h)[i]) == Some(h)
        &&& forall|h: int, i: int, j: int|
            self.has(h) && 0 <= i < j < self.children(h).len() ==> #[trigger] self.children(h)[i]
                != #[trigger] self.children(h)[j]
        &&& forall|c: int|
            self.has(c) && (#[trigger] self.parent(c)) is Some ==> self.has(self.parent(c)->0)
                && self.children(self.parent(c)->0).contains(c)
    }

    /// Ranks grow from parent to child and stay below the limit.
    pub open spec fn ranked(self) -> bool {
        &&& self.ranks.len() == self.nodes.len()
        &&& forall|c: int|
            self.has(c) && (#[trigger] self.parent(c)) is Some ==> self.rank(self.parent(c)->0)
                < self.rank(c)
        &&& forall|h: int| self.has(h) ==> #[trigger] self.rank(h) < self.limit
    }

    /// The invariant of a document: the root is a `Document` node, such
    /// nodes have no parent, parents and children agree, no node is its own
    /// ancestor, text nodes have no children, and template contents are
    /// nodes of the document.
    pub open spec fn well_formed(self) -> bool {
        &&& self.has(self.document)
        &&& self.data(self.document) is Document
        &&& forall|h: int|
            self.has(h) && (#[trigger] self.data(h)) is Document ==> self.parent(h) is None
        &&& self.linked()
        &&& self.ranked()
        &&& forall|h: int|
            self.has(h) && (#[trigger] self.data(h)) is Text ==> self.children(h).len() == 0
        &&& forall|h: int| self.has(h) ==> self.holds_template_of(#[trigger] self.data(h))
    }

    /// Whether `x` is `top` or one of its descendants.
    pub open spec fn in_subtree(self, top: int, x: int) -> bool
        decreases self.rank(x),
    {
        x == top || (self.has(x) && match self.parent(x) {
            Some(p) => self.rank(p) < self.rank(x) && self.in_subtree(top, p),
            None => false,
        })
    }

    /// The document with one more node, which has the given data, no
    /// parent and no children. Its handle is the number of nodes before.
    pub open spec fn create(self, data: DataModel) -> DomModel {
        DomModel {
            nodes: self.nodes.push(NodeModel { parent: None, children: Seq::empty(), data }),
            ranks: self.ranks.push(0),
            limit: self.limit + 1,
            ..self
        }
    }

    /// The document with the data of node `h` replaced.
    pub open spec fn with_data(self, h: int, data: DataModel) -> DomModel {
        DomModel { nodes: self.nodes.update(h, NodeModel { data, ..self.nodes[h] }), ..self }
    }

    /// The document with the parentless node `child` put among the
    /// children of `parent` at position `at`. The nodes under `child` rise
    /// in rank above `parent`.
    pub open spec fn attach(self, parent: int, at: int, child: int) -> DomModel {
        let shift = self.rank(parent) + 1;
        let linked_child = NodeModel { parent: Some(parent), ..self.nodes[child] };
        let nodes = self.nodes.update(child, linked_child);
        let grown = NodeModel {
            children: nodes[parent].children.insert(at, child),
            ..nodes[parent]
        };
        DomModel {
            nodes: nodes.update(parent, grown),
            ranks: Seq::new(
                self.ranks.len(),
                |x: int|
                    if self.in_subtree(child, x) {
                        self.ranks[x] + shift
                    } else {
                        self.ranks[x]
                    },
            ),
            limit: self.limit + shift,
            ..self
        }
    }

    /// The document with node `h` taken away from its parent. A node
    /// without parent is left as it is.
    pub open spec fn detach(self, h: int) -> DomModel {
        match self.parent(h) {
            Some(p) => {
                let at = self.children(p).index_of(h);
                let shrunk = NodeModel { children: self.children(p).remove(at), ..self.nodes[p] };
                let nodes = self.nodes.update(p, shrunk);
                DomModel {
                    nodes: nodes.update(h, NodeModel { parent: None, ..nodes[h] }),
                    ..self
                }
            },
            None => self,
        }
    }
}


/// What is appended to a node: another node, or text.
pub enum AppendModel {
    AppendNode(int),
    AppendText(Seq<char>),
}

/// Whether an attribute of the given name is in the list.
pub open spec fn has_attribute(attrs: Seq<AttributeModel>, name: NameModel) -> bool {
    exists|i: int| 0 <= i < attrs.len() && (#[trigger] attrs[i]).name == name
}

/// The list `existing` with those of `candidates` added whose names are not
/// in the list yet. Of two candidates with one name the first is added.
pub open spec fn merge_missing(
    existing: Seq<AttributeModel>,
    candidates: Seq<AttributeModel>,
) -> Seq<AttributeModel>
    decreases candidates.len(),
{
    if candidates.len() == 0 {
        existing
    } else if has_attribute(existing, candidates[0].name) {
        merge_missing(existing, candidates.drop_first())
    } else {
        merge_missing(existing.push(candidates[0]), candidates.drop_first())
    }
}

impl DomModel {
    /// The document with the parentless node `child` made the last child of
    /// `parent`.
    pub open spec fn append_node(self, parent: int, child: int) -> DomModel {
        self.attach(parent, self.children(parent).len() as int, child)
    }

    /// The document with `text` added to the end of the text node `h`.
    pub open spec fn extend_text(self, h: int, text: Seq<char>) -> DomModel {
        match self.data(h) {
            DataModel::Text { contents } => self.with_data(
                h,
                DataModel::Text { contents: contents + text },
            ),
            _ => self,
        }
    }

    /// The document with the text of the text node `h` given up: the node
    /// stays, and holds no text any more. Any other node is left as it is.
    pub open spec fn released(self, h: int) -> DomModel {
        match self.data(h) {
            DataModel::Text { .. } => self.with_data(h, DataModel::Text { contents: Seq::empty() }),
            _ => self,
        }
    }

    /// The document with a new text node put among the children of
    /// `parent` at position `at`.
    pub open spec fn attach_text(self, parent: int, at: int, text: Seq<char>) -> DomModel {
        self.create(DataModel::Text { contents: text }).attach(
            parent,
            at,
            self.nodes.len() as int,
        )
    }

    /// The document after `child` has been appended to `parent`. Text joins
    /// the last child where that is a text node, and is a new last child
    /// otherwise. A node becomes the last child.
    pub open spec fn append(self, parent: int, child: AppendModel) -> DomModel {
        let count = self.children(parent).len() as int;
        match child {
            AppendModel::AppendText(text) => if count > 0 && self.data(
                self.children(parent)[count - 1],
            ) is Text {
                self.extend_text(self.children(parent)[count - 1], text)
            } else {
                self.attach_text(parent, count, text)
            },
            AppendModel::AppendNode(node) => self.append_node(parent, node),
        }
    }

    /// The document after `child` has been put before `sibling` among the
    /// children of the parent of `sibling`. Text joins the child before
    /// `sibling` where that is a text node. A node is first taken away
    /// from the parent it has, and then put at the position that `sibling`
    /// had before that.
    pub open spec fn append_before_sibling(self, sibling: int, child: AppendModel) -> DomModel {
        let parent = self.parent(sibling)->0;
        let at = self.children(parent).index_of(sibling);
        match child {
            AppendModel::AppendText(text) => if at > 0 && self.data(
                self.children(parent)[at - 1],
            ) is Text {
                self.extend_text(self.children(parent)[at - 1], text)
            } else {
                self.attach_text(parent, at, text)
            },
            AppendModel::AppendNode(node) => self.detach(node).attach(parent, at, node),
        }
    }

    /// The document after the first `count` children of `node` have been
    /// made the last children of `new_parent`, in their order.
    pub open spec fn move_children(self, node: int, new_parent: int, count: nat) -> DomModel
        decreases count,
    {
        if count == 0 || self.children(node).len() == 0 {
            self
        } else {
            let child = self.children(node)[0];
            self.detach(child).append_node(new_parent, child).move_children(
                node,
                new_parent,
                (count - 1) as nat,
            )
        }
    }

    /// The document after all children of `node` have been made the last
    /// children of `new_parent`, in their order.
    pub open spec fn reparent_children(self, node: int, new_parent: int) -> DomModel {
        self.move_children(node, new_parent, self.children(node).len())
    }

    /// The document with the attributes of element `h` replaced.
    pub open spec fn with_attributes(self, h: int, attrs: Seq<AttributeModel>) -> DomModel {
        match self.data(h) {
            DataModel::Element {
                name,
                attrs: _,
                template_contents,
                mathml_annotation_xml_integration_point,
            } => self.with_data(
                h,
                DataModel::Element {
                    name,
                    attrs,
                    template_contents,
                    mathml_annotation_xml_integration_point,
                },
            ),
            _ => self,
        }
    }

    /// The attributes of element `h`; none for another node.
    pub open spec fn attributes(self, h: int) -> Seq<AttributeModel> {
        match self.data(h) {
            DataModel::Element { attrs, .. } => attrs,
            _ => Seq::empty(),
        }
    }
}

/// A node that was taken away from its parent is below what it was below
/// before, and no more.
pub proof fn lemma_detach_in_subtree(m: DomModel, h: int, top: int, x: int)
    requires
        m.well_formed(),
        m.has(h),
        m.detach(h).in_subtree(top, x),
    ensures
        m.in_subtree(top, x),
    decreases m.rank(x),
{
    let d = m.detach(h);
    if x != top {
        if m.parent(h) is Some {
            let p = m.parent(h)->0;
            assert(p != h) by {
                assert(m.rank(p) < m.rank(h));
            }
            assert(d.parent(h) is None);
            let q = d.parent(x)->0;
            assert(x != h);
            assert(d.parent(x) == m.parent(x));
            assert(d.rank(q) == m.rank(q));
            assert(d.rank(x) == m.rank(x));
            lemma_detach_in_subtree(m, h, top, q);
        }
    }
}

/// Putting a parentless node under a parent that is not below it keeps the
/// document well formed.
pub proof fn lemma_attach_well_formed(m: DomModel, parent: int, at: int, child: int)
    requires
        m.well_formed(),
        m.has(parent),
        m.has(child),
        !(m.data(child) is Document),
        m.parent(child) is None,
        !m.in_subtree(child, parent),
        !(m.data(parent) is Text),
        0 <= at <= m.children(parent).len(),
    ensures
        m.attach(parent, at, child).well_formed(),
{
    let a = m.attach(parent, at, child);
    let old_children = m.children(parent);
    old_children.insert_ensures(at, child);
    assert(parent != child);
    assert(a.nodes.len() == m.nodes.len());
    assert(a.parent(child) == Some(parent));
    assert(a.children(parent) == old_children.insert(at, child));
    assert forall|h: int| m.has(h) && h != child implies #[trigger] a.parent(h) == m.parent(h) by {}
    assert forall|h: int| m.has(h) && h != parent implies #[trigger] a.children(h) == m.children(
        h,
    ) by {}
    assert forall|h: int| m.has(h) implies #[trigger] a.data(h) == m.data(h) by {}
    assert forall|i: int| 0 <= i < old_children.len() implies old_children[i] != child by {
        assert(m.parent(old_children[i]) == Some(parent));
    }
    assert forall|h: int, i: int| a.has(h) && 0 <= i < a.children(h).len() implies a.has(
        #[trigger] a.children(h)[i],
    ) && a.parent(a.children(h)[i]) == Some(h) by {
        if h == parent {
            if i < at {
                assert(a.children(h)[i] == old_children[i]);
            } else if i > at {
                assert(a.children(h)[i] == old_children[i - 1]);
            }
        } else {
            let c = m.children(h)[i];
            assert(m.parent(c) == Some(h));
        }
    }
    assert forall|h: int, i: int, j: int|
        a.has(h) && 0 <= i < j < a.children(h).len() implies #[trigger] a.children(h)[i]
        != #[trigger] a.children(h)[j] by {
        if h == parent {
            let oi = if i < at {
                i
            } else {
                i - 1
            };
            let oj = if j < at {
                j
            } else {
                j - 1
            };
            if i != at && j != at {
                assert(a.children(h)[i] == old_children[oi]);
                assert(a.children(h)[j] == old_children[oj]);
                assert(old_children[oi] != old_children[oj]);
            } else if i == at {
                assert(a.children(h)[j] == old_children[oj]);
            } else {
                assert(a.children(h)[i] == old_children[oi]);
            }
        } else {
            assert(m.children(h)[i] != m.children(h)[j]);
        }
    }
    assert forall|c: int| a.has(c) && (#[trigger] a.parent(c)) is Some implies a.has(
        a.parent(c)->0,
    ) && a.children(a.parent(c)->0).contains(c) by {
        if c == child {
            assert(a.children(parent)[at] == child);
        } else {
            let p = m.parent(c)->0;
            assert(m.parent(c) is Some);
            assert(m.children(p).contains(c));
            let k = m.children(p).index_of(c);
            if p == parent {
                if k < at {
                    assert(a.children(p)[k] == c);
                } else {
                    assert(a.children(p)[k + 1] == c);
                }
            } else {
                assert(a.children(p)[k] == c);
            }
        }
    }
    assert(a.linked());
    assert forall|c: int| a.has(c) && (#[trigger] a.parent(c)) is Some implies a.rank(
        a.parent(c)->0,
    ) < a.rank(c) by {
        if c == child {
            assert(m.in_subtree(child, child));
        } else {
            let p = m.parent(c)->0;
            assert(m.parent(c) is Some);
            assert(m.rank(p) < m.rank(c));
            assert(m.in_subtree(child, c) == m.in_subtree(child, p));
        }
    }
    assert forall|h: int| a.has(h) implies #[trigger] a.rank(h) < a.limit by {
        assert(m.rank(h) < m.limit);
    }
    assert(a.ranked());
    assert forall|h: int| a.has(h) && (#[trigger] a.data(h)) is Text implies a.children(h).len()
        == 0 by {
        assert(m.data(h) is Text);
    }
    assert forall|h: int| a.has(h) implies a.holds_template_of(#[trigger] a.data(h)) by {
        assert(m.holds_template_of(m.data(h)));
    }
}

/// Taking a node away from its parent keeps the document well formed.
pub proof fn lemma_detach_well_formed(m: DomModel, h: int)
    requires
        m.well_formed(),
        m.has(h),
    ensures
        m.detach(h).well_formed(),
{
    if m.parent(h) is Some {
        let d = m.detach(h);
        let p = m.parent(h)->0;
        let old_children = m.children(p);
        assert(old_children.contains(h));
        let at = old_children.index_of(h);
        old_children.remove_ensures(at);
        assert(p != h) by {
            assert(m.rank(p) < m.rank(h));
        }
        assert(d.nodes.len() == m.nodes.len());
        assert(d.parent(h) is None);
        assert(d.children(p) == old_children.remove(at));
        assert forall|x: int| m.has(x) && x != h implies #[trigger] d.parent(x) == m.parent(x) by {}
        assert forall|x: int| m.has(x) && x != p implies #[trigger] d.children(x) == m.children(
            x,
        ) by {}
        assert forall|x: int| m.has(x) implies #[trigger] d.data(x) == m.data(x) by {}
        assert forall|x: int| m.has(x) implies #[trigger] d.rank(x) == m.rank(x) by {}
        assert forall|i: int| 0 <= i < d.children(p).len() implies #[trigger] d.children(p)[i]
            != h by {
            if i < at {
                assert(d.children(p)[i] == old_children[i]);
                assert(old_children[i] != old_children[at]);
            } else {
                assert(d.children(p)[i] == old_children[i + 1]);
                assert(old_children[at] != old_children[i + 1]);
            }
        }
        assert forall|x: int, i: int| d.has(x) && 0 <= i < d.children(x).len() implies d.has(
            #[trigger] d.children(x)[i],
        ) && d.parent(d.children(x)[i]) == Some(x) by {
            if x == p {
                if i < at {
                    assert(d.children(x)[i] == old_children[i]);
                } else {
                    assert(d.children(x)[i] == old_children[i + 1]);
                }
            } else {
                let c = m.children(x)[i];
                assert(m.parent(c) == Some(x));
            }
        }
        assert forall|x: int, i: int, j: int|
            d.has(x) && 0 <= i < j < d.children(x).len() implies #[trigger] d.children(x)[i]
            != #[trigger] d.children(x)[j] by {
            if x == p {
                let oi = if i < at {
                    i
                } else {
                    i + 1
                };
                let oj = if j < at {
                    j
                } else {
                    j + 1
                };
                assert(d.children(x)[i] == old_children[oi]);
                assert(d.children(x)[j] == old_children[oj]);
                assert(old_children[oi] != old_children[oj]);
            } else {
                assert(m.children(x)[i] != m.children(x)[j]);
            }
        }
        assert forall|c: int| d.has(c) && (#[trigger] d.parent(c)) is Some implies d.has(
            d.parent(c)->0,
        ) && d.children(d.parent(c)->0).contains(c) by {
            let q = m.parent(c)->0;
            assert(m.parent(c) is Some);
            assert(m.children(q).contains(c));
            let k = m.children(q).index_of(c);
            if q == p {
                if k < at {
                    assert(d.children(q)[k] == c);
                } else {
                    assert(k != at);
                    assert(d.children(q)[k - 1] == c);
                }
            } else {
                assert(d.children(q)[k] == c);
            }
        }
        assert(d.linked());
        assert forall|c: int| d.has(c) && (#[trigger] d.parent(c)) is Some implies d.rank(
            d.parent(c)->0,
        ) < d.rank(c) by {
            assert(m.parent(c) is Some);
        }
        assert forall|x: int| d.has(x) implies #[trigger] d.rank(x) < d.limit by {
            assert(m.rank(x) < m.limit);
        }
        assert(d.ranked());
        assert forall|x: int| d.has(x) && (#[trigger] d.data(x)) is Text implies d.children(
            x,
        ).len() == 0 by {
            assert(m.data(x) is Text);
        }
        assert forall|x: int| d.has(x) implies d.holds_template_of(#[trigger] d.data(x)) by {
            assert(m.holds_template_of(m.data(x)));
        }
    }
}

/// In a well-formed document a node is among the children of a node
/// exactly if that node is its parent.
pub proof fn lemma_parent_and_children_agree(m: DomModel, p: int, c: int)
    requires
        m.well_formed(),
        m.has(p),
        m.has(c),
    ensures
        m.children(p).contains(c) <==> m.parent(c) == Some(p),
{
    if m.children(p).contains(c) {
        let i = m.children(p).index_of(c);
        assert(m.children(p)[i] == c);
    }
    if m.parent(c) == Some(p) {
        assert(m.parent(c) is Some);
    }
}

/// In a well-formed document no node is below itself: what is below a
/// node is not above it.
pub proof fn lemma_no_node_is_its_own_ancestor(m: DomModel, top: int, x: int)
    requires
        m.well_formed(),
        m.has(x),
        x != top,
        m.in_subtree(top, x),
    ensures
        !m.in_subtree(x, top),
{
    lemma_in_subtree_rank(m, top, x);
    if m.in_subtree(x, top) {
        lemma_in_subtree_rank(m, x, top);
        lemma_in_subtree_strict(m, top, x);
    }
}

/// What is below a node and is not the node ranks above it.
pub proof fn lemma_in_subtree_strict(m: DomModel, top: int, x: int)
    requires
        x != top,
        m.in_subtree(top, x),
    ensures
        m.rank(top) < m.rank(x),
{
    let p = m.parent(x)->0;
    lemma_in_subtree_rank(m, top, p);
}

/// What is below a node has at least its rank.
pub proof fn lemma_in_subtree_rank(m: DomModel, top: int, x: int)
    requires
        m.in_subtree(top, x),
    ensures
        m.rank(top) <= m.rank(x),
    decreases m.rank(x),
{
    if x != top {
        lemma_in_subtree_rank(m, top, m.parent(x)->0);
    }
}

/// What is below a child is below its parent.
pub proof fn lemma_in_subtree_of_parent(m: DomModel, child: int, x: int)
    requires
        m.well_formed(),
        m.has(child),
        m.parent(child) is Some,
        m.in_subtree(child, x),
    ensures
        m.in_subtree(m.parent(child)->0, x),
    decreases m.rank(x),
{
    let top = m.parent(child)->0;
    if x == child {
        assert(m.rank(top) < m.rank(child));
        assert(m.in_subtree(top, top));
    } else {
        lemma_in_subtree_of_parent(m, child, m.parent(x)->0);
    }
}

/// Moving a node under a new parent changes nothing above the nodes that
/// are not below it.
pub proof fn lemma_move_keeps_ancestors(
    before: DomModel,
    after: DomModel,
    moved: int,
    top: int,
    x: int,
)
    requires
        before.well_formed(),
        after.well_formed(),
        before.nodes.len() == after.nodes.len(),
        forall|y: int| before.has(y) && y != moved ==> #[trigger] after.parent(y) == before.parent(y),
        after.in_subtree(top, x),
        !after.in_subtree(moved, x),
    ensures
        before.in_subtree(top, x),
    decreases after.rank(x),
{
    if x != top {
        let q = after.parent(x)->0;
        assert(after.in_subtree(moved, moved));
        assert(x != moved);
        assert(before.parent(x) == after.parent(x));
        assert(before.rank(q) < before.rank(x));
        lemma_move_keeps_ancestors(before, after, moved, top, q);
    }
}

/// A new node has nothing below it but itself.
pub proof fn lemma_fresh_node_is_alone(m: DomModel, data: DataModel, x: int)
    requires
        m.well_formed(),
        m.has(x),
    ensures
        !m.create(data).in_subtree(m.nodes.len() as int, x),
    decreases m.rank(x),
{
    let c = m.create(data);
    assert(c.parent(x) == m.parent(x));
    assert(c.rank(x) == m.rank(x));
    if c.parent(x) is Some {
        let p = c.parent(x)->0;
        assert(m.parent(x) is Some);
        assert(c.rank(p) == m.rank(p));
        lemma_fresh_node_is_alone(m, data, p);
    }
}

/// A new node keeps the document well formed.
pub proof fn lemma_create_well_formed(m: DomModel, data: DataModel)
    requires
        m.well_formed(),
        m.holds_template_of(data),
    ensures
        m.create(data).well_formed(),
        m.create(data).has(m.nodes.len() as int),
{
    let c = m.create(data);
    let fresh = m.nodes.len() as int;
    assert forall|x: int| m.has(x) implies #[trigger] c.parent(x) == m.parent(x) && c.children(x)
        == m.children(x) && c.data(x) == m.data(x) && c.rank(x) == m.rank(x) by {}
    assert(c.parent(fresh) is None);
    assert(c.children(fresh).len() == 0);
    assert forall|x: int, i: int| c.has(x) && 0 <= i < c.children(x).len() implies c.has(
        #[trigger] c.children(x)[i],
    ) && c.parent(c.children(x)[i]) == Some(x) by {
        let k = m.children(x)[i];
        assert(m.has(k));
    }
    assert forall|x: int, i: int, j: int|
        c.has(x) && 0 <= i < j < c.children(x).len() implies #[trigger] c.children(x)[i]
        != #[trigger] c.children(x)[j] by {
        assert(m.children(x)[i] != m.children(x)[j]);
    }
    assert forall|k: int| c.has(k) && (#[trigger] c.parent(k)) is Some implies c.has(
        c.parent(k)->0,
    ) && c.children(c.parent(k)->0).contains(k) by {
        assert(m.parent(k) is Some);
        let q = m.parent(k)->0;
        assert(m.children(q).contains(k));
    }
    assert forall|k: int| c.has(k) && (#[trigger] c.parent(k)) is Some implies c.rank(
        c.parent(k)->0,
    ) < c.rank(k) by {
        assert(m.parent(k) is Some);
    }
    assert forall|x: int| c.has(x) implies #[trigger] c.rank(x) < c.limit by {
        if x != fresh {
            assert(m.rank(x) < m.limit);
        }
    }
    assert forall|x: int| c.has(x) && (#[trigger] c.data(x)) is Text implies c.children(x).len()
        == 0 by {
        if x != fresh {
            assert(m.data(x) is Text);
        }
    }
    assert forall|x: int| c.has(x) implies c.holds_template_of(#[trigger] c.data(x)) by {
        if x != fresh {
            assert(m.holds_template_of(m.data(x)));
        }
    }
}

/// New data of the same kind for a node keep the document well formed.
pub proof fn lemma_with_data_well_formed(m: DomModel, h: int, data: DataModel)
    requires
        m.well_formed(),
        m.has(h),
        m.holds_template_of(data),
        data is Text ==> m.children(h).len() == 0,
        h == m.document ==> data is Document,
        data is Document ==> m.parent(h) is None,
    ensures
        m.with_data(h, data).well_formed(),
{
    let w = m.with_data(h, data);
    assert forall|x: int| m.has(x) implies #[trigger] w.parent(x) == m.parent(x) && w.children(x)
        == m.children(x) && w.rank(x) == m.rank(x) by {}
    assert forall|x: int| m.has(x) && x != h implies #[trigger] w.data(x) == m.data(x) by {}
    assert forall|x: int, i: int| w.has(x) && 0 <= i < w.children(x).len() implies w.has(
        #[trigger] w.children(x)[i],
    ) && w.parent(w.children(x)[i]) == Some(x) by {
        let k = m.children(x)[i];
        assert(m.has(k));
    }
    assert forall|x: int, i: int, j: int|
        w.has(x) && 0 <= i < j < w.children(x).len() implies #[trigger] w.children(x)[i]
        != #[trigger] w.children(x)[j] by {
        assert(m.children(x)[i] != m.children(x)[j]);
    }
    assert forall|k: int| w.has(k) && (#[trigger] w.parent(k)) is Some implies w.has(
        w.parent(k)->0,
    ) && w.children(w.parent(k)->0).contains(k) by {
        assert(m.parent(k) is Some);
    }
    assert forall|k: int| w.has(k) && (#[trigger] w.parent(k)) is Some implies w.rank(
        w.parent(k)->0,
    ) < w.rank(k) by {
        assert(m.parent(k) is Some);
    }
    assert forall|x: int| w.has(x) implies #[trigger] w.rank(x) < w.limit by {
        assert(m.rank(x) < m.limit);
    }
    assert forall|x: int| w.has(x) && (#[trigger] w.data(x)) is Text implies w.children(x).len()
        == 0 by {
        if x != h {
            assert(m.data(x) is Text);
        }
    }
    assert forall|x: int| w.has(x) implies w.holds_template_of(#[trigger] w.data(x)) by {
        if x != h {
            assert(m.holds_template_of(m.data(x)));
        }
    }
}

} // verus!
