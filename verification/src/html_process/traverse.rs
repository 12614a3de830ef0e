use crate::html_process::dom::{Handle, RcDom};
use crate::html_process::model::DomModel;
use vstd::prelude::*;

verus! {

/// The handles of a list, as mathematical values.
pub open spec fn handles_model(handles: Seq<Handle>) -> Seq<int> {
    handles.map_values(|h: Handle| h as int)
}

impl DomModel {
    /// The nodes below `h` from its child at position `i` on, in document
    /// order: each child is followed by what is below it.
    pub open spec fn descendants_from(self, h: int, i: int) -> Seq<int>
        decreases self.limit - self.rank(h), self.children(h).len() - i,
    {
        if i < 0 || i >= self.children(h).len() {
            Seq::empty()
        } else {
            let child = self.children(h)[i];
            let below = if self.rank(h) < self.rank(child) < self.limit {
                self.descendants_from(child, 0)
            } else {
                Seq::empty()
            };
            seq![child] + below + self.descendants_from(h, i + 1)
        }
    }

    /// The nodes below `h`, in document order.
    pub open spec fn descendants(self, h: int) -> Seq<int> {
        self.descendants_from(h, 0)
    }

    /// The nodes that a walk with the given stack of nodes has yet to
    /// meet: the node on top of the stack and what is below it come first.
    pub open spec fn pending(self, stack: Seq<int>) -> Seq<int>
        decreases stack.len(),
    {
        if stack.len() == 0 {
            Seq::empty()
        } else {
            seq![stack.last()] + self.descendants(stack.last()) + self.pending(stack.drop_last())
        }
    }
}

/// The stack after the nodes of `list` from position `i` on have been
/// pushed, the last of them first.
pub open spec fn pushed(stack: Seq<int>, list: Seq<int>, i: int) -> Seq<int>
    decreases list.len() - i,
{
    if i < 0 || i >= list.len() {
        stack
    } else {
        pushed(stack, list, i + 1).push(list[i])
    }
}

/// A walk that pushes the children of a node, the last of them first,
/// meets them and what is below them in document order.
pub proof fn lemma_pending_pushed(m: DomModel, stack: Seq<int>, h: int, i: int)
    requires
        m.well_formed(),
        m.has(h),
        0 <= i <= m.children(h).len(),
    ensures
        m.pending(pushed(stack, m.children(h), i)) == m.descendants_from(h, i) + m.pending(stack),
    decreases m.children(h).len() - i,
{
    let list = m.children(h);
    if i >= list.len() {
        assert(m.descendants_from(h, i) + m.pending(stack) =~= m.pending(stack));
    } else {
        let child = list[i];
        let lower = pushed(stack, list, i + 1);
        lemma_pending_pushed(m, stack, h, i + 1);
        assert(m.has(child));
        assert(m.parent(child) == Some(h));
        assert(m.rank(h) < m.rank(child));
        assert(m.rank(child) < m.limit);
        assert(lower.push(child).last() == child);
        assert(lower.push(child).drop_last() =~= lower);
        assert(m.pending(lower.push(child)) =~= seq![child] + m.descendants(child) + (
        m.descendants_from(h, i + 1) + m.pending(stack)));
        assert(m.descendants_from(h, i) =~= seq![child] + m.descendants(child)
            + m.descendants_from(h, i + 1));
    }
}

/// Every node below a node of the document is a node of the document.
pub proof fn lemma_descendants_exist(m: DomModel, h: int, i: int)
    requires
        m.well_formed(),
        m.has(h),
    ensures
        forall|k: int|
            0 <= k < m.descendants_from(h, i).len() ==> m.has(#[trigger] m.descendants_from(h, i)[k]),
    decreases m.limit - m.rank(h), m.children(h).len() - i,
{
    if 0 <= i < m.children(h).len() {
        let child = m.children(h)[i];
        assert(m.has(child));
        assert(m.parent(child) == Some(h));
        assert(m.rank(h) < m.rank(child));
        assert(m.rank(child) < m.limit);
        lemma_descendants_exist(m, child, 0);
        lemma_descendants_exist(m, h, i + 1);
        let below = m.descendants_from(child, 0);
        let rest = m.descendants_from(h, i + 1);
        let all = m.descendants_from(h, i);
        assert(all =~= seq![child] + below + rest);
        assert forall|k: int| 0 <= k < all.len() implies m.has(#[trigger] all[k]) by {
            if k == 0 {
            } else if k <= below.len() {
                assert(all[k] == below[k - 1]);
            } else {
                assert(all[k] == rest[k - 1 - below.len()]);
            }
        }
    }
}

/// Every node below `h` has a parent, which is `h` or ranks above it.
pub proof fn lemma_descendants_below(m: DomModel, h: int, i: int)
    requires
        m.well_formed(),
        m.has(h),
    ensures
        forall|k: int|
            0 <= k < m.descendants_from(h, i).len() ==> {
                let x = #[trigger] m.descendants_from(h, i)[k];
                m.parent(x) is Some && m.rank(h) <= m.rank(m.parent(x)->0)
            },
    decreases m.limit - m.rank(h), m.children(h).len() - i,
{
    if 0 <= i < m.children(h).len() {
        let child = m.children(h)[i];
        assert(m.has(child));
        assert(m.parent(child) == Some(h));
        assert(m.rank(h) < m.rank(child));
        assert(m.rank(child) < m.limit);
        lemma_descendants_below(m, child, 0);
        lemma_descendants_below(m, h, i + 1);
        let below = m.descendants_from(child, 0);
        let rest = m.descendants_from(h, i + 1);
        let all = m.descendants_from(h, i);
        assert(all =~= seq![child] + below + rest);
        assert forall|k: int| 0 <= k < all.len() implies {
            let x = #[trigger] all[k];
            m.parent(x) is Some && m.rank(h) <= m.rank(m.parent(x)->0)
        } by {
            if k == 0 {
            } else if k <= below.len() {
                assert(all[k] == below[k - 1]);
            } else {
                assert(all[k] == rest[k - 1 - below.len()]);
            }
        }
    }
}

impl RcDom {
    /// The nodes below `root`, in document order.
    pub fn descendants(&self, root: Handle) -> (nodes: Vec<Handle>)
        requires
            self@.well_formed(),
            self@.has(root as int),
        ensures
            handles_model(nodes@) == self@.descendants(root as int),
            forall|k: int| 0 <= k < nodes@.len() ==> self@.has(#[trigger] nodes@[k] as int),
    {
        let ghost total = self@.descendants(root as int);
        let mut nodes: Vec<Handle> = Vec::new();
        let mut stack: Vec<Handle> = Vec::new();
        self.push_children(&mut stack, root);
        proof {
            lemma_pending_pushed(self@, Seq::empty(), root as int, 0);
            assert(handles_model(nodes@) =~= Seq::<int>::empty());
            assert(self@.pending(Seq::empty()) =~= Seq::<int>::empty());
        }
        while stack.len() > 0
            invariant
                self@.well_formed(),
                total == self@.descendants(root as int),
                handles_model(nodes@) + self@.pending(handles_model(stack@)) == total,
                forall|k: int| 0 <= k < stack@.len() ==> self@.has(#[trigger] stack@[k] as int),
                forall|k: int| 0 <= k < nodes@.len() ==> self@.has(#[trigger] nodes@[k] as int),
            decreases total.len() - nodes@.len(),
        {
            let ghost met = handles_model(nodes@);
            let ghost waiting = handles_model(stack@);
            let top = stack.pop().unwrap();
            proof {
                assert(waiting.last() == top);
                assert(handles_model(stack@) =~= waiting.drop_last());
                assert(self@.pending(waiting).len() > 0);
            }
            nodes.push(top);
            let ghost lower = handles_model(stack@);
            self.push_children(&mut stack, top);
            proof {
                lemma_pending_pushed(self@, lower, top as int, 0);
                assert(handles_model(nodes@) =~= met.push(top as int));
                assert(met + (seq![top as int] + self@.descendants(top as int) + self@.pending(
                    lower,
                )) =~= met.push(top as int) + (self@.descendants_from(top as int, 0)
                    + self@.pending(lower)));
            }
        }
        proof {
            assert(handles_model(stack@) =~= Seq::<int>::empty());
            assert(handles_model(nodes@) + Seq::<int>::empty() =~= handles_model(nodes@));
        }
        nodes
    }

    /// Pushes the children of `h` on the stack, the last of them first, so
    /// that the first of them is met first.
    fn push_children(&self, stack: &mut Vec<Handle>, h: Handle)
        requires
            self@.well_formed(),
            self@.has(h as int),
            forall|k: int| 0 <= k < old(stack)@.len() ==> self@.has(#[trigger] old(stack)@[k] as int),
        ensures
            handles_model(final(stack)@) == pushed(
                handles_model(old(stack)@),
                self@.children(h as int),
                0,
            ),
            forall|k: int|
                0 <= k < final(stack)@.len() ==> self@.has(#[trigger] final(stack)@[k] as int),
    {
        let ghost base = handles_model(stack@);
        let children = self.children(h);
        let ghost list = self@.children(h as int);
        let mut j: usize = children.len();
        proof {
            assert(children@.len() == list.len());
        }
        while j > 0
            invariant
                self@.well_formed(),
                self@.has(h as int),
                list == self@.children(h as int),
                children@.map_values(|child: Handle| child as int) == list,
                j <= children.len(),
                handles_model(stack@) == pushed(base, list, j as int),
                forall|k: int| 0 <= k < stack@.len() ==> self@.has(#[trigger] stack@[k] as int),
            decreases j,
        {
            j -= 1;
            let ghost so_far = handles_model(stack@);
            proof {
                assert(list[j as int] == children@[j as int] as int);
                assert(self@.has(list[j as int]));
            }
            stack.push(children[j]);
            proof {
                assert(handles_model(stack@) =~= so_far.push(children@[j as int] as int));
            }
        }
    }
}

} // verus!
