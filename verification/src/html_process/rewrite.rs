use crate::html_process::dom::{
    attributes_model, Attribute, AttributeModel, DataModel, Handle, NodeData, NodeOrText,
    QualName, RcDom,
};
use crate::html_process::model::{
    lemma_fresh_node_is_alone, lemma_in_subtree_rank, lemma_move_keeps_ancestors, AppendModel,
    DomModel,
};
use crate::html_process::rules::{
    decorated_link, heading_anchor, is_element_named, plain_name, BuilderModel,
};
use crate::html_process::search::{
    highlighted, pieces_from, pieces_model, search_pieces, term_matches, Piece, PieceModel,
};
use crate::html_process::traverse::handles_model;
use crate::html_process::{heading_anchor_attributes, Builder};
use vstd::prelude::*;

verus! {

/// An element without prefix or namespace, with the given attributes.
pub open spec fn plain_element(local: Seq<char>, attrs: Seq<AttributeModel>) -> DataModel {
    DataModel::Element {
        name: plain_name(local),
        attrs,
        template_contents: None,
        mathml_annotation_xml_integration_point: false,
    }
}

/// The attributes of a mark: the first one of a document is named, so that
/// a reader can be led to it.
pub open spec fn mark_attributes(first: bool) -> Seq<AttributeModel> {
    if first {
        seq![crate::html_process::rules::plain_attribute("id"@, "search-match"@)]
    } else {
        Seq::empty()
    }
}

/// Whether `after` holds every node of `before`, each with the parent and
/// the data it had.
pub open spec fn keeps_parents(before: DomModel, after: DomModel) -> bool {
    &&& before.nodes.len() <= after.nodes.len()
    &&& before.document == after.document
    &&& forall|y: int| before.has(y) ==> #[trigger] after.parent(y) == before.parent(y)
    &&& forall|y: int| before.has(y) ==> #[trigger] after.data(y) == before.data(y)
}

/// Whether `after` has the root of `before` with the children that it had,
/// and has put no node of `before` under the root.
pub open spec fn keeps_root(before: DomModel, after: DomModel) -> bool {
    &&& before.nodes.len() <= after.nodes.len()
    &&& after.document == before.document
    &&& after.children(after.document) == before.children(before.document)
    &&& forall|y: int|
        before.has(y) && before.parent(y) != Some(before.document) ==> #[trigger] after.parent(y)
            != Some(before.document)
}

/// A node that came later is not above a node that was there before.
pub proof fn lemma_new_node_not_above(before: DomModel, after: DomModel, top: int, x: int)
    requires
        before.well_formed(),
        after.well_formed(),
        keeps_parents(before, after),
        before.has(x),
        !before.has(top),
    ensures
        !after.in_subtree(top, x),
    decreases after.rank(x),
{
    if after.parent(x) is Some {
        let p = after.parent(x)->0;
        assert(before.parent(x) is Some);
        assert(before.has(p));
        assert(after.rank(p) < after.rank(x));
        lemma_new_node_not_above(before, after, top, p);
    }
}

impl DomModel {
    /// The document with the link `h` decorated. A node that is no `a`
    /// element is left as it is.
    pub open spec fn with_link_decorated(self, h: int, options: BuilderModel) -> DomModel {
        if is_element_named(self.data(h), "a"@) {
            self.with_attributes(h, decorated_link(self.attributes(h), options))
        } else {
            self
        }
    }

    /// The document with an anchor added to the heading `h`: after the
    /// children that the heading has, a space and a link to the heading
    /// itself, which shows `#`. A node that is no `h2` element with an `id`
    /// is left as it is.
    pub open spec fn with_heading_anchor(self, h: int) -> DomModel {
        if is_element_named(self.data(h), "h2"@) {
            match heading_anchor(self.attributes(h)) {
                Some(attrs) => {
                    let text = self.nodes.len() as int;
                    let anchor = text + 1;
                    let space = text + 2;
                    self.create(DataModel::Text { contents: "#"@ }).create(
                        plain_element("a"@, attrs),
                    ).append_node(anchor, text).create(
                        DataModel::Text { contents: " "@ },
                    ).append_node(h, space).append_node(h, anchor)
                },
                None => self,
            }
        } else {
            self
        }
    }

    /// The document with the nodes of one piece added: a text node for
    /// text, a `mark` element around a text node for a match.
    pub open spec fn with_piece(self, piece: PieceModel) -> DomModel {
        match piece {
            PieceModel::Text(text) => self.create(DataModel::Text { contents: text }),
            PieceModel::Mark { text, first } => {
                let inner = self.nodes.len() as int;
                self.create(DataModel::Text { contents: text }).create(
                    plain_element("mark"@, mark_attributes(first)),
                ).append_node(inner + 1, inner)
            },
        }
    }

    /// The handle of the node that stands for `piece` in `with_piece`.
    pub open spec fn piece_handle(self, piece: PieceModel) -> int {
        match piece {
            PieceModel::Text(_) => self.nodes.len() as int,
            PieceModel::Mark { .. } => self.nodes.len() as int + 1,
        }
    }

    /// The document with the nodes of all the pieces added.
    pub open spec fn with_pieces(self, pieces: Seq<PieceModel>) -> DomModel
        decreases pieces.len(),
    {
        if pieces.len() == 0 {
            self
        } else {
            self.with_piece(pieces[0]).with_pieces(pieces.drop_first())
        }
    }

    /// The handles of the nodes that stand for the pieces in `with_pieces`.
    pub open spec fn piece_handles(self, pieces: Seq<PieceModel>) -> Seq<int>
        decreases pieces.len(),
    {
        if pieces.len() == 0 {
            Seq::empty()
        } else {
            seq![self.piece_handle(pieces[0])] + self.with_piece(pieces[0]).piece_handles(
                pieces.drop_first(),
            )
        }
    }

    /// The document with `nodes` put in the place of node `h`: each of
    /// them before `h`, in their order, and `h` then taken away.
    pub open spec fn spliced(self, h: int, nodes: Seq<int>) -> DomModel
        decreases nodes.len(),
    {
        if nodes.len() == 0 {
            self.detach(h)
        } else {
            self.append_before_sibling(h, AppendModel::AppendNode(nodes[0])).spliced(
                h,
                nodes.drop_first(),
            )
        }
    }

    /// The pieces that take the place of the text node `h`: those that the
    /// matches of the search phrase cut its text into. There are none
    /// where nothing is searched for, where `h` is no text node, or where
    /// its text holds no match.
    pub open spec fn replacement_pieces(self, h: int, options: BuilderModel, matched: bool) -> Option<
        Seq<PieceModel>,
    > {
        match (options.search_term, self.data(h)) {
            (Some(phrase), DataModel::Text { contents }) => highlighted(
                contents,
                term_matches(phrase, contents),
                matched,
            ),
            _ => None,
        }
    }

    /// The document after the rules have been applied to each of
    /// `targets` in turn, with the word whether a match has been marked
    /// by then.
    pub open spec fn rewritten_each(
        self,
        targets: Seq<int>,
        options: BuilderModel,
        matched: bool,
    ) -> (DomModel, bool)
        decreases targets.len(),
    {
        if targets.len() == 0 {
            (self, matched)
        } else {
            let (next, matched) = self.rewritten(targets[0], options, matched);
            next.rewritten_each(targets.drop_first(), options, matched)
        }
    }

    /// The fragment of the document: the first child of the root.
    pub open spec fn fragment(self) -> int {
        self.children(self.document)[0]
    }

    /// The document after its fragment has been rewritten: the rules have
    /// been applied to every node that was below the fragment, in
    /// document order. Nodes that the rules add are left as they are.
    pub open spec fn processed(self, options: BuilderModel) -> DomModel {
        self.rewritten_each(self.descendants(self.fragment()), options, false).0
    }

    /// The document after the rules have been applied to node `h`, with
    /// the word whether a match has been marked by then.
    ///
    /// A link is decorated and a heading gets its anchor. A text that holds
    /// a match of the search gets its pieces made, and where it has a
    /// parent, the pieces take its place among the children of the parent:
    /// the text node leaves the tree and gives up its text.
    pub open spec fn rewritten(self, h: int, options: BuilderModel, matched: bool) -> (
        DomModel,
        bool,
    ) {
        let adjusted = self.with_link_decorated(h, options).with_heading_anchor(h);
        match adjusted.replacement_pieces(h, options, matched) {
            Some(pieces) => if adjusted.parent(h) is Some {
                (
                    adjusted.with_pieces(pieces).spliced(h, adjusted.piece_handles(pieces)).released(
                        h,
                    ),
                    true,
                )
            } else {
                (adjusted.with_pieces(pieces), true)
            },
            None => (adjusted, matched),
        }
    }
}

impl<'a> Builder<'a> {
    /// Whether the rules apply to `child`. They apply to every node.
    pub fn process_child(&self, dom: &RcDom, child: Handle) -> (applies: bool)
        ensures
            applies,
    {
        true
    }

    /// Decorates `child` where it is a link.
    pub fn adjust_node_attributes(&self, dom: &mut RcDom, child: Handle)
        requires
            old(dom)@.well_formed(),
            old(dom)@.has(child as int),
        ensures
            final(dom)@ == old(dom)@.with_link_decorated(child as int, self@),
            final(dom)@.well_formed(),
            keeps_root(old(dom)@, final(dom)@),
    {
        let decorated = match dom.data(child) {
            NodeData::Element { name, attrs, .. } => {
                if *name.local.as_str() == *"a" {
                    Some(self.decorate_link(attrs))
                } else {
                    None
                }
            },
            _ => None,
        };
        if let Some(attrs) = decorated {
            dom.set_attributes(child, attrs);
        }
    }

    /// Gives `child` an anchor where it is an `h2` element with an `id`.
    pub fn adjust_node_children(&self, dom: &mut RcDom, child: Handle)
        requires
            old(dom)@.well_formed(),
            old(dom)@.has(child as int),
        ensures
            final(dom)@ == old(dom)@.with_heading_anchor(child as int),
            final(dom)@.well_formed(),
            keeps_parents(old(dom)@, final(dom)@),
            keeps_root(old(dom)@, final(dom)@),
    {
        let ghost before = dom@;
        let anchor_attrs = match dom.data(child) {
            NodeData::Element { name, attrs, .. } => {
                if *name.local.as_str() == *"h2" {
                    heading_anchor_attributes(attrs)
                } else {
                    None
                }
            },
            _ => None,
        };
        if let Some(attrs) = anchor_attrs {
            proof {
                reveal_strlit("");
                assert(""@ =~= Seq::<char>::empty());
            }
            let text = dom.create_text("#".to_owned());
            let anchor = dom.create(
                NodeData::Element {
                    name: QualName::new(None, "", "a"),
                    attrs,
                    template_contents: None,
                    mathml_annotation_xml_integration_point: false,
                },
            );
            proof {
                assert(keeps_parents(before, dom@));
                assert(!dom@.in_subtree(text as int, anchor as int));
                assert(child != before.document);
                assert(dom@.children(before.document) == before.children(before.document));
            }
            dom.append_node(anchor, text);
            proof {
                assert(keeps_parents(before, dom@));
                assert(dom@.children(before.document) == before.children(before.document));
            }
            let ghost grown = dom@;
            let space = dom.create_text(" ".to_owned());
            proof {
                assert(keeps_parents(before, dom@));
                assert(dom@.children(before.document) == before.children(before.document));
                lemma_fresh_node_is_alone(grown, DataModel::Text { contents: " "@ }, child as int);
                assert(dom@.data(child as int) == before.data(child as int));
            }
            dom.append_node(child, space);
            proof {
                assert(keeps_parents(before, dom@));
                assert(dom@.children(before.document) == before.children(before.document));
                lemma_new_node_not_above(before, dom@, anchor as int, child as int);
                assert(dom@.data(child as int) == before.data(child as int));
                assert(dom@.parent(anchor as int) is None);
            }
            dom.append_node(child, anchor);
            proof {
                assert(keeps_parents(before, dom@));
                assert(dom@.children(before.document) == before.children(before.document));
            }
        }
    }

    /// Adds the nodes that stand for `piece`, and returns the handle of
    /// the topmost of them.
    fn create_piece(dom: &mut RcDom, piece: &Piece) -> (handle: Handle)
        requires
            old(dom)@.well_formed(),
        ensures
            final(dom)@ == old(dom)@.with_piece(piece@),
            handle == old(dom)@.piece_handle(piece@),
            final(dom)@.well_formed(),
            keeps_parents(old(dom)@, final(dom)@),
            keeps_root(old(dom)@, final(dom)@),
            final(dom)@.has(handle as int),
            !old(dom)@.has(handle as int),
            final(dom)@.parent(handle as int) is None,
            !(final(dom)@.data(handle as int) is Document),
            final(dom)@.nodes.len() == handle + 1,
    {
        let ghost before = dom@;
        match piece {
            Piece::Text(text) => dom.create_text(text.clone()),
            Piece::Mark { text, first } => {
                proof {
                    reveal_strlit("");
                    assert(""@ =~= Seq::<char>::empty());
                }
                let inner = dom.create_text(text.clone());
                let mut attrs: Vec<Attribute> = Vec::new();
                if *first {
                    attrs.push(
                        crate::html_process::rules::new_plain_attribute(
                            "id",
                            "search-match".to_owned(),
                        ),
                    );
                }
                proof {
                    assert(attributes_model(attrs@) =~= mark_attributes(*first));
                }
                let mark = dom.create(
                    NodeData::Element {
                        name: QualName::new(None, "", "mark"),
                        attrs,
                        template_contents: None,
                        mathml_annotation_xml_integration_point: false,
                    },
                );
                proof {
                    assert(!dom@.in_subtree(inner as int, mark as int));
                }
                dom.append_node(mark, inner);
                mark
            },
        }
    }

    /// Looks for the terms of the search phrase in the text of `child` and
    /// adds the nodes that are to take its place: text nodes for what
    /// stands between the matches, and a `mark` element for each match.
    ///
    /// Returns the handles of those nodes in their order, or nothing where
    /// `child` is to stay: where nothing is searched for, where `child` is
    /// no text node, and where its text holds no match. The nodes have no
    /// parent yet, and `child` is left where and as it is.
    pub fn replacement_node(&self, dom: &mut RcDom, child: Handle, already_matched: &mut bool) -> (nodes:
        Option<Vec<Handle>>)
        requires
            old(dom)@.well_formed(),
            old(dom)@.has(child as int),
        ensures
            match old(dom)@.replacement_pieces(child as int, self@, *old(already_matched)) {
                Some(pieces) => {
                    &&& nodes is Some
                    &&& handles_model(nodes->0@) == old(dom)@.piece_handles(pieces)
                    &&& final(dom)@ == old(dom)@.with_pieces(pieces)
                    &&& *final(already_matched)
                },
                None => {
                    &&& nodes is None
                    &&& final(dom)@ == old(dom)@
                    &&& *final(already_matched) == *old(already_matched)
                },
            },
            final(dom)@.well_formed(),
            keeps_parents(old(dom)@, final(dom)@),
            keeps_root(old(dom)@, final(dom)@),
            nodes is Some ==> new_roots(old(dom)@, final(dom)@, handles_model(nodes->0@)),
    {
        let ghost before = dom@;
        let phrase = match self.search_term {
            Some(phrase) => phrase,
            None => {
                return None;
            },
        };
        let text = match dom.data(child) {
            NodeData::Text { contents } => contents.clone(),
            _ => {
                return None;
            },
        };
        let pieces = match search_pieces(phrase, text.as_str(), already_matched) {
            Some(pieces) => pieces,
            None => {
                return None;
            },
        };
        let ghost model = pieces_model(pieces@);
        let mut nodes: Vec<Handle> = Vec::new();
        let mut i: usize = 0;
        proof {
            assert(model.skip(0) =~= model);
            assert(handles_model(nodes@) =~= Seq::<int>::empty());
        }
        while i < pieces.len()
            invariant
                i <= pieces.len(),
                model == pieces_model(pieces@),
                dom@.well_formed(),
                before.well_formed(),
                keeps_parents(before, dom@),
                keeps_root(before, dom@),
                dom@.with_pieces(model.skip(i as int)) == before.with_pieces(model),
                handles_model(nodes@) + dom@.piece_handles(model.skip(i as int))
                    == before.piece_handles(model),
                new_roots(before, dom@, handles_model(nodes@)),
                forall|j: int| 0 <= j < nodes@.len() ==> (#[trigger] nodes@[j]) < dom@.nodes.len(),
            decreases pieces.len() - i,
        {
            let ghost so_far = handles_model(nodes@);
            let ghost current = dom@;
            proof {
                assert(model.skip(i as int)[0] == pieces@[i as int]@);
                assert(model.skip(i as int).drop_first() =~= model.skip(i + 1));
            }
            let handle = Self::create_piece(dom, &pieces[i]);
            nodes.push(handle);
            proof {
                let grown = dom@;
                assert(handles_model(nodes@) =~= so_far.push(handle as int));
                assert(so_far + (seq![handle as int] + grown.piece_handles(model.skip(i + 1)))
                    =~= so_far.push(handle as int) + grown.piece_handles(model.skip(i + 1)));
                assert forall|j: int| 0 <= j < so_far.len() implies grown.parent(
                    #[trigger] so_far[j],
                ) is None && !(grown.data(so_far[j]) is Document) by {
                    assert(so_far[j] == nodes@[j] as int);
                    assert(current.has(so_far[j]));
                    assert(current.parent(so_far[j]) is None);
                    assert(grown.data(so_far[j]) == current.data(so_far[j]));
                }
                assert forall|j: int, k: int|
                    0 <= j < k < handles_model(nodes@).len() implies #[trigger] handles_model(
                    nodes@,
                )[j] != #[trigger] handles_model(nodes@)[k] by {
                    if k == so_far.len() {
                        assert(so_far[j] == nodes@[j] as int);
                        assert(current.has(so_far[j]));
                    } else {
                        assert(so_far[j] != so_far[k]);
                    }
                }
            }
            i += 1;
        }
        Some(nodes)
    }

    /// Puts `nodes` in the place of node `h`.
    pub fn splice(dom: &mut RcDom, h: Handle, nodes: &Vec<Handle>)
        requires
            old(dom)@.well_formed(),
            old(dom)@.has(h as int),
            old(dom)@.parent(h as int) is Some,
            insertable(old(dom)@, old(dom)@.parent(h as int)->0, handles_model(nodes@)),
        ensures
            final(dom)@ == old(dom)@.spliced(h as int, handles_model(nodes@)),
            final(dom)@.well_formed(),
            final(dom)@.nodes.len() == old(dom)@.nodes.len(),
            old(dom)@.parent(h as int) != Some(old(dom)@.document) ==> keeps_root(
                old(dom)@,
                final(dom)@,
            ),
    {
        let ghost before = dom@;
        let ghost model = handles_model(nodes@);
        let ghost parent = before.parent(h as int)->0;
        let mut i: usize = 0;
        proof {
            assert(model.skip(0) =~= model);
        }
        while i < nodes.len()
            invariant
                i <= nodes.len(),
                model == handles_model(nodes@),
                dom@.well_formed(),
                dom@.has(h as int),
                dom@.nodes.len() == before.nodes.len(),
                dom@.parent(h as int) == Some(parent),
                parent != before.document ==> keeps_root(before, dom@),
                insertable(dom@, parent, model.skip(i as int)),
                dom@.spliced(h as int, model.skip(i as int)) == before.spliced(h as int, model),
            decreases nodes.len() - i,
        {
            let ghost current = dom@;
            let ghost rest = model.skip(i as int);
            let node = nodes[i];
            proof {
                assert(rest[0] == node);
                assert(rest.drop_first() =~= model.skip(i + 1));
            }
            dom.append_before_sibling(h, NodeOrText::AppendNode(node));
            proof {
                let after = dom@;
                assert(current.detach(node as int) == current);
                assert(after.parent(node as int) == Some(parent));
                assert(node != h);
                assert forall|y: int| current.has(y) && y != node implies #[trigger] after.parent(y)
                    == current.parent(y) by {}
                assert forall|y: int| current.has(y) && y != parent implies #[trigger] after.children(
                    y,
                ) == current.children(y) by {}
                let later = model.skip(i + 1);
                assert forall|j: int| 0 <= j < later.len() implies {
                    &&& after.has(#[trigger] later[j])
                    &&& !(after.data(later[j]) is Document)
                    &&& after.parent(later[j]) is None
                    &&& !after.in_subtree(later[j], parent)
                } by {
                    assert(later[j] == rest[j + 1]);
                    assert(rest[0] != rest[j + 1]);
                    if after.in_subtree(later[j], parent) {
                        if after.in_subtree(node as int, parent) {
                            lemma_in_subtree_rank(after, node as int, parent);
                            assert(after.rank(parent) < after.rank(node as int));
                        }
                        lemma_move_keeps_ancestors(current, after, node as int, later[j], parent);
                    }
                }
                assert forall|j: int, k: int| 0 <= j < k < later.len() implies #[trigger] later[j]
                    != #[trigger] later[k] by {
                    assert(later[j] == rest[j + 1]);
                    assert(later[k] == rest[k + 1]);
                }
            }
            i += 1;
        }
        dom.remove_from_parent(h);
    }

    /// Applies the rules to node `h`: decorates it where it is a link,
    /// gives it an anchor where it is a heading, and puts marked pieces in
    /// its place where it is a text that holds a match of the search. A
    /// text that is replaced gives up what it held at once.
    pub fn rewrite_node(&self, dom: &mut RcDom, h: Handle, already_matched: &mut bool)
        requires
            old(dom)@.well_formed(),
            old(dom)@.has(h as int),
        ensures
            (final(dom)@, *final(already_matched)) == old(dom)@.rewritten(
                h as int,
                self@,
                *old(already_matched),
            ),
            final(dom)@.well_formed(),
            old(dom)@.nodes.len() <= final(dom)@.nodes.len(),
            old(dom)@.parent(h as int) != Some(old(dom)@.document) ==> keeps_root(
                old(dom)@,
                final(dom)@,
            ),
    {
        let ghost before = dom@;
        if self.process_child(dom, h) {
            self.adjust_node_attributes(dom, h);
            let ghost decorated = dom@;
            self.adjust_node_children(dom, h);
            let ghost adjusted = dom@;
            proof {
                assert(keeps_root(before, adjusted)) by {
                    assert forall|y: int|
                        before.has(y) && before.parent(y) != Some(
                            before.document,
                        ) implies #[trigger] adjusted.parent(y) != Some(before.document) by {
                        assert(decorated.parent(y) != Some(before.document));
                    }
                }
            }
            let replacement = self.replacement_node(dom, h, already_matched);
            let has_parent = dom.parent(h).is_some();
            proof {
                assert(dom@.parent(h as int) == adjusted.parent(h as int));
            }
            if let Some(nodes) = replacement {
                if has_parent {
                    proof {
                        let grown = dom@;
                        let parent = adjusted.parent(h as int)->0;
                        let model = handles_model(nodes@);
                        assert(adjusted.parent(h as int) is Some);
                        assert(adjusted.has(parent));
                        assert forall|j: int| 0 <= j < model.len() implies !grown.in_subtree(
                            #[trigger] model[j],
                            parent,
                        ) by {
                            lemma_new_node_not_above(adjusted, grown, model[j], parent);
                        }
                    }
                    let ghost grown = dom@;
                    Self::splice(dom, h, &nodes);
                    let ghost replaced = dom@;
                    dom.release(h);
                    proof {
                        let spliced = dom@;
                        assert forall|y: int| replaced.has(y) implies #[trigger] spliced.parent(y)
                            == replaced.parent(y) && spliced.children(y) == replaced.children(y) by {}
                        assert(spliced.nodes.len() == replaced.nodes.len());
                        if before.parent(h as int) != Some(before.document) {
                            assert(adjusted.parent(h as int) != Some(before.document));
                            assert(grown.parent(h as int) == adjusted.parent(h as int));
                            assert(keeps_root(before, spliced)) by {
                                assert forall|y: int|
                                    before.has(y) && before.parent(y) != Some(
                                        before.document,
                                    ) implies #[trigger] spliced.parent(y) != Some(before.document) by {
                                    assert(adjusted.parent(y) != Some(before.document));
                                    assert(grown.parent(y) != Some(before.document));
                                    assert(replaced.parent(y) != Some(before.document));
                                }
                            }
                        }
                    }
                }
            }
        }
    }
}

/// A document whose fragment has been rewritten.
pub struct Document(pub RcDom);

impl View for Document {
    type V = DomModel;

    open spec fn view(&self) -> DomModel {
        self.0@
    }
}

impl<'a> Builder<'a> {
    /// Rewrites the fragment of `dom`: applies the rules to every node
    /// below the first child of the root, in document order.
    pub fn process_dom(&self, dom: RcDom) -> (document: Document)
        requires
            dom@.well_formed(),
            dom@.children(dom@.document).len() > 0,
        ensures
            document@ == dom@.processed(self@),
            document@.well_formed(),
            document@.document == dom@.document,
            document@.children(document@.document) == dom@.children(dom@.document),
    {
        let mut dom = dom;
        let ghost before = dom@;
        let root = dom.get_document();
        let body = dom.children(root)[0];
        proof {
            assert(before.children(before.document)[0] == body);
            assert(before.has(body as int));
        }
        let targets = dom.descendants(body);
        let ghost model = handles_model(targets@);
        let mut already_matched = false;
        let mut i: usize = 0;
        proof {
            assert(model.skip(0) =~= model);
            crate::html_process::traverse::lemma_descendants_below(before, body as int, 0);
            assert(before.parent(body as int) == Some(before.document));
            assert forall|k: int| 0 <= k < targets@.len() implies before.parent(
                #[trigger] targets@[k] as int,
            ) != Some(before.document) by {
                assert(model[k] == targets@[k] as int);
            }
        }
        while i < targets.len()
            invariant
                i <= targets.len(),
                model == handles_model(targets@),
                dom@.well_formed(),
                keeps_root(before, dom@),
                forall|k: int|
                    0 <= k < targets@.len() ==> before.has(#[trigger] targets@[k] as int)
                        && before.parent(targets@[k] as int) != Some(before.document),
                forall|k: int| 0 <= k < targets@.len() ==> dom@.has(#[trigger] targets@[k] as int),
                dom@.rewritten_each(model.skip(i as int), self@, already_matched)
                    == before.rewritten_each(model, self@, false),
            decreases targets.len() - i,
        {
            proof {
                assert(model.skip(i as int)[0] == targets@[i as int]);
                assert(model.skip(i as int).drop_first() =~= model.skip(i + 1));
            }
            let ghost current = dom@;
            proof {
                assert(current.parent(targets@[i as int] as int) != Some(before.document));
            }
            self.rewrite_node(&mut dom, targets[i], &mut already_matched);
            proof {
                let next = dom@;
                assert forall|y: int|
                    before.has(y) && before.parent(y) != Some(
                        before.document,
                    ) implies #[trigger] next.parent(y) != Some(before.document) by {
                    assert(current.parent(y) != Some(before.document));
                }
            }
            i += 1;
        }
        Document(dom)
    }
}

/// A search that finds nothing in a node leaves the node as a rewrite
/// without search does.
pub proof fn lemma_search_without_match(m: DomModel, h: int, options: BuilderModel, matched: bool)
    requires
        m.has(h),
        options.search_term is Some,
        m.data(h) matches DataModel::Text { contents } ==> term_matches(options.search_term->0, contents).len() == 0,
    ensures
        m.rewritten(h, options, matched) == m.rewritten(
            h,
            BuilderModel { search_term: None, ..options },
            matched,
        ),
{
    let plain = BuilderModel { search_term: None, ..options };
    assert(decorated_link(m.attributes(h), options) == decorated_link(m.attributes(h), plain));
    let adjusted = m.with_link_decorated(h, options).with_heading_anchor(h);
    assert(adjusted == m.with_link_decorated(h, plain).with_heading_anchor(h));
    match m.data(h) {
        DataModel::Text { contents } => {
            assert(adjusted == m);
            let found = term_matches(options.search_term->0, contents);
            assert(found =~= Seq::<(usize, usize)>::empty());
            assert(pieces_from(contents, found, 0, matched).len() == 1);
        },
        _ => {
            let decorated = m.with_link_decorated(h, options);
            assert(!(decorated.data(h) is Text));
            assert(decorated.nodes.len() == m.nodes.len());
            if is_element_named(decorated.data(h), "h2"@) && heading_anchor(
                decorated.attributes(h),
            ) is Some {
                let attrs = heading_anchor(decorated.attributes(h))->0;
                let text = decorated.nodes.len() as int;
                let first = decorated.create(DataModel::Text { contents: "#"@ });
                let second = first.create(plain_element("a"@, attrs));
                let third = second.append_node(text + 1, text);
                let fourth = third.create(DataModel::Text { contents: " "@ });
                let fifth = fourth.append_node(h, text + 2);
                assert(first.data(h) == decorated.data(h));
                assert(second.data(h) == decorated.data(h));
                assert(third.data(h) == decorated.data(h));
                assert(fourth.data(h) == decorated.data(h));
                assert(fifth.data(h) == decorated.data(h));
                assert(adjusted == fifth.append_node(h, text + 1));
                assert(adjusted.data(h) == decorated.data(h));
            }
            assert(!(adjusted.data(h) is Text));
        },
    }
}

/// A rewrite without search keeps every node, and keeps every text node
/// as it is.
pub proof fn lemma_rewritten_keeps_text(m: DomModel, h: int, options: BuilderModel, matched: bool)
    requires
        m.has(h),
        options.search_term is None,
    ensures
        ({
            let next = m.rewritten(h, options, matched).0;
            &&& m.nodes.len() <= next.nodes.len()
            &&& forall|y: int|
                m.has(y) ==> ((#[trigger] next.data(y)) is Text || m.data(y) is Text ==> next.data(y)
                    == m.data(y))
        }),
{
    let decorated = m.with_link_decorated(h, options);
    let next = m.rewritten(h, options, matched).0;
    assert(next == decorated.with_heading_anchor(h));
    assert(decorated.nodes.len() == m.nodes.len());
    assert forall|y: int|
        m.has(y) && (decorated.data(y) is Text || m.data(y) is Text) implies #[trigger] decorated.data(
        y,
    ) == m.data(y) by {}
    if is_element_named(decorated.data(h), "h2"@) && heading_anchor(decorated.attributes(h)) is Some {
        let attrs = heading_anchor(decorated.attributes(h))->0;
        let text = decorated.nodes.len() as int;
        let first = decorated.create(DataModel::Text { contents: "#"@ });
        let second = first.create(plain_element("a"@, attrs));
        let third = second.append_node(text + 1, text);
        let fourth = third.create(DataModel::Text { contents: " "@ });
        let fifth = fourth.append_node(h, text + 2);
        assert(next == fifth.append_node(h, text + 1));
        assert forall|y: int| m.has(y) implies #[trigger] next.data(y) == decorated.data(y) by {
            assert(first.data(y) == decorated.data(y));
            assert(second.data(y) == decorated.data(y));
            assert(third.data(y) == decorated.data(y));
            assert(fourth.data(y) == decorated.data(y));
            assert(fifth.data(y) == decorated.data(y));
        }
    }
}

/// A search whose terms are in none of the texts that are rewritten leaves
/// the document as a rewrite without search does.
pub proof fn lemma_absent_search_term(
    m: DomModel,
    targets: Seq<int>,
    options: BuilderModel,
    matched: bool,
)
    requires
        options.search_term is Some,
        forall|k: int| 0 <= k < targets.len() ==> m.has(#[trigger] targets[k]),
        forall|k: int|
            0 <= k < targets.len() ==> (m.data(#[trigger] targets[k]) matches DataModel::Text {
                contents,
            } ==> term_matches(options.search_term->0, contents).len() == 0),
    ensures
        m.rewritten_each(targets, options, matched) == m.rewritten_each(
            targets,
            BuilderModel { search_term: None, ..options },
            matched,
        ),
    decreases targets.len(),
{
    let plain = BuilderModel { search_term: None, ..options };
    if targets.len() > 0 {
        let h = targets[0];
        let rest = targets.drop_first();
        lemma_search_without_match(m, h, options, matched);
        lemma_rewritten_keeps_text(m, h, plain, matched);
        let (next, flag) = m.rewritten(h, plain, matched);
        assert forall|k: int| 0 <= k < rest.len() implies next.has(#[trigger] rest[k]) && (next.data(
            rest[k],
        ) matches DataModel::Text { contents } ==> term_matches(options.search_term->0, contents).len() == 0) by {
            assert(rest[k] == targets[k + 1]);
            assert(m.has(rest[k]));
            if next.data(rest[k]) is Text {
                assert(next.data(rest[k]) == m.data(rest[k]));
            }
        }
        lemma_absent_search_term(next, rest, options, flag);
    }
}

/// A search for a phrase whose terms are in none of the texts of the
/// fragment leaves the document as no search does.
pub proof fn lemma_absent_search_term_in_document(m: DomModel, options: BuilderModel)
    requires
        m.well_formed(),
        m.children(m.document).len() > 0,
        options.search_term is Some,
        forall|y: int|
            m.has(y) ==> ((#[trigger] m.data(y)) matches DataModel::Text { contents }
                ==> term_matches(options.search_term->0, contents).len() == 0),
    ensures
        m.processed(options) == m.processed(BuilderModel { search_term: None, ..options }),
{
    let body = m.fragment();
    assert(m.has(body));
    let targets = m.descendants(body);
    crate::html_process::traverse::lemma_descendants_exist(m, body, 0);
    lemma_absent_search_term(m, targets, options, false);
}

/// Whether `nodes` are nodes of `after` that `before` did not hold, none
/// of them a `Document`, each without parent and none of them twice.
pub open spec fn new_roots(before: DomModel, after: DomModel, nodes: Seq<int>) -> bool {
    &&& forall|j: int|
        0 <= j < nodes.len() ==> after.has(#[trigger] nodes[j]) && !before.has(nodes[j])
            && after.parent(nodes[j]) is None && !(after.data(nodes[j]) is Document)
    &&& forall|j: int, k: int| 0 <= j < k < nodes.len() ==> #[trigger] nodes[j] != #[trigger] nodes[k]
}

/// Whether each of `nodes` can be put under `parent`: it is a node
/// without parent, no `Document`, that `parent` is not below; and none of
/// them is there twice.
pub open spec fn insertable(m: DomModel, parent: int, nodes: Seq<int>) -> bool {
    &&& forall|j: int|
        0 <= j < nodes.len() ==> {
            &&& m.has(#[trigger] nodes[j])
            &&& !(m.data(nodes[j]) is Document)
            &&& m.parent(nodes[j]) is None
            &&& !m.in_subtree(nodes[j], parent)
        }
    &&& forall|j: int, k: int| 0 <= j < k < nodes.len() ==> #[trigger] nodes[j] != #[trigger] nodes[k]
}

} // verus!
