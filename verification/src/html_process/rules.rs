use crate::html_process::dom::{
    attributes_model, Attribute, AttributeModel, DataModel, NameModel, QualName,
};
use crate::url_utility::is_relative_url;
use vstd::prelude::*;

verus! {

/// What a rewrite is asked to do, as mathematical values.
pub struct BuilderModel {
    pub canonical_root_url: Option<Seq<char>>,
    pub link_rel: Option<Seq<char>>,
    pub link_target: Option<Seq<char>>,
    pub search_term: Option<Seq<char>>,
}

/// The text of an optional string.
pub open spec fn text_of(value: Option<&str>) -> Option<Seq<char>> {
    match value {
        Some(text) => Some(text@),
        None => None,
    }
}

/// A name without prefix or namespace.
pub open spec fn plain_name(local: Seq<char>) -> NameModel {
    NameModel { prefix: None, ns: Seq::empty(), local }
}

/// An attribute without prefix or namespace.
pub open spec fn plain_attribute(local: Seq<char>, value: Seq<char>) -> AttributeModel {
    AttributeModel { name: plain_name(local), value }
}

/// The position of the first attribute with the local name `local`, or
/// the length of the list where there is none.
pub open spec fn first_named(attrs: Seq<AttributeModel>, local: Seq<char>) -> int
    decreases attrs.len(),
{
    if attrs.len() == 0 || attrs[0].name.local == local {
        0
    } else {
        1 + first_named(attrs.drop_first(), local)
    }
}

/// The first attribute with the local name `local` stands where
/// `first_named` says, and none stands before it.
pub proof fn lemma_first_named(attrs: Seq<AttributeModel>, local: Seq<char>)
    ensures
        0 <= first_named(attrs, local) <= attrs.len(),
        first_named(attrs, local) < attrs.len() ==> attrs[first_named(attrs, local)].name.local
            == local,
        forall|i: int| 0 <= i < first_named(attrs, local) ==> (#[trigger] attrs[i]).name.local != local,
    decreases attrs.len(),
{
    if attrs.len() > 0 && attrs[0].name.local != local {
        let rest = attrs.drop_first();
        lemma_first_named(rest, local);
        assert forall|i: int| 0 <= i < first_named(attrs, local) implies (#[trigger] attrs[i]).name.local
            != local by {
            if i > 0 {
                assert(attrs[i] == rest[i - 1]);
            }
        }
    }
}

/// The list with one more attribute, where a value for it is given.
pub open spec fn with_optional(
    attrs: Seq<AttributeModel>,
    local: Seq<char>,
    value: Option<Seq<char>>,
) -> Seq<AttributeModel> {
    match value {
        Some(value) => attrs.push(plain_attribute(local, value)),
        None => attrs,
    }
}

/// The attributes of a link after decoration.
///
/// Without `href` they stay as they are. A relative `href` gets the
/// canonical root URL put before it, where one is given. In every other
/// case `target` and `rel` are appended, each where a value for it is
/// given, whether or not the link has such an attribute already.
pub open spec fn decorated_link(attrs: Seq<AttributeModel>, options: BuilderModel) -> Seq<
    AttributeModel,
> {
    let at = first_named(attrs, "href"@);
    if at >= attrs.len() {
        attrs
    } else if is_relative_url(attrs[at].value) && options.canonical_root_url is Some {
        attrs.update(
            at,
            AttributeModel {
                name: attrs[at].name,
                value: options.canonical_root_url->0 + attrs[at].value,
            },
        )
    } else {
        with_optional(
            with_optional(attrs, "target"@, options.link_target),
            "rel"@,
            options.link_rel,
        )
    }
}

/// The attributes of the anchor that a heading with the given attributes
/// gets: a link to the heading's own `id`, of the class `heading-anchor`.
/// A heading without `id` gets none.
pub open spec fn heading_anchor(attrs: Seq<AttributeModel>) -> Option<Seq<AttributeModel>> {
    let at = first_named(attrs, "id"@);
    if at >= attrs.len() {
        None
    } else {
        Some(
            seq![
                plain_attribute("href"@, "#"@ + attrs[at].value),
                plain_attribute("class"@, "heading-anchor"@),
            ],
        )
    }
}

/// The position of the first attribute with the local name `local`.
pub fn find_named(attrs: &Vec<Attribute>, local: &str) -> (at: usize)
    ensures
        at == first_named(attributes_model(attrs@), local@),
        at <= attrs.len(),
{
    let ghost model = attributes_model(attrs@);
    let mut i: usize = 0;
    proof {
        assert(model.skip(0) =~= model);
    }
    while i < attrs.len() && !(*attrs[i].name.local.as_str() == *local)
        invariant
            i <= attrs.len(),
            model == attributes_model(attrs@),
            i + first_named(model.skip(i as int), local@) == first_named(model, local@),
            i < attrs.len() ==> model.skip(i as int)[0] == attrs@[i as int]@,
        decreases attrs.len() - i,
    {
        proof {
            assert(model.skip(i as int).drop_first() =~= model.skip(i + 1));
            if i + 1 < attrs.len() {
                assert(model.skip(i + 1)[0] == attrs@[i + 1]@);
            }
        }
        i += 1;
    }
    i
}

/// A copy of the attributes.
pub fn duplicate_attributes(attrs: &Vec<Attribute>) -> (copy: Vec<Attribute>)
    ensures
        attributes_model(copy@) == attributes_model(attrs@),
        copy@.len() == attrs@.len(),
{
    let mut copy: Vec<Attribute> = Vec::new();
    let mut i: usize = 0;
    while i < attrs.len()
        invariant
            i <= attrs.len(),
            copy@.len() == i,
            attributes_model(copy@) == attributes_model(attrs@).take(i as int),
        decreases attrs.len() - i,
    {
        let ghost so_far = attributes_model(copy@);
        copy.push(attrs[i].duplicate());
        proof {
            assert(attributes_model(copy@) =~= so_far.push(attrs@[i as int]@));
            assert(attributes_model(attrs@).take(i + 1) =~= attributes_model(attrs@).take(
                i as int,
            ).push(attrs@[i as int]@));
        }
        i += 1;
    }
    proof {
        assert(attributes_model(attrs@).take(attrs@.len() as int) =~= attributes_model(attrs@));
    }
    copy
}

/// An attribute without prefix or namespace.
pub fn new_plain_attribute(local: &str, value: String) -> (attr: Attribute)
    ensures
        attr@ == plain_attribute(local@, value@),
{
    proof {
        reveal_strlit("");
        assert(""@ =~= Seq::<char>::empty());
    }
    Attribute { name: QualName::new(None, "", local), value }
}

/// Whether `name` is the local name of `data`, where `data` is an element.
pub open spec fn is_element_named(data: DataModel, local: Seq<char>) -> bool {
    data matches DataModel::Element { name, .. } && name.local == local
}

} // verus!
