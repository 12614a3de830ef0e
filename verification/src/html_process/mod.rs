pub mod dom;
pub mod model;
pub mod rewrite;
pub mod rules;
pub mod search;
pub mod serialize;
pub mod traverse;

use crate::html_process::dom::{attributes_model, Attribute};
use crate::html_process::rules::{
    decorated_link, duplicate_attributes, find_named, heading_anchor, new_plain_attribute,
    plain_attribute, text_of, BuilderModel,
};
use crate::url_utility::relative_url;
use vstd::prelude::*;

verus! {

/// Rewrites the fragment of a parsed document: decorates links, gives
/// headings an anchor and marks the matches of a search.
#[derive(Debug)]
pub struct Builder<'a> {
    canonical_root_url: Option<&'a str>,
    link_rel: Option<&'a str>,
    link_target: Option<&'a str>,
    search_term: Option<&'a str>,
}

impl<'a> View for Builder<'a> {
    type V = BuilderModel;

    closed spec fn view(&self) -> BuilderModel {
        BuilderModel {
            canonical_root_url: text_of(self.canonical_root_url),
            link_rel: text_of(self.link_rel),
            link_target: text_of(self.link_target),
            search_term: text_of(self.search_term),
        }
    }
}

/// What a rewrite does where nothing else is asked for: links that lead
/// elsewhere open in a new window and do not tell where they come from.
pub open spec fn default_options() -> BuilderModel {
    BuilderModel {
        canonical_root_url: None,
        link_rel: Some("noopener noreferrer"@),
        link_target: Some("_blank"@),
        search_term: None,
    }
}

impl<'a> Default for Builder<'a> {
    fn default() -> (builder: Self)
        ensures
            builder@ == default_options(),
    {
        Builder {
            canonical_root_url: None,
            link_rel: Some("noopener noreferrer"),
            link_target: Some("_blank"),
            search_term: None,
        }
    }
}

impl<'a> Builder<'a> {
    /// A builder with the default options.
    pub fn new() -> (builder: Self)
        ensures
            builder@ == default_options(),
    {
        Builder {
            canonical_root_url: None,
            link_rel: Some("noopener noreferrer"),
            link_target: Some("_blank"),
            search_term: None,
        }
    }

    /// Sets the URL that is put before relative links, or takes it away.
    pub fn canonical_root_url(&mut self, value: Option<&'a str>) -> (this: &mut Self)
        ensures
            this@ == (BuilderModel { canonical_root_url: text_of(value), ..old(self)@ }),
            *final(self) == *final(this),
    {
        self.canonical_root_url = value;
        self
    }

    /// Sets the `rel` attribute that links get, or takes it away.
    pub fn link_rel(&mut self, value: Option<&'a str>) -> (this: &mut Self)
        ensures
            this@ == (BuilderModel { link_rel: text_of(value), ..old(self)@ }),
            *final(self) == *final(this),
    {
        self.link_rel = value;
        self
    }

    /// Sets the phrase whose terms are marked, or takes it away.
    pub fn search_term(&mut self, value: Option<&'a str>) -> (this: &mut Self)
        ensures
            this@ == (BuilderModel { search_term: text_of(value), ..old(self)@ }),
            *final(self) == *final(this),
    {
        self.search_term = value;
        self
    }

    /// The attributes of a link after decoration.
    pub fn decorate_link(&self, attrs: &Vec<Attribute>) -> (decorated: Vec<Attribute>)
        ensures
            attributes_model(decorated@) == decorated_link(attributes_model(attrs@), self@),
    {
        let ghost model = attributes_model(attrs@);
        let mut decorated = duplicate_attributes(attrs);
        let at = find_named(attrs, "href");
        if at >= attrs.len() {
            return decorated;
        }
        proof {
            assert(model[at as int] == attrs@[at as int]@);
        }
        let relative = relative_url(attrs[at].value.as_str());
        match self.canonical_root_url {
            Some(root) if relative => {
                let mut value = root.to_owned();
                value.push_str(attrs[at].value.as_str());
                let rewritten = Attribute { name: attrs[at].name.duplicate(), value };
                let ghost rewritten_model = rewritten@;
                decorated.set(at, rewritten);
                proof {
                    assert(attributes_model(decorated@) =~= model.update(
                        at as int,
                        rewritten_model,
                    ));
                }
            },
            _ => {
                if let Some(link_target) = self.link_target {
                    let ghost so_far = attributes_model(decorated@);
                    decorated.push(new_plain_attribute("target", link_target.to_owned()));
                    proof {
                        assert(attributes_model(decorated@) =~= so_far.push(
                            plain_attribute("target"@, link_target@),
                        ));
                    }
                }
                if let Some(link_rel) = self.link_rel {
                    let ghost so_far = attributes_model(decorated@);
                    decorated.push(new_plain_attribute("rel", link_rel.to_owned()));
                    proof {
                        assert(attributes_model(decorated@) =~= so_far.push(
                            plain_attribute("rel"@, link_rel@),
                        ));
                    }
                }
            },
        }
        decorated
    }
}

/// The attributes of the anchor that a heading with the given attributes
/// gets, if it gets one.
pub fn heading_anchor_attributes(attrs: &Vec<Attribute>) -> (anchor: Option<Vec<Attribute>>)
    ensures
        match heading_anchor(attributes_model(attrs@)) {
            Some(model) => anchor is Some && attributes_model(anchor->0@) == model,
            None => anchor is None,
        },
{
    let at = find_named(attrs, "id");
    if at >= attrs.len() {
        return None;
    }
    proof {
        assert(attributes_model(attrs@)[at as int] == attrs@[at as int]@);
    }
    let mut href = "#".to_owned();
    href.push_str(attrs[at].value.as_str());
    let mut anchor: Vec<Attribute> = Vec::new();
    anchor.push(new_plain_attribute("href", href));
    anchor.push(new_plain_attribute("class", "heading-anchor".to_owned()));
    proof {
        assert(attributes_model(anchor@) =~= heading_anchor(attributes_model(attrs@))->0);
    }
    Some(anchor)
}

} // verus!
