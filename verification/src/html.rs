//! The document tree produced by the HTML front end.

use vstd::prelude::*;

verus! {

/// A parsed HTML fragment: a tag carries its name and attribute pairs, and
/// optionally a nested child tree.
#[derive(Debug)]
pub enum HtmlTree {
    /// A childless tag: name and attribute pairs.
    Tag(String, Vec<(String, String)>),
    /// A tag with a nested child: name, attribute pairs, and the child tree.
    PTag(String, Vec<(String, String)>, Box<HtmlTree>),
}

impl HtmlTree {
    /// The tag's name.
    pub fn name(&self) -> (r: &String)
        ensures
            r@ == match self {
                HtmlTree::Tag(name, _) => name@,
                HtmlTree::PTag(name, _, _) => name@,
            },
    {
        match self {
            HtmlTree::Tag(name, _) => name,
            HtmlTree::PTag(name, _, _) => name,
        }
    }
}

} // verus!
