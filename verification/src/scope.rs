//! What a tool is to work on. A whole set named by a filter stays a filter, so a scope over
//! thousands of photos is not thousands of paths, and it still means the right photos after a
//! scan. A hand-picked selection is the paths themselves, in the order they were shown.

use vstd::prelude::*;

use crate::filter::Filter;
use crate::text::{copy_list, views};

verus! {

#[derive(Debug, Clone, PartialEq, Eq)]
pub enum Scope {
    Filter(Filter),
    Photos { title: String, paths: Vec<String> },
}

impl Scope {
    pub open spec fn titled(self) -> Seq<char> {
        match self {
            Scope::Filter(filter) => filter@.titled(),
            Scope::Photos { title, paths: _ } => title@,
        }
    }

    pub fn title(&self) -> (words: String)
        ensures
            words@ == self.titled(),
    {
        match self {
            Scope::Filter(filter) => filter.title(),
            Scope::Photos { title, paths: _ } => title.clone(),
        }
    }

    /// The photos the scope names, as paths inside the library: those its filter's query gave,
    /// where it has one.
    pub fn paths(&self, found: Vec<String>) -> (named: Vec<String>)
        ensures
            match *self {
                Scope::Filter(_) => named == found,
                Scope::Photos { title: _, paths } => views(named@) == views(paths@),
            },
    {
        match self {
            Scope::Filter(_) => found,
            Scope::Photos { title: _, paths } => copy_list(paths),
        }
    }
}

} // verus!
