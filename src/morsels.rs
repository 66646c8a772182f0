//! The documents served by keyword: morsels of text under one or more keywords.

use vstd::prelude::*;
use crate::trigrams::Named;

verus! {

/// A document: its id, its keywords (the first is its key), its text and an
/// optional link.
#[derive(Clone, Debug)]
pub struct MorselEntry {
    pub id: String,
    pub keywords: Vec<String>,
    pub content: String,
    pub link: Option<String>,
}

impl Named for MorselEntry {
    open spec fn name_seq(&self) -> Seq<String> {
        self.keywords@
    }

    fn names(&self) -> (r: &[String]) {
        self.keywords.as_slice()
    }
}

} // verus!
