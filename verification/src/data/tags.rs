//! Free-form labels. The ledger stores tags on accounts and transactions
//! but never interprets them.

use vstd::prelude::*;

verus! {

#[derive(Debug, Clone)]
pub struct Tag(String);

impl View for Tag {
    type V = Seq<char>;

    closed spec fn view(&self) -> Seq<char> {
        self.0@
    }
}

impl Tag {
    /// The tag's text.
    pub fn as_str(&self) -> (r: &str)
        ensures
            r@ == self@,
    {
        self.0.as_str()
    }
}

} // verus!
