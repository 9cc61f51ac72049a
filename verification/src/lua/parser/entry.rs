use vstd::prelude::*;
use super::token::Token;

verus! {

/// One lexeme of a manifest: its kind and its text.
#[derive(Debug, Clone, PartialEq, Eq, Hash)]
pub struct Entry {
    pub token: Token,
    pub text: String,
}

impl View for Entry {
    type V = (Token, Seq<char>);

    open spec fn view(&self) -> (Token, Seq<char>) {
        (self.token, self.text@)
    }
}

impl DeepView for Entry {
    type V = (Token, Seq<char>);

    open spec fn deep_view(&self) -> (Token, Seq<char>) {
        (self.token, self.text@)
    }
}

impl Entry {
    /// A copy of the entry.
    pub fn duplicate(&self) -> (r: Entry)
        ensures
            r@ == self@,
    {
        Entry { token: self.token, text: self.text.clone() }
    }
}

} // verus!
