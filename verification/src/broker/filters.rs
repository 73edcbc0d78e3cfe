use vstd::prelude::*;

verus! {

/// A filter's verdict on a candidate message: `Yes` means "filter this
/// message out" (block it); `No` lets it pass on to the next filter.
pub enum FilterMessage {
    Yes,
    No,
}

/// A content policy. Filters are side-effect-free: the verdict is a function
/// of the candidate text alone, pinned down by `spec_filter`.
pub trait Filter: Sized {
    /// The verdict this filter gives to a message, as a mathematical function
    /// of the message's characters.
    spec fn spec_filter(&self, text: Seq<char>) -> FilterMessage;

    /// Classifies the candidate text.
    fn filter(&self, msg: &str) -> (verdict: FilterMessage)
        ensures
            verdict == self.spec_filter(msg@),
    ;
}

/// Blocks every message whose length in characters strictly exceeds
/// `length`; allows all others, including messages exactly at the limit.
pub struct LengthFilter {
    pub length: usize,
}

impl LengthFilter {
    pub fn new(length: usize) -> (f: LengthFilter)
        ensures
            f.length == length,
    {
        LengthFilter { length }
    }
}

impl Filter for LengthFilter {
    open spec fn spec_filter(&self, text: Seq<char>) -> FilterMessage {
        if text.len() > self.length {
            FilterMessage::Yes
        } else {
            FilterMessage::No
        }
    }

    fn filter(&self, msg: &str) -> (verdict: FilterMessage) {
        if msg.unicode_len() > self.length {
            FilterMessage::Yes
        } else {
            FilterMessage::No
        }
    }
}

/// The length filter blocks exactly the messages that are strictly longer
/// than its limit: a message at the limit is allowed, one character more is
/// blocked.
pub proof fn lemma_length_filter_boundary(f: LengthFilter, text: Seq<char>)
    ensures
        f.spec_filter(text) == FilterMessage::No <==> text.len() <= f.length,
        f.spec_filter(text) == FilterMessage::Yes <==> text.len() > f.length,
{
}

} // verus!
