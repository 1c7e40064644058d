use vstd::prelude::*;

verus! {

/// Everything that can go wrong while decoding a dump or compiling a filter.
#[derive(Debug, Clone, Copy, PartialEq, Eq, Structural)]
pub enum MrtError {
    /// The input ended in the middle of a field.
    Truncated,
    /// A path attribute with a fixed length rule declared another length.
    BadAttribute { code: u8, got_len: usize },
    /// An AS_PATH segment whose type is neither AS_SET (1) nor AS_SEQUENCE (2).
    BadAsPathSegment { segment_type: u8 },
    /// A view name that is not UTF-8.
    BadString,
    /// A prefix length that exceeds the width of its address family.
    BadPrefixLength { plen: u8 },
    /// Text that is neither an address, a prefix nor a community.
    BadSyntax,
    /// Text that no kind of filter accepts.
    BadFilter,
}

/// `head` in front of a decoded tail; the tail's error, if it has one.
pub open spec fn prepend<T>(head: Seq<T>, tail: Result<Seq<T>, MrtError>) -> Result<
    Seq<T>,
    MrtError,
> {
    match tail {
        Ok(t) => Ok(head + t),
        Err(e) => Err(e),
    }
}

/// Nothing in front of a decoded tail is that tail.
pub proof fn lemma_prepend_empty<T>(tail: Result<Seq<T>, MrtError>)
    ensures
        prepend(Seq::<T>::empty(), tail) == tail,
{
    if tail is Ok {
        assert(Seq::<T>::empty() + tail->Ok_0 =~= tail->Ok_0);
    }
}

/// Putting two heads in front of a tail one after the other, or joined.
pub proof fn lemma_prepend_assoc<T>(a: Seq<T>, b: Seq<T>, tail: Result<Seq<T>, MrtError>)
    ensures
        prepend(a, prepend(b, tail)) == prepend(a + b, tail),
{
    if tail is Ok {
        assert(a + (b + tail->Ok_0) =~= (a + b) + tail->Ok_0);
    }
}

} // verus!
