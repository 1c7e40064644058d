use crate::error::MrtError;
use crate::ipaddrmask::Address;
use crate::literal::{address_text, parse_address};
use crate::text::{chars_of, decimal_text, number, parse_number, push_decimal, split, split_at};
use vstd::string::StringExecFns;
use vstd::prelude::*;

verus! {

/// An address block: an address and the number of its leading bits that
/// name the block.
#[derive(Debug, Clone, Copy, PartialEq, Eq, Hash, Structural)]
pub struct Prefix {
    pub prefix: Address,
    pub len: u8,
}

impl Prefix {
    /// Whether the length fits the address family and the address has no
    /// bits set behind the first `len`.
    pub open spec fn is_canonical(self) -> bool {
        self.len <= self.prefix.spec_width() && self.prefix.masked(self.len) == self.prefix
    }
}

/// What `text` denotes as a prefix: an address, one `/`, and a length of at
/// most 255 written as an unsigned number.
pub open spec fn parse_prefix(text: Seq<char>) -> Option<Prefix> {
    let parts = split(text, '/');
    if parts.len() == 2 {
        match (parse_address(parts[0]), parse_number(parts[1], 255)) {
            (Some(prefix), Some(len)) => Some(Prefix { prefix, len: len as u8 }),
            _ => None,
        }
    } else {
        None
    }
}

impl Prefix {
    /// Reads a prefix from the characters of a text.
    pub(crate) fn from_chars(chars: &[char]) -> (r: Option<Prefix>)
        ensures
            r == parse_prefix(chars@),
    {
        let parts = split_at(chars, '/');
        if parts.len() != 2 {
            return None;
        }
        proof {
            let views = parts.deep_view();
            assert(views[0] =~= parts[0]@ && views[1] =~= parts[1]@);
        }
        let prefix = Address::from_chars(parts[0].as_slice())?;
        let len = number(parts[1].as_slice(), 255)?;
        Some(Prefix { prefix, len: len as u8 })
    }

    /// Reads a prefix such as `10.0.0.0/8` or `2001:db8::/32` from text.
    /// The length is not held against the width of the address.
    pub fn from_text(s: &str) -> (r: Result<Prefix, MrtError>)
        ensures
            match r {
                Ok(p) => parse_prefix(s@) == Some(p),
                Err(e) => e == MrtError::BadSyntax && parse_prefix(s@) is None,
            },
    {
        let chars = chars_of(s);
        match Prefix::from_chars(chars.as_slice()) {
            Some(p) => Ok(p),
            None => Err(MrtError::BadSyntax),
        }
    }
}

/// A prefix in text: the address, `/`, the length.
pub open spec fn prefix_text(prefix: Address, len: u8) -> Seq<char> {
    address_text(prefix) + "/"@ + decimal_text(len as nat)
}

/// Appends a prefix in text.
pub fn push_prefix(prefix: &Address, len: u8, out: &mut String)
    ensures
        final(out)@ == old(out)@ + prefix_text(*prefix, len),
{
    prefix.push_text(out);
    out.append("/");
    push_decimal(out, len as u64);
    assert(out@ =~= old(out)@ + prefix_text(*prefix, len));
}

impl Prefix {
    /// The prefix in text, such as `10.0.0.0/8`.
    pub fn to_text(&self) -> (s: String)
        ensures
            s@ == prefix_text(self.prefix, self.len),
    {
        let mut out = String::new();
        push_prefix(&self.prefix, self.len, &mut out);
        assert(out@ =~= prefix_text(self.prefix, self.len));
        out
    }
}

impl core::str::FromStr for Prefix {
    type Err = MrtError;

    /// Reads a prefix such as `10.0.0.0/8` from text: an address, one `/` and
    /// a length of at most 255. Any other text is refused with `BadSyntax`.
    fn from_str(s: &str) -> (r: Result<Prefix, MrtError>)
        ensures
            match r {
                Ok(v) => parse_prefix(s@) == Some(v),
                Err(e) => e == MrtError::BadSyntax && parse_prefix(s@) is None,
            },
    {
        Prefix::from_text(s)
    }
}

} // verus!
