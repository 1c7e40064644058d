use crate::error::MrtError;
use crate::reader::{be_value, Reader};
use crate::text::{chars_of, decimal_text, number, parse_number, push_decimal, split, split_at};
use vstd::string::StringExecFns;
use vstd::prelude::*;

verus! {

/// A BGP community tag.
#[derive(Debug, Clone, Copy, PartialEq, Eq, Hash, Structural)]
pub enum Community {
    /// An RFC 1997 community: two 16-bit halves.
    Standard(u16, u16),
    /// An RFC 8092 large community: three 32-bit parts. The wire decoder
    /// never produces one.
    Large(u32, u32, u32),
}

impl DeepView for Community {
    type V = Community;

    open spec fn deep_view(&self) -> Community {
        *self
    }
}

/// The `i`-th standard community of a COMMUNITY payload: four bytes, two
/// big-endian halves.
pub open spec fn community_at(bytes: Seq<u8>, i: int) -> Community {
    Community::Standard(
        be_value(bytes.subrange(4 * i, 4 * i + 2)) as u16,
        be_value(bytes.subrange(4 * i + 2, 4 * i + 4)) as u16,
    )
}

/// The first `num` standard communities of a COMMUNITY payload.
pub open spec fn community_list(bytes: Seq<u8>, num: nat) -> Seq<Community> {
    Seq::new(num, |i: int| community_at(bytes, i))
}

impl Community {
    /// Decodes `num` standard communities from the start of `data`, or fails
    /// with `Truncated` when `data` is shorter than `4 * num` bytes.
    pub fn parse(data: &[u8], num: usize) -> (r: Result<Vec<Community>, MrtError>)
        ensures
            match r {
                Ok(list) => 4 * num <= data@.len() && list@ == community_list(data@, num as nat),
                Err(e) => 4 * num > data@.len() && e == MrtError::Truncated,
            },
    {
        if num > data.len() / 4 {
            return Err(MrtError::Truncated);
        }
        let mut reader = Reader::new(data);
        let mut list: Vec<Community> = Vec::new();
        let mut i: usize = 0;
        while i < num
            invariant
                i <= num,
                4 * num <= data@.len(),
                reader@ == data@.skip(4 * i),
                list@ == community_list(data@, i as nat),
            decreases num - i,
        {
            let ghost before = reader@;
            let a = reader.read_u16()?;
            let b = reader.read_u16()?;
            proof {
                assert(before.take(2) =~= data@.subrange(4 * i, 4 * i + 2));
                assert(before.skip(2).take(2) =~= data@.subrange(4 * i + 2, 4 * i + 4));
                assert(reader@ =~= data@.skip(4 * (i + 1)));
                assert(list@.push(Community::Standard(a, b)) =~= community_list(
                    data@,
                    (i + 1) as nat,
                ));
            }
            list.push(Community::Standard(a, b));
            i = i + 1;
        }
        Ok(list)
    }
}

/// What `text` denotes as a standard community: two numbers of at most
/// 65535 between which stands one `:`.
pub open spec fn parse_standard_community(text: Seq<char>) -> Option<Community> {
    let parts = split(text, ':');
    if parts.len() == 2 {
        match (parse_number(parts[0], 0xffff), parse_number(parts[1], 0xffff)) {
            (Some(a), Some(b)) => Some(Community::Standard(a as u16, b as u16)),
            _ => None,
        }
    } else {
        None
    }
}

/// What `text` denotes as a community: a standard community, or three
/// numbers of at most 32 bits between two `:` for a large one.
pub open spec fn parse_community(text: Seq<char>) -> Option<Community> {
    let parts = split(text, ':');
    if parts.len() == 3 {
        match (
            parse_number(parts[0], 0xffff_ffff),
            parse_number(parts[1], 0xffff_ffff),
            parse_number(parts[2], 0xffff_ffff),
        ) {
            (Some(a), Some(b), Some(c)) => Some(Community::Large(a as u32, b as u32, c as u32)),
            _ => None,
        }
    } else {
        parse_standard_community(text)
    }
}

impl Community {
    /// Reads a standard community from the characters of a text.
    pub(crate) fn standard_from_chars(chars: &[char]) -> (r: Option<Community>)
        ensures
            r == parse_standard_community(chars@),
    {
        let parts = split_at(chars, ':');
        if parts.len() != 2 {
            return None;
        }
        proof {
            let views = parts.deep_view();
            assert(views[0] =~= parts[0]@ && views[1] =~= parts[1]@);
        }
        let a = number(parts[0].as_slice(), 0xffff)?;
        let b = number(parts[1].as_slice(), 0xffff)?;
        Some(Community::Standard(a as u16, b as u16))
    }

    /// Reads a community such as `65000:100` or `65000:1:2` from text.
    pub fn from_text(s: &str) -> (r: Result<Community, MrtError>)
        ensures
            match r {
                Ok(c) => parse_community(s@) == Some(c),
                Err(e) => e == MrtError::BadSyntax && parse_community(s@) is None,
            },
    {
        let chars = chars_of(s);
        let parts = split_at(chars.as_slice(), ':');
        let found = if parts.len() == 3 {
            proof {
                let views = parts.deep_view();
                assert(views[0] =~= parts[0]@ && views[1] =~= parts[1]@ && views[2]
                    =~= parts[2]@);
            }
            match (
                number(parts[0].as_slice(), 0xffff_ffff),
                number(parts[1].as_slice(), 0xffff_ffff),
                number(parts[2].as_slice(), 0xffff_ffff),
            ) {
                (Some(a), Some(b), Some(c)) => Some(Community::Large(a, b, c)),
                _ => None,
            }
        } else {
            Community::standard_from_chars(chars.as_slice())
        };
        match found {
            Some(c) => Ok(c),
            None => Err(MrtError::BadSyntax),
        }
    }
}

/// A community in text: its parts in base ten with `:` between them.
pub open spec fn community_text(c: Community) -> Seq<char> {
    match c {
        Community::Standard(a, b) => decimal_text(a as nat) + ":"@ + decimal_text(b as nat),
        Community::Large(a, b, c) => decimal_text(a as nat) + ":"@ + decimal_text(b as nat)
            + ":"@ + decimal_text(c as nat),
    }
}

/// A list of communities in text, one space between two of them.
pub open spec fn communities_text(list: Seq<Community>) -> Seq<char>
    decreases list.len(),
{
    if list.len() == 0 {
        Seq::empty()
    } else if list.len() == 1 {
        community_text(list[0])
    } else {
        communities_text(list.drop_last()) + " "@ + community_text(list.last())
    }
}

impl Community {
    /// Appends the community in text.
    pub fn push_text(&self, out: &mut String)
        ensures
            final(out)@ == old(out)@ + community_text(*self),
    {
        match self {
            Community::Standard(a, b) => {
                push_decimal(out, *a as u64);
                out.append(":");
                push_decimal(out, *b as u64);
            },
            Community::Large(a, b, c) => {
                push_decimal(out, *a as u64);
                out.append(":");
                push_decimal(out, *b as u64);
                out.append(":");
                push_decimal(out, *c as u64);
            },
        }
        assert(out@ =~= old(out)@ + community_text(*self));
    }

    /// The community in text, such as `65000:100`.
    pub fn to_text(&self) -> (s: String)
        ensures
            s@ == community_text(*self),
    {
        let mut out = String::new();
        self.push_text(&mut out);
        assert(out@ =~= community_text(*self));
        out
    }

    /// Appends a list of communities in text, one space between two.
    pub fn push_list(list: &Vec<Community>, out: &mut String)
        ensures
            final(out)@ == old(out)@ + communities_text(list@),
    {
        let mut i: usize = 0;
        assert(list@.take(0) =~= Seq::empty());
        assert(out@ =~= old(out)@ + communities_text(list@.take(0)));
        while i < list.len()
            invariant
                i <= list.len(),
                out@ == old(out)@ + communities_text(list@.take(i as int)),
            decreases list.len() - i,
        {
            if i > 0 {
                out.append(" ");
            }
            list[i].push_text(out);
            proof {
                assert(list@.take(i + 1).drop_last() =~= list@.take(i as int));
                assert(out@ =~= old(out)@ + communities_text(list@.take(i + 1)));
            }
            i = i + 1;
        }
        assert(list@.take(i as int) =~= list@);
    }
}

impl core::str::FromStr for Community {
    type Err = MrtError;

    /// Reads a community such as `65000:100` or `65000:1:2` from text. Any
    /// other text is refused with `BadSyntax`.
    fn from_str(s: &str) -> (r: Result<Community, MrtError>)
        ensures
            match r {
                Ok(v) => parse_community(s@) == Some(v),
                Err(e) => e == MrtError::BadSyntax && parse_community(s@) is None,
            },
    {
        Community::from_text(s)
    }
}

} // verus!
