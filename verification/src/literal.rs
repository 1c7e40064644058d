use crate::ipaddrmask::Address;
use crate::text::{
    all_digits, chars_of, decimal_text, decimal_value, hex_text, is_digit, number, push_decimal,
    push_hex, split, split_at,
};
use vstd::string::StringExecFns;
use vstd::prelude::*;

verus! {

/// Whether `text` is one number of a dotted quad: one to three digits, no
/// leading zero before another digit, at most 255.
pub open spec fn is_octet(text: Seq<char>) -> bool {
    &&& 1 <= text.len() <= 3
    &&& all_digits(text)
    &&& text.len() > 1 ==> text[0] != '0'
    &&& decimal_value(text) <= 255
}

/// What `text` denotes as an IPv4 address: four numbers of a dotted quad
/// between three dots.
pub open spec fn parse_ipv4(text: Seq<char>) -> Option<u32> {
    let parts = split(text, '.');
    if parts.len() == 4 && is_octet(parts[0]) && is_octet(parts[1]) && is_octet(parts[2])
        && is_octet(parts[3]) {
        Some(
            (((decimal_value(parts[0]) * 256 + decimal_value(parts[1])) * 256 + decimal_value(
                parts[2],
            )) * 256 + decimal_value(parts[3])) as u32,
        )
    } else {
        None
    }
}

/// Whether `c` is a hexadecimal digit of either case.
pub open spec fn is_hex_digit(c: char) -> bool {
    is_digit(c) || 'a' <= c <= 'f' || 'A' <= c <= 'F'
}

/// The number that a hexadecimal digit stands for.
pub open spec fn hex_digit_value(c: char) -> nat {
    if is_digit(c) {
        (c as int - 48) as nat
    } else if 'a' <= c <= 'f' {
        (c as int - 87) as nat
    } else {
        (c as int - 55) as nat
    }
}

/// The number that a text of hexadecimal digits denotes.
pub open spec fn hex_value(digits: Seq<char>) -> nat
    decreases digits.len(),
{
    if digits.len() == 0 {
        0
    } else {
        hex_value(digits.drop_last()) * 16 + hex_digit_value(digits.last())
    }
}

/// Whether `text` is one group of an IPv6 address: one to four hexadecimal
/// digits.
pub open spec fn is_group(text: Seq<char>) -> bool {
    1 <= text.len() <= 4 && forall|i: int| 0 <= i < text.len() ==> is_hex_digit(#[trigger] text[i])
}

/// The 16-bit groups that a run of pieces denotes: each piece is a group,
/// but the last may be an IPv4 address, which stands for two groups, where
/// `v4_last` allows it.
pub open spec fn piece_groups(pieces: Seq<Seq<char>>, v4_last: bool) -> Option<Seq<u16>>
    decreases pieces.len(),
{
    if pieces.len() == 0 {
        Some(Seq::empty())
    } else {
        let last = pieces.last();
        match piece_groups(pieces.drop_last(), false) {
            Some(front) => {
                if is_group(last) {
                    Some(front.push(hex_value(last) as u16))
                } else if v4_last && parse_ipv4(last) is Some {
                    let quad = parse_ipv4(last)->Some_0;
                    Some(front.push((quad / 0x1_0000) as u16).push((quad % 0x1_0000) as u16))
                } else {
                    None
                }
            },
            None => None,
        }
    }
}

/// The index of the first empty piece; the number of pieces where none is
/// empty.
pub open spec fn first_empty(pieces: Seq<Seq<char>>) -> int
    decreases pieces.len(),
{
    if pieces.len() == 0 || pieces[0].len() == 0 {
        0
    } else {
        1 + first_empty(pieces.skip(1))
    }
}

/// The address that eight groups denote, the first group in the most
/// significant place.
pub open spec fn groups_address(g: Seq<u16>) -> u128 {
    (g[0] * 0x1_0000_0000_0000_0000_0000_0000_0000 + g[1] * 0x1_0000_0000_0000_0000_0000_0000
        + g[2] * 0x1_0000_0000_0000_0000_0000 + g[3] * 0x1_0000_0000_0000_0000 + g[4]
        * 0x1_0000_0000_0000 + g[5] * 0x1_0000_0000 + g[6] * 0x1_0000 + g[7]) as u128
}

/// `count` zero groups.
pub open spec fn zero_groups(count: int) -> Seq<u16> {
    Seq::new(count as nat, |i: int| 0u16)
}

/// What `text` denotes as an IPv6 address. The text falls into pieces at its
/// colons. Without `::` it has eight groups, the last two of which may be
/// written as an IPv4 address. One `::`, which shows as an empty piece (and
/// as two at either end of the text), stands for the zero groups that fill
/// the address up to eight, at least one; an IPv4 address may only end the
/// text.
pub open spec fn parse_ipv6(text: Seq<char>) -> Option<u128> {
    let pieces = split(text, ':');
    let n = pieces.len() as int;
    if n < 3 {
        None
    } else {
        let lead = pieces[0].len() == 0;
        let trail = pieces[n - 1].len() == 0;
        if (lead && pieces[1].len() != 0) || (trail && pieces[n - 2].len() != 0) {
            None
        } else {
            let inner = pieces.subrange(
                if lead {
                    1
                } else {
                    0
                },
                if trail {
                    n - 1
                } else {
                    n
                },
            );
            let gap = first_empty(inner);
            if gap == inner.len() {
                match piece_groups(inner, true) {
                    Some(g) => if g.len() == 8 {
                        Some(groups_address(g))
                    } else {
                        None
                    },
                    None => None,
                }
            } else {
                match (piece_groups(inner.take(gap), false), piece_groups(inner.skip(gap + 1), true)) {
                    (Some(head), Some(tail)) => if head.len() + tail.len() <= 7 {
                        Some(
                            groups_address(
                                head + zero_groups(8 - head.len() - tail.len()) + tail,
                            ),
                        )
                    } else {
                        None
                    },
                    _ => None,
                }
            }
        }
    }
}

/// What `text` denotes as an address: an IPv4 address, else an IPv6 address.
pub open spec fn parse_address(text: Seq<char>) -> Option<Address> {
    match parse_ipv4(text) {
        Some(a) => Some(Address::V4(a)),
        None => match parse_ipv6(text) {
            Some(a) => Some(Address::V6(a)),
            None => None,
        },
    }
}

/// Reads one number of a dotted quad.
fn octet(text: &[char]) -> (r: Option<u8>)
    ensures
        match r {
            Some(v) => is_octet(text@) && v == decimal_value(text@),
            None => !is_octet(text@),
        },
{
    if text.len() < 1 || text.len() > 3 {
        return None;
    }
    if text[0] == '+' || (text.len() > 1 && text[0] == '0') {
        assert(!is_digit('+'));
        return None;
    }
    match number(text, 255) {
        Some(v) => Some(v as u8),
        None => None,
    }
}

/// Reads a dotted quad.
fn ipv4(text: &[char]) -> (r: Option<u32>)
    ensures
        r == parse_ipv4(text@),
{
    let parts = split_at(text, '.');
    if parts.len() != 4 {
        return None;
    }
    proof {
        let views = parts.deep_view();
        assert(views[0] =~= parts[0]@ && views[1] =~= parts[1]@ && views[2] =~= parts[2]@
            && views[3] =~= parts[3]@);
    }
    let a = octet(parts[0].as_slice())?;
    let b = octet(parts[1].as_slice())?;
    let c = octet(parts[2].as_slice())?;
    let d = octet(parts[3].as_slice())?;
    Some((((a as u32) * 256 + b as u32) * 256 + c as u32) * 256 + d as u32)
}

/// Reads one group of an IPv6 address.
fn group(text: &[char]) -> (r: Option<u16>)
    ensures
        match r {
            Some(v) => is_group(text@) && v == hex_value(text@),
            None => !is_group(text@),
        },
{
    if text.len() < 1 || text.len() > 4 {
        return None;
    }
    let mut value: u32 = 0;
    let mut i: usize = 0;
    assert(text@.take(0) =~= Seq::empty());
    while i < text.len()
        invariant
            i <= text.len() <= 4,
            forall|k: int| 0 <= k < i ==> is_hex_digit(#[trigger] text@[k]),
            value == hex_value(text@.take(i as int)),
            value < 0x1_0000,
            i < 4 ==> value < 0x1000,
            i < 3 ==> value < 0x100,
            i < 2 ==> value < 0x10,
            i < 1 ==> value < 1,
        decreases text.len() - i,
    {
        let c = text[i];
        let digit: u32 = if c >= '0' && c <= '9' {
            c as u32 - 48
        } else if c >= 'a' && c <= 'f' {
            c as u32 - 87
        } else if c >= 'A' && c <= 'F' {
            c as u32 - 55
        } else {
            return None;
        };
        assert(text@.take(i + 1).drop_last() =~= text@.take(i as int));
        value = value * 16 + digit;
        i = i + 1;
    }
    assert(text@.take(i as int) =~= text@);
    Some(value as u16)
}

/// Reads the groups of the pieces from index `from` up to, not including,
/// `to`.
fn groups(pieces: &Vec<Vec<char>>, from: usize, to: usize, v4_last: bool) -> (r: Option<Vec<u16>>)
    requires
        from <= to <= pieces.len(),
    ensures
        match r {
            Some(g) => piece_groups(pieces.deep_view().subrange(from as int, to as int), v4_last)
                == Some(g@),
            None => piece_groups(
                pieces.deep_view().subrange(from as int, to as int),
                v4_last,
            ) is None,
        },
{
    let ghost run = pieces.deep_view().subrange(from as int, to as int);
    let mut found: Vec<u16> = Vec::new();
    if from == to {
        assert(run =~= Seq::empty());
        return Some(found);
    }
    let mut i: usize = from;
    assert(run.take(0) =~= Seq::empty());
    while i + 1 < to
        invariant
            from <= i < to <= pieces.len(),
            run == pieces.deep_view().subrange(from as int, to as int),
            piece_groups(run.take(i - from), false) == Some(found@),
        decreases to - i,
    {
        let piece = pieces[i].as_slice();
        proof {
            assert(run.take(i - from + 1).drop_last() =~= run.take(i - from));
            assert(run.take(i - from + 1).last() =~= piece@);
        }
        match group(piece) {
            Some(g) => {
                found.push(g);
            },
            None => {
                proof {
                    lemma_piece_groups_front(run, i - from + 1, v4_last);
                }
                return None;
            },
        }
        i = i + 1;
    }
    let piece = pieces[i].as_slice();
    proof {
        assert(run.drop_last() =~= run.take(i - from));
        assert(run.last() =~= piece@);
    }
    match group(piece) {
        Some(g) => {
            found.push(g);
        },
        None => {
            if !v4_last {
                return None;
            }
            match ipv4(piece) {
                Some(quad) => {
                    found.push((quad / 0x1_0000) as u16);
                    found.push((quad % 0x1_0000) as u16);
                },
                None => {
                    return None;
                },
            }
        },
    }
    Some(found)
}

/// Where the pieces in front of a run make no groups, the run makes none.
proof fn lemma_piece_groups_front(run: Seq<Seq<char>>, n: int, v4_last: bool)
    requires
        0 <= n < run.len(),
        piece_groups(run.take(n), false) is None,
    ensures
        piece_groups(run, v4_last) is None,
    decreases run.len(),
{
    if n < run.len() - 1 {
        assert(run.drop_last().take(n) =~= run.take(n));
        lemma_piece_groups_front(run.drop_last(), n, false);
    } else {
        assert(run.drop_last() =~= run.take(n));
    }
}

/// Where `j` pieces are not empty and the next is, or none is left, `j` is
/// the index of the first empty piece.
proof fn lemma_first_empty(pieces: Seq<Seq<char>>, j: int)
    requires
        0 <= j <= pieces.len(),
        forall|k: int| 0 <= k < j ==> (#[trigger] pieces[k]).len() > 0,
        j == pieces.len() || pieces[j].len() == 0,
    ensures
        first_empty(pieces) == j,
    decreases j,
{
    if j > 0 {
        let rest = pieces.skip(1);
        assert forall|k: int| 0 <= k < j - 1 implies (#[trigger] rest[k]).len() > 0 by {
            assert(rest[k] == pieces[k + 1]);
        }
        lemma_first_empty(rest, j - 1);
    }
}

/// The address that eight groups denote.
fn address_of(g: &Vec<u16>) -> (a: u128)
    requires
        g.len() == 8,
    ensures
        a == groups_address(g@),
{
    (g[0] as u128) * 0x1_0000_0000_0000_0000_0000_0000_0000 + (g[1] as u128)
        * 0x1_0000_0000_0000_0000_0000_0000 + (g[2] as u128) * 0x1_0000_0000_0000_0000_0000 + (
    g[3] as u128) * 0x1_0000_0000_0000_0000 + (g[4] as u128) * 0x1_0000_0000_0000 + (g[5] as u128)
        * 0x1_0000_0000 + (g[6] as u128) * 0x1_0000 + (g[7] as u128)
}

/// Reads an IPv6 address.
fn ipv6(text: &[char]) -> (r: Option<u128>)
    ensures
        r == parse_ipv6(text@),
{
    let pieces = split_at(text, ':');
    let n = pieces.len();
    if n < 3 {
        return None;
    }
    let ghost views = pieces.deep_view();
    assert forall|k: int| 0 <= k < n implies (#[trigger] views[k]).len() == pieces[k].len() by {
        assert(views[k] =~= pieces[k]@);
    }
    let lead = pieces[0].len() == 0;
    let trail = pieces[n - 1].len() == 0;
    if (lead && pieces[1].len() != 0) || (trail && pieces[n - 2].len() != 0) {
        return None;
    }
    let from: usize = if lead {
        1
    } else {
        0
    };
    let to: usize = if trail {
        n - 1
    } else {
        n
    };
    let ghost inner = views.subrange(from as int, to as int);
    let mut gap: usize = from;
    while gap < to && pieces[gap].len() != 0
        invariant
            from <= gap <= to <= n,
            n == pieces.len(),
            forall|k: int| from <= k < gap ==> pieces[k].len() > 0,
        decreases to - gap,
    {
        gap = gap + 1;
    }
    proof {
        assert forall|k: int| 0 <= k < gap - from implies (#[trigger] inner[k]).len() > 0 by {
            assert(inner[k] == views[k + from]);
        }
        if gap < to {
            assert(inner[gap - from] == views[gap as int]);
        }
        lemma_first_empty(inner, gap - from);
    }
    if gap == to {
        match groups(&pieces, from, to, true) {
            Some(g) => {
                if g.len() == 8 {
                    Some(address_of(&g))
                } else {
                    None
                }
            },
            None => None,
        }
    } else {
        proof {
            assert(inner.take(gap - from) =~= views.subrange(from as int, gap as int));
            assert(inner.skip(gap - from + 1) =~= views.subrange(gap + 1, to as int));
        }
        let head = groups(&pieces, from, gap, false)?;
        let tail = groups(&pieces, gap + 1, to, true)?;
        if head.len() > 7 || tail.len() > 7 - head.len() {
            return None;
        }
        let mut all: Vec<u16> = Vec::new();
        let mut i: usize = 0;
        while i < 8
            invariant
                i <= 8,
                head.len() + tail.len() <= 7,
                all.len() == i,
                forall|k: int|
                    0 <= k < i ==> all[k] == (head@ + zero_groups(8 - head.len() - tail.len())
                        + tail@)[k],
            decreases 8 - i,
        {
            let g: u16 = if i < head.len() {
                head[i]
            } else if i < 8 - tail.len() {
                0
            } else {
                tail[i - (8 - tail.len())]
            };
            all.push(g);
            i = i + 1;
        }
        assert(all@ =~= head@ + zero_groups(8 - head.len() - tail.len()) + tail@);
        Some(address_of(&all))
    }
}

impl Address {
    /// Reads an address from text: a dotted quad, or an IPv6 address in any
    /// of its forms.
    pub fn from_text(s: &str) -> (r: Option<Address>)
        ensures
            r == parse_address(s@),
    {
        let chars = chars_of(s);
        Address::from_chars(chars.as_slice())
    }

    /// Reads an address from the characters of a text.
    pub(crate) fn from_chars(chars: &[char]) -> (r: Option<Address>)
        ensures
            r == parse_address(chars@),
    {
        match ipv4(chars) {
            Some(a) => Some(Address::V4(a)),
            None => match ipv6(chars) {
                Some(a) => Some(Address::V6(a)),
                None => None,
            },
        }
    }
}

/// An IPv4 address in text: its four bytes in base ten with dots between
/// them.
pub open spec fn ipv4_text(a: u32) -> Seq<char> {
    decimal_text((a / 0x100_0000) as nat) + "."@ + decimal_text(((a / 0x1_0000) % 256) as nat)
        + "."@ + decimal_text(((a / 0x100) % 256) as nat) + "."@ + decimal_text((a % 256) as nat)
}

/// The eight 16-bit groups of an IPv6 address, the most significant first.
pub open spec fn address_groups(a: u128) -> Seq<u16> {
    seq![
        (a / 0x1_0000_0000_0000_0000_0000_0000_0000) as u16,
        ((a / 0x1_0000_0000_0000_0000_0000_0000) % 0x1_0000) as u16,
        ((a / 0x1_0000_0000_0000_0000_0000) % 0x1_0000) as u16,
        ((a / 0x1_0000_0000_0000_0000) % 0x1_0000) as u16,
        ((a / 0x1_0000_0000_0000) % 0x1_0000) as u16,
        ((a / 0x1_0000_0000) % 0x1_0000) as u16,
        ((a / 0x1_0000) % 0x1_0000) as u16,
        (a % 0x1_0000) as u16,
    ]
}

/// The number of zero groups in a row from index `start` on.
pub open spec fn zero_run(g: Seq<u16>, start: int) -> int
    decreases g.len() - start,
{
    if start < 0 || start >= g.len() || g[start] != 0 {
        0
    } else {
        1 + zero_run(g, start + 1)
    }
}

/// Among the indices below `n`, the first at which the longest run of zero
/// groups starts.
pub open spec fn longest_zero_run(g: Seq<u16>, n: int) -> int
    decreases n,
{
    if n <= 1 {
        0
    } else {
        let best = longest_zero_run(g, n - 1);
        if zero_run(g, n - 1) > zero_run(g, best) {
            n - 1
        } else {
            best
        }
    }
}

/// Groups in text: lower-case hexadecimal without leading zeros, colons
/// between them.
pub open spec fn groups_text(g: Seq<u16>) -> Seq<char>
    decreases g.len(),
{
    if g.len() == 0 {
        Seq::empty()
    } else if g.len() == 1 {
        hex_text(g[0] as nat)
    } else {
        groups_text(g.drop_last()) + ":"@ + hex_text(g.last() as nat)
    }
}

/// Whether the address is an IPv4 address mapped into IPv6: `::ffff:a.b.c.d`.
pub open spec fn is_mapped(a: u128) -> bool {
    a / 0x1_0000_0000 == 0xffff
}

/// An IPv6 address in text. An IPv4-mapped address shows its last 32 bits
/// as a dotted quad. Otherwise the first longest run of two or more zero
/// groups is written as `::`.
pub open spec fn ipv6_text(a: u128) -> Seq<char> {
    if is_mapped(a) {
        "::ffff:"@ + ipv4_text((a % 0x1_0000_0000) as u32)
    } else {
        let g = address_groups(a);
        let start = longest_zero_run(g, 8);
        let len = zero_run(g, start);
        if len > 1 {
            groups_text(g.take(start)) + "::"@ + groups_text(g.skip(start + len))
        } else {
            groups_text(g)
        }
    }
}

/// An address in text.
pub open spec fn address_text(a: Address) -> Seq<char> {
    match a {
        Address::V4(a) => ipv4_text(a),
        Address::V6(a) => ipv6_text(a),
    }
}

/// The number of zero groups in a row from index `start` on.
fn run_from(g: &Vec<u16>, start: usize) -> (len: usize)
    requires
        start <= g.len(),
    ensures
        len == zero_run(g@, start as int),
        start + len <= g.len(),
{
    let mut end: usize = start;
    while end < g.len() && g[end] == 0
        invariant
            start <= end <= g.len(),
            zero_run(g@, start as int) == (end - start) + zero_run(g@, end as int),
        decreases g.len() - end,
    {
        end = end + 1;
    }
    end - start
}

/// Appends the groups from index `from` up to, not including, `to`.
fn push_groups(g: &Vec<u16>, from: usize, to: usize, out: &mut String)
    requires
        from <= to <= g.len(),
    ensures
        final(out)@ == old(out)@ + groups_text(g@.subrange(from as int, to as int)),
{
    let ghost run = g@.subrange(from as int, to as int);
    let mut i: usize = from;
    assert(run.take(0) =~= Seq::empty());
    assert(out@ =~= old(out)@ + groups_text(run.take(0)));
    while i < to
        invariant
            from <= i <= to <= g.len(),
            run == g@.subrange(from as int, to as int),
            out@ == old(out)@ + groups_text(run.take(i - from)),
        decreases to - i,
    {
        if i > from {
            out.append(":");
        }
        push_hex(out, g[i] as u32);
        proof {
            assert(run.take(i - from + 1).drop_last() =~= run.take(i - from));
            assert(out@ =~= old(out)@ + groups_text(run.take(i - from + 1)));
        }
        i = i + 1;
    }
    assert(run.take(i - from) =~= run);
}

/// Appends a dotted quad.
fn push_ipv4(a: u32, out: &mut String)
    ensures
        final(out)@ == old(out)@ + ipv4_text(a),
{
    push_decimal(out, (a / 0x100_0000) as u64);
    out.append(".");
    push_decimal(out, ((a / 0x1_0000) % 256) as u64);
    out.append(".");
    push_decimal(out, ((a / 0x100) % 256) as u64);
    out.append(".");
    push_decimal(out, (a % 256) as u64);
    assert(out@ =~= old(out)@ + ipv4_text(a));
}

/// Appends an IPv6 address.
fn push_ipv6(a: u128, out: &mut String)
    ensures
        final(out)@ == old(out)@ + ipv6_text(a),
{
    if a / 0x1_0000_0000 == 0xffff {
        out.append("::ffff:");
        push_ipv4((a % 0x1_0000_0000) as u32, out);
        assert(out@ =~= old(out)@ + ipv6_text(a));
        return ;
    }
    let mut g: Vec<u16> = Vec::new();
    g.push((a / 0x1_0000_0000_0000_0000_0000_0000_0000) as u16);
    g.push(((a / 0x1_0000_0000_0000_0000_0000_0000) % 0x1_0000) as u16);
    g.push(((a / 0x1_0000_0000_0000_0000_0000) % 0x1_0000) as u16);
    g.push(((a / 0x1_0000_0000_0000_0000) % 0x1_0000) as u16);
    g.push(((a / 0x1_0000_0000_0000) % 0x1_0000) as u16);
    g.push(((a / 0x1_0000_0000) % 0x1_0000) as u16);
    g.push(((a / 0x1_0000) % 0x1_0000) as u16);
    g.push((a % 0x1_0000) as u16);
    assert(g@ =~= address_groups(a));
    let mut start: usize = 0;
    let mut len: usize = run_from(&g, 0);
    let mut i: usize = 1;
    while i < 8
        invariant
            1 <= i <= 8,
            g.len() == 8,
            start < i,
            start == longest_zero_run(g@, i as int),
            len == zero_run(g@, start as int),
            start + len <= 8,
        decreases 8 - i,
    {
        let here = run_from(&g, i);
        if here > len {
            start = i;
            len = here;
        }
        i = i + 1;
    }
    if len > 1 {
        push_groups(&g, 0, start, out);
        out.append("::");
        push_groups(&g, start + len, 8, out);
        proof {
            assert(g@.subrange(0, start as int) =~= g@.take(start as int));
            assert(g@.subrange(start + len, 8) =~= g@.skip(start + len));
        }
    } else {
        push_groups(&g, 0, 8, out);
        assert(g@.subrange(0, 8) =~= g@);
    }
    assert(out@ =~= old(out)@ + ipv6_text(a));
}

impl Address {
    /// Appends the address in text.
    pub fn push_text(&self, out: &mut String)
        ensures
            final(out)@ == old(out)@ + address_text(*self),
    {
        match self {
            Address::V4(a) => push_ipv4(*a, out),
            Address::V6(a) => push_ipv6(*a, out),
        }
    }

    /// The address in text: a dotted quad, or the groups of an IPv6 address
    /// with its longest run of zero groups written as `::`.
    pub fn to_text(&self) -> (s: String)
        ensures
            s@ == address_text(*self),
    {
        let mut out = String::new();
        self.push_text(&mut out);
        assert(out@ =~= address_text(*self));
        out
    }
}

} // verus!
