use crate::error::{lemma_prepend_assoc, lemma_prepend_empty, prepend, MrtError};
use crate::reader::{be_value, Reader};
use crate::text::{
    chars_of, decimal_text, is_digit, lemma_decimal_text_value,
    lemma_number_round_trip, lemma_split_more, lemma_split_one, number, parse_number,
    push_decimal, split, split_at,
};
use vstd::string::StringExecFns;
use vstd::prelude::*;

verus! {

/// One segment of an AS_PATH: an AS_SEQUENCE when `ordered`, an AS_SET
/// otherwise. The ASNs keep their wire order in both cases.
#[derive(Debug, Clone, PartialEq, Eq)]
pub struct AsPathSegment {
    pub ordered: bool,
    pub asns: Vec<u32>,
}

/// The segments of an AS_PATH attribute, in wire order.
#[derive(Debug, Clone, PartialEq, Eq)]
pub struct AsPath {
    pub aspath_segments: Vec<AsPathSegment>,
}

/// The mathematical value of an `AsPathSegment`.
pub struct AsPathSegmentView {
    pub ordered: bool,
    pub asns: Seq<u32>,
}

impl DeepView for AsPathSegment {
    type V = AsPathSegmentView;

    open spec fn deep_view(&self) -> AsPathSegmentView {
        AsPathSegmentView { ordered: self.ordered, asns: self.asns@ }
    }
}

impl DeepView for AsPath {
    type V = Seq<AsPathSegmentView>;

    open spec fn deep_view(&self) -> Seq<AsPathSegmentView> {
        self.aspath_segments.deep_view()
    }
}

/// The first `count` big-endian 32-bit numbers of `bytes`.
pub open spec fn asn_list(bytes: Seq<u8>, count: nat) -> Seq<u32> {
    Seq::new(count, |i: int| be_value(bytes.subrange(4 * i, 4 * i + 4)) as u32)
}

/// What an AS_PATH payload decodes to. Each segment is a type byte (1 for
/// AS_SET, 2 for AS_SEQUENCE), a count byte and `count` four-byte ASNs; the
/// payload ends where a segment ends.
pub open spec fn parse_as_path(bytes: Seq<u8>) -> Result<Seq<AsPathSegmentView>, MrtError>
    decreases bytes.len(),
{
    if bytes.len() == 0 {
        Ok(Seq::empty())
    } else if bytes[0] != 1 && bytes[0] != 2 {
        Err(MrtError::BadAsPathSegment { segment_type: bytes[0] })
    } else if bytes.len() < 2 || bytes.len() < 2 + 4 * bytes[1] {
        Err(MrtError::Truncated)
    } else {
        let segment = AsPathSegmentView {
            ordered: bytes[0] == 2,
            asns: asn_list(bytes.skip(2), bytes[1] as nat),
        };
        prepend(seq![segment], parse_as_path(bytes.skip(2 + 4 * bytes[1])))
    }
}

/// Whether some segment of the path lists `asn`.
pub open spec fn path_contains(path: Seq<AsPathSegmentView>, asn: u32) -> bool {
    exists|i: int| 0 <= i < path.len() && #[trigger] path[i].asns.contains(asn)
}

impl AsPath {
    /// The path without segments.
    pub fn new() -> (p: AsPath)
        ensures
            p.deep_view() == Seq::<AsPathSegmentView>::empty(),
    {
        let p = AsPath { aspath_segments: Vec::new() };
        assert(p.deep_view() =~= Seq::<AsPathSegmentView>::empty());
        p
    }

    /// Decodes an AS_PATH payload with four-byte ASNs.
    pub fn parse(data: &[u8]) -> (r: Result<AsPath, MrtError>)
        ensures
            match r {
                Ok(p) => parse_as_path(data@) == Ok::<_, MrtError>(p.deep_view()),
                Err(e) => parse_as_path(data@) == Err::<Seq<AsPathSegmentView>, _>(e),
            },
    {
        let mut reader = Reader::new(data);
        let mut aspath_segments: Vec<AsPathSegment> = Vec::new();
        proof {
            assert(aspath_segments.deep_view() =~= Seq::empty());
            lemma_prepend_empty(parse_as_path(data@));
        }
        while !reader.is_empty()
            invariant
                parse_as_path(data@) == prepend(
                    aspath_segments.deep_view(),
                    parse_as_path(reader@),
                ),
            decreases reader@.len(),
        {
            let ghost bytes = reader@;
            let ghost done = aspath_segments.deep_view();
            let segment_type = reader.read_u8()?;
            if segment_type != 1 && segment_type != 2 {
                return Err(MrtError::BadAsPathSegment { segment_type });
            }
            let length = reader.read_u8()?;
            assert(reader@ =~= bytes.skip(2));
            if reader.remaining() / 4 < length as usize {
                return Err(MrtError::Truncated);
            }
            let mut asns: Vec<u32> = Vec::new();
            let mut i: u8 = 0;
            while i < length
                invariant
                    i <= length,
                    bytes.len() >= 2 + 4 * length,
                    reader@ == bytes.skip(2 + 4 * i),
                    asns@ == asn_list(bytes.skip(2), i as nat),
                decreases length - i,
            {
                let ghost before = reader@;
                let asn = reader.read_u32()?;
                proof {
                    assert(before.take(4) =~= bytes.skip(2).subrange(4 * i, 4 * i + 4));
                    assert(reader@ =~= bytes.skip(2 + 4 * (i + 1)));
                    assert(asns@.push(asn) =~= asn_list(bytes.skip(2), (i + 1) as nat));
                }
                asns.push(asn);
                i = i + 1;
            }
            let segment = AsPathSegment { ordered: segment_type == 2, asns };
            proof {
                lemma_prepend_assoc(
                    done,
                    seq![segment.deep_view()],
                    parse_as_path(bytes.skip(2 + 4 * length)),
                );
            }
            aspath_segments.push(segment);
            assert(aspath_segments.deep_view() =~= done + seq![segment.deep_view()]);
        }
        proof {
            assert(aspath_segments.deep_view() + Seq::<AsPathSegmentView>::empty()
                =~= aspath_segments.deep_view());
        }
        Ok(AsPath { aspath_segments })
    }

    /// Whether some segment of the path lists `asn`.
    pub fn contains(&self, asn: u32) -> (b: bool)
        ensures
            b == path_contains(self.deep_view(), asn),
    {
        let mut i: usize = 0;
        while i < self.aspath_segments.len()
            invariant
                i <= self.aspath_segments.len(),
                forall|k: int| 0 <= k < i ==> !(#[trigger] self.deep_view()[k]).asns.contains(asn),
            decreases self.aspath_segments.len() - i,
        {
            let segment = &self.aspath_segments[i];
            let mut j: usize = 0;
            while j < segment.asns.len()
                invariant
                    j <= segment.asns.len(),
                    i < self.aspath_segments.len(),
                    segment == self.aspath_segments[i as int],
                    forall|k: int| 0 <= k < j ==> segment.asns[k] != asn,
                decreases segment.asns.len() - j,
            {
                if segment.asns[j] == asn {
                    assert(self.deep_view()[i as int].asns[j as int] == asn);
                    assert(self.deep_view()[i as int].asns.contains(asn));
                    return true;
                }
                j = j + 1;
            }
            assert(self.deep_view()[i as int].asns == segment.asns@);
            i = i + 1;
        }
        false
    }
}

/// The four bytes of a 32-bit number, most significant first.
pub open spec fn u32_bytes(v: u32) -> Seq<u8> {
    seq![
        (v / 0x100_0000) as u8,
        ((v / 0x1_0000) % 256) as u8,
        ((v / 0x100) % 256) as u8,
        (v % 256) as u8,
    ]
}

/// The wire form of a list of ASNs: four bytes each.
pub open spec fn asn_bytes(asns: Seq<u32>) -> Seq<u8>
    decreases asns.len(),
{
    if asns.len() == 0 {
        Seq::empty()
    } else {
        asn_bytes(asns.drop_last()) + u32_bytes(asns.last())
    }
}

/// The wire form of a segment: type, count, ASNs.
pub open spec fn segment_bytes(segment: AsPathSegmentView) -> Seq<u8> {
    seq![
        if segment.ordered {
            2u8
        } else {
            1u8
        },
        segment.asns.len() as u8,
    ] + asn_bytes(segment.asns)
}

/// The wire form of an AS_PATH: its segments one after the other.
pub open spec fn as_path_bytes(path: Seq<AsPathSegmentView>) -> Seq<u8>
    decreases path.len(),
{
    if path.len() == 0 {
        Seq::empty()
    } else {
        segment_bytes(path[0]) + as_path_bytes(path.skip(1))
    }
}

/// The four bytes of a number denote that number.
proof fn lemma_u32_bytes_value(v: u32)
    ensures
        be_value(u32_bytes(v)) == v,
{
    let b = u32_bytes(v);
    let b3 = b.drop_last();
    let b2 = b3.drop_last();
    let b1 = b2.drop_last();
    assert(b1.drop_last().len() == 0);
    reveal_with_fuel(be_value, 5);
    assert(be_value(b1) == b[0]);
    assert(be_value(b2) == b[0] * 256 + b[1]);
    assert(be_value(b3) == (b[0] * 256 + b[1]) * 256 + b[2]);
    assert(be_value(b) == ((b[0] * 256 + b[1]) * 256 + b[2]) * 256 + b[3]);
}

/// The wire form of a list of ASNs decodes to that list, whatever follows.
proof fn lemma_asn_bytes_decode(asns: Seq<u32>, rest: Seq<u8>)
    ensures
        asn_bytes(asns).len() == 4 * asns.len(),
        asn_list(asn_bytes(asns) + rest, asns.len()) == asns,
    decreases asns.len(),
{
    if asns.len() == 0 {
        assert(asn_list(asn_bytes(asns) + rest, 0) =~= asns);
    } else {
        let front = asns.drop_last();
        let tail = u32_bytes(asns.last()) + rest;
        lemma_asn_bytes_decode(front, tail);
        lemma_u32_bytes_value(asns.last());
        let all = asn_bytes(asns) + rest;
        assert(all =~= asn_bytes(front) + tail);
        let n = front.len() as int;
        assert(all.subrange(4 * n, 4 * n + 4) =~= u32_bytes(asns.last()));
        assert forall|i: int| 0 <= i < asns.len() implies asn_list(all, asns.len())[i]
            == asns[i] by {
            if i < n {
                assert(asn_list(all, front.len())[i] == front[i]);
            }
        }
        assert(asn_list(all, asns.len()) =~= asns);
    }
}

/// Decoding inverts encoding: the wire form of any path whose segments hold
/// at most 255 ASNs each decodes to that path, with the kind of every
/// segment and the order of its ASNs as they were.
pub proof fn lemma_as_path_round_trip(path: Seq<AsPathSegmentView>)
    requires
        forall|i: int| 0 <= i < path.len() ==> (#[trigger] path[i]).asns.len() <= 255,
    ensures
        parse_as_path(as_path_bytes(path)) == Ok::<_, MrtError>(path),
    decreases path.len(),
{
    if path.len() > 0 {
        let first = path[0];
        let rest = path.skip(1);
        let tail = as_path_bytes(rest);
        let bytes = as_path_bytes(path);
        assert forall|i: int| 0 <= i < rest.len() implies (#[trigger] rest[i]).asns.len()
            <= 255 by {
            assert(rest[i] == path[i + 1]);
        }
        lemma_as_path_round_trip(rest);
        lemma_asn_bytes_decode(first.asns, tail);
        let count = first.asns.len() as int;
        assert(bytes == segment_bytes(first) + tail);
        assert(bytes[0] == if first.ordered { 2u8 } else { 1u8 });
        assert(bytes[1] == count);
        assert(bytes.len() == 2 + 4 * count + tail.len());
        assert(bytes.skip(2) =~= asn_bytes(first.asns) + tail);
        assert(bytes.skip(2 + 4 * count) =~= tail);
        let segment = AsPathSegmentView {
            ordered: bytes[0] == 2,
            asns: asn_list(bytes.skip(2), bytes[1] as nat),
        };
        assert(segment == first);
        assert(seq![first] + rest =~= path);
    } else {
        assert(path =~= Seq::<AsPathSegmentView>::empty());
    }
}

/// A list of ASNs in text: base ten, one space between two of them.
pub open spec fn asns_text(asns: Seq<u32>) -> Seq<char>
    decreases asns.len(),
{
    if asns.len() == 0 {
        Seq::empty()
    } else if asns.len() == 1 {
        decimal_text(asns[0] as nat)
    } else {
        asns_text(asns.drop_last()) + " "@ + decimal_text(asns.last() as nat)
    }
}

/// A segment in text: its ASNs, in braces where the segment is an AS_SET.
pub open spec fn segment_text(segment: AsPathSegmentView) -> Seq<char> {
    if segment.ordered {
        asns_text(segment.asns)
    } else {
        "{"@ + asns_text(segment.asns) + "}"@
    }
}

/// An AS_PATH in text: its segments, one space between two of them.
pub open spec fn path_text(path: Seq<AsPathSegmentView>) -> Seq<char>
    decreases path.len(),
{
    if path.len() == 0 {
        Seq::empty()
    } else if path.len() == 1 {
        segment_text(path[0])
    } else {
        path_text(path.drop_last()) + " "@ + segment_text(path.last())
    }
}

impl AsPathSegment {
    /// Appends the segment in text.
    pub fn push_text(&self, out: &mut String)
        ensures
            final(out)@ == old(out)@ + segment_text(self.deep_view()),
    {
        if !self.ordered {
            out.append("{");
        }
        let ghost base = out@;
        let mut i: usize = 0;
        assert(self.asns@.take(0) =~= Seq::empty());
        assert(out@ =~= base + asns_text(self.asns@.take(0)));
        while i < self.asns.len()
            invariant
                i <= self.asns.len(),
                out@ == base + asns_text(self.asns@.take(i as int)),
            decreases self.asns.len() - i,
        {
            if i > 0 {
                out.append(" ");
            }
            push_decimal(out, self.asns[i] as u64);
            proof {
                assert(self.asns@.take(i + 1).drop_last() =~= self.asns@.take(i as int));
                assert(out@ =~= base + asns_text(self.asns@.take(i + 1)));
            }
            i = i + 1;
        }
        assert(self.asns@.take(i as int) =~= self.asns@);
        if !self.ordered {
            out.append("}");
        }
        assert(out@ =~= old(out)@ + segment_text(self.deep_view()));
    }
}

impl AsPath {
    /// Appends the path in text.
    pub fn push_text(&self, out: &mut String)
        ensures
            final(out)@ == old(out)@ + path_text(self.deep_view()),
    {
        let ghost path = self.deep_view();
        let mut i: usize = 0;
        assert(path.take(0) =~= Seq::empty());
        assert(out@ =~= old(out)@ + path_text(path.take(0)));
        while i < self.aspath_segments.len()
            invariant
                i <= self.aspath_segments.len(),
                path == self.deep_view(),
                out@ == old(out)@ + path_text(path.take(i as int)),
            decreases self.aspath_segments.len() - i,
        {
            if i > 0 {
                out.append(" ");
            }
            self.aspath_segments[i].push_text(out);
            proof {
                assert(path.take(i + 1).drop_last() =~= path.take(i as int));
                assert(path.take(i + 1).last() == self.aspath_segments[i as int].deep_view());
                assert(out@ =~= old(out)@ + path_text(path.take(i + 1)));
            }
            i = i + 1;
        }
        assert(path.take(i as int) =~= path);
    }

    /// The path in text: ASNs in base ten with one space between two, the
    /// ASNs of an AS_SET in braces.
    pub fn to_text(&self) -> (s: String)
        ensures
            s@ == path_text(self.deep_view()),
    {
        let mut out = String::new();
        self.push_text(&mut out);
        assert(out@ =~= path_text(self.deep_view()));
        out
    }
}

/// The ASNs that a list of texts denotes, each an unsigned number of at most
/// 32 bits.
pub open spec fn read_asns(tokens: Seq<Seq<char>>) -> Option<Seq<u32>>
    decreases tokens.len(),
{
    if tokens.len() == 0 {
        Some(Seq::empty())
    } else {
        match (read_asns(tokens.drop_last()), parse_number(tokens.last(), 0xffff_ffff)) {
            (Some(front), Some(asn)) => Some(front.push(asn as u32)),
            _ => None,
        }
    }
}

/// What `text` denotes as an AS_PATH without AS_SETs: the empty text is the
/// path without segments; ASNs with one space between two of them are a
/// path of one AS_SEQUENCE.
pub open spec fn read_path(text: Seq<char>) -> Option<Seq<AsPathSegmentView>> {
    if text.len() == 0 {
        Some(Seq::empty())
    } else {
        match read_asns(split(text, ' ')) {
            Some(asns) => Some(seq![AsPathSegmentView { ordered: true, asns }]),
            None => None,
        }
    }
}

impl AsPath {
    /// Reads a path without AS_SETs from text such as `65000 65001`. The
    /// empty text gives the path without segments; any other text gives one
    /// AS_SEQUENCE, or nothing where it is not a list of ASNs with single
    /// spaces between them.
    #[verifier::loop_isolation(false)]
    pub fn from_text(s: &str) -> (r: Option<AsPath>)
        ensures
            match r {
                Some(p) => read_path(s@) == Some(p.deep_view()),
                None => read_path(s@) is None,
            },
    {
        let chars = chars_of(s);
        if chars.len() == 0 {
            return Some(AsPath::new());
        }
        let tokens = split_at(chars.as_slice(), ' ');
        let ghost texts = tokens.deep_view();
        let mut asns: Vec<u32> = Vec::new();
        let mut i: usize = 0;
        assert(texts.take(0) =~= Seq::empty());
        while i < tokens.len()
            invariant
                i <= tokens.len(),
                texts == tokens.deep_view(),
                read_asns(texts.take(i as int)) == Some(asns@),
            decreases tokens.len() - i,
        {
            proof {
                assert(texts.take(i + 1).drop_last() =~= texts.take(i as int));
                assert(texts.take(i + 1).last() =~= tokens[i as int]@);
            }
            match number(tokens[i].as_slice(), 0xffff_ffff) {
                Some(asn) => {
                    asns.push(asn);
                },
                None => {
                    proof {
                        lemma_read_asns_front(texts, i + 1);
                    }
                    return None;
                },
            }
            i = i + 1;
        }
        assert(texts.take(i as int) =~= texts);
        let path = AsPath { aspath_segments: vec![AsPathSegment { ordered: true, asns }] };
        assert(path.deep_view() =~= seq![AsPathSegmentView { ordered: true, asns: asns@ }]);
        Some(path)
    }
}

/// Where the first texts denote no ASNs, all of them denote none.
proof fn lemma_read_asns_front(tokens: Seq<Seq<char>>, n: int)
    requires
        0 <= n <= tokens.len(),
        read_asns(tokens.take(n)) is None,
    ensures
        read_asns(tokens) is None,
    decreases tokens.len(),
{
    if n < tokens.len() {
        assert(tokens.drop_last().take(n) =~= tokens.take(n));
        lemma_read_asns_front(tokens.drop_last(), n);
    } else {
        assert(tokens.take(n) =~= tokens);
    }
}

/// The texts of a list of ASNs.
pub open spec fn asn_tokens(asns: Seq<u32>) -> Seq<Seq<char>>
    decreases asns.len(),
{
    if asns.len() == 0 {
        Seq::empty()
    } else {
        asn_tokens(asns.drop_last()).push(decimal_text(asns.last() as nat))
    }
}

/// The text of a list of ASNs falls into the texts of the ASNs, which
/// denote the list.
proof fn lemma_asns_text_tokens(asns: Seq<u32>)
    requires
        asns.len() >= 1,
    ensures
        asns_text(asns).len() >= 1,
        split(asns_text(asns), ' ') == asn_tokens(asns),
        read_asns(asn_tokens(asns)) == Some(asns),
    decreases asns.len(),
{
    let last = decimal_text(asns.last() as nat);
    lemma_decimal_text_value(asns.last() as nat);
    lemma_number_round_trip(asns.last() as nat, 0xffff_ffff);
    assert forall|i: int| 0 <= i < last.len() implies last[i] != ' ' by {
        assert(is_digit(last[i]));
    }
    let front = asns.drop_last();
    assert(front.push(asns.last()) =~= asns);
    if asns.len() == 1 {
        lemma_split_one(last, ' ');
        assert(asn_tokens(front) =~= Seq::<Seq<char>>::empty());
        assert(asn_tokens(asns) =~= seq![last]);
        assert(asn_tokens(asns).drop_last() =~= Seq::<Seq<char>>::empty());
    } else {
        lemma_asns_text_tokens(front);
        reveal_strlit(" ");
        assert(" "@ =~= seq![' ']);
        lemma_split_more(asns_text(front), ' ', last);
        assert(asn_tokens(asns).drop_last() =~= asn_tokens(front));
    }
}

/// Reading inverts display for a path that display does not alter: a path
/// without AS_SETs that is empty or is one AS_SEQUENCE of at least one ASN
/// reads back from its text as itself, ASNs in their order. (The text of a
/// longer path runs its segments together, and the text of an empty segment
/// is empty.)
pub proof fn lemma_path_text_round_trip(path: Seq<AsPathSegmentView>)
    requires
        path.len() <= 1,
        forall|i: int| 0 <= i < path.len() ==> (#[trigger] path[i]).ordered && path[i].asns.len() >= 1,
    ensures
        read_path(path_text(path)) == Some(path),
{
    if path.len() == 0 {
        assert(path =~= Seq::<AsPathSegmentView>::empty());
    } else {
        lemma_asns_text_tokens(path[0].asns);
        assert(seq![AsPathSegmentView { ordered: true, asns: path[0].asns }] =~= path);
    }
}

} // verus!
