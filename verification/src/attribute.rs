use crate::aspath::{parse_as_path, AsPath, AsPathSegmentView};
use crate::community::{community_list, Community};
use crate::error::{lemma_prepend_assoc, lemma_prepend_empty, prepend, MrtError};
use crate::ipaddrmask::Address;
use crate::reader::{be_value, Reader};
use vstd::prelude::*;

verus! {

/// A decoded BGP path attribute.
#[derive(Debug, Clone, PartialEq, Eq)]
pub enum MrtAttribute {
    /// Stands for an attribute whose type code is not decoded. The decoder
    /// drops such attributes and never returns this variant.
    Unknown,
    Origin(u8),
    AsPath(AsPath),
    NextHop(Address),
    MultiExitDisc(u32),
    LocalPref(u32),
    AtomicAggregate,
    Community(Vec<Community>),
}

/// The mathematical value of an `MrtAttribute`.
pub enum AttributeView {
    Unknown,
    Origin(u8),
    AsPath(Seq<AsPathSegmentView>),
    NextHop(Address),
    MultiExitDisc(u32),
    LocalPref(u32),
    AtomicAggregate,
    Community(Seq<Community>),
}

impl DeepView for MrtAttribute {
    type V = AttributeView;

    open spec fn deep_view(&self) -> AttributeView {
        match self {
            MrtAttribute::Unknown => AttributeView::Unknown,
            MrtAttribute::Origin(o) => AttributeView::Origin(*o),
            MrtAttribute::AsPath(p) => AttributeView::AsPath(p.deep_view()),
            MrtAttribute::NextHop(a) => AttributeView::NextHop(*a),
            MrtAttribute::MultiExitDisc(m) => AttributeView::MultiExitDisc(*m),
            MrtAttribute::LocalPref(l) => AttributeView::LocalPref(*l),
            MrtAttribute::AtomicAggregate => AttributeView::AtomicAggregate,
            MrtAttribute::Community(c) => AttributeView::Community(c@),
        }
    }
}

/// The type code that an attribute is decoded from; 0 for `Unknown`.
pub open spec fn type_code(a: AttributeView) -> u8 {
    match a {
        AttributeView::Unknown => 0,
        AttributeView::Origin(_) => 1,
        AttributeView::AsPath(_) => 2,
        AttributeView::NextHop(_) => 3,
        AttributeView::MultiExitDisc(_) => 4,
        AttributeView::LocalPref(_) => 5,
        AttributeView::AtomicAggregate => 6,
        AttributeView::Community(_) => 8,
    }
}

/// The first attribute of the list that has the given type code.
pub open spec fn first_of(attributes: Seq<AttributeView>, code: u8) -> Option<AttributeView>
    decreases attributes.len(),
{
    if attributes.len() == 0 {
        None
    } else if type_code(attributes[0]) == code {
        Some(attributes[0])
    } else {
        first_of(attributes.skip(1), code)
    }
}

/// Whether the flags byte announces a two-byte length field.
pub open spec fn extended_length(flags: u8) -> bool {
    flags & 0x10 != 0
}

/// The size of an attribute's header: flags, type code and a length field of
/// one or two bytes.
pub open spec fn header_len(flags: u8) -> int {
    if extended_length(flags) {
        4
    } else {
        3
    }
}

/// The payload length that the header at the start of `bytes` declares.
pub open spec fn declared_length(bytes: Seq<u8>) -> int {
    if extended_length(bytes[0]) {
        be_value(bytes.subrange(2, 4)) as int
    } else {
        bytes[2] as int
    }
}

/// Whether an attribute of type `code` may declare a payload of `length`
/// bytes.
pub open spec fn length_rule(code: u8, length: int) -> bool {
    if code == 1 {
        length == 1
    } else if code == 3 {
        length == 4 || length == 16
    } else if code == 4 || code == 5 {
        length == 4
    } else if code == 6 {
        length == 0
    } else if code == 8 {
        length % 4 == 0
    } else {
        true
    }
}

/// What the payload of an attribute of type `code` decodes to, given that
/// its length obeys `length_rule`: the attribute, or nothing for a type code
/// that is not decoded.
pub open spec fn attribute_value(code: u8, payload: Seq<u8>) -> Result<Seq<AttributeView>, MrtError> {
    if code == 1 {
        Ok(seq![AttributeView::Origin(payload[0])])
    } else if code == 2 {
        match parse_as_path(payload) {
            Ok(p) => Ok(seq![AttributeView::AsPath(p)]),
            Err(e) => Err(e),
        }
    } else if code == 3 {
        if payload.len() == 4 {
            Ok(seq![AttributeView::NextHop(Address::V4(be_value(payload) as u32))])
        } else {
            Ok(seq![AttributeView::NextHop(Address::V6(be_value(payload) as u128))])
        }
    } else if code == 4 {
        Ok(seq![AttributeView::MultiExitDisc(be_value(payload) as u32)])
    } else if code == 5 {
        Ok(seq![AttributeView::LocalPref(be_value(payload) as u32)])
    } else if code == 6 {
        Ok(seq![AttributeView::AtomicAggregate])
    } else if code == 8 {
        Ok(seq![AttributeView::Community(community_list(payload, payload.len() / 4))])
    } else {
        Ok(Seq::empty())
    }
}

/// What a stream of path attributes decodes to: the decoded attributes in
/// wire order, those with other type codes left out. The stream ends where
/// an attribute ends; a declared length that breaks the rule of its type
/// code is reported before the payload is looked at.
pub open spec fn parse_attributes(bytes: Seq<u8>) -> Result<Seq<AttributeView>, MrtError>
    decreases bytes.len(),
{
    if bytes.len() == 0 {
        Ok(Seq::empty())
    } else if bytes.len() < header_len(bytes[0]) {
        Err(MrtError::Truncated)
    } else {
        let code = bytes[1];
        let length = declared_length(bytes);
        let start = header_len(bytes[0]);
        if !length_rule(code, length) {
            Err(MrtError::BadAttribute { code, got_len: length as usize })
        } else if bytes.len() < start + length {
            Err(MrtError::Truncated)
        } else {
            match attribute_value(code, bytes.subrange(start, start + length)) {
                Ok(found) => prepend(found, parse_attributes(bytes.skip(start + length))),
                Err(e) => Err(e),
            }
        }
    }
}

/// Whether attributes of type `code` are decoded rather than skipped.
pub open spec fn is_decoded(code: u8) -> bool {
    1 <= code <= 6 || code == 8
}

/// The header of an attribute: flags, type code, and the length in one byte
/// or in two big-endian bytes as the flags say.
pub open spec fn attribute_header(flags: u8, code: u8, length: int) -> Seq<u8> {
    if extended_length(flags) {
        seq![flags, code, (length / 256) as u8, (length % 256) as u8]
    } else {
        seq![flags, code, length as u8]
    }
}

/// Whether `length` fits the length field that `flags` announces.
pub open spec fn length_fits(flags: u8, length: int) -> bool {
    if extended_length(flags) {
        0 <= length <= 0xffff
    } else {
        0 <= length <= 0xff
    }
}

impl MrtAttribute {
    /// The type code that the attribute is decoded from; 0 for `Unknown`.
    pub fn code(&self) -> (c: u8)
        ensures
            c == type_code(self.deep_view()),
    {
        match self {
            MrtAttribute::Unknown => 0,
            MrtAttribute::Origin(_) => 1,
            MrtAttribute::AsPath(_) => 2,
            MrtAttribute::NextHop(_) => 3,
            MrtAttribute::MultiExitDisc(_) => 4,
            MrtAttribute::LocalPref(_) => 5,
            MrtAttribute::AtomicAggregate => 6,
            MrtAttribute::Community(_) => 8,
        }
    }

    /// Decodes one attribute payload whose length obeys the rule of `code`.
    fn decode(code: u8, payload: &[u8]) -> (r: Result<Option<MrtAttribute>, MrtError>)
        requires
            length_rule(code, payload@.len() as int),
        ensures
            match r {
                Ok(Some(a)) => attribute_value(code, payload@) == Ok::<_, MrtError>(
                    seq![a.deep_view()],
                ),
                Ok(None) => attribute_value(code, payload@) == Ok::<_, MrtError>(
                    Seq::<AttributeView>::empty(),
                ),
                Err(e) => attribute_value(code, payload@) == Err::<Seq<AttributeView>, _>(e),
            },
    {
        let mut reader = Reader::new(payload);
        assert(payload@.take(payload@.len() as int) =~= payload@);
        if code == 1 {
            Ok(Some(MrtAttribute::Origin(reader.read_u8()?)))
        } else if code == 2 {
            Ok(Some(MrtAttribute::AsPath(AsPath::parse(payload)?)))
        } else if code == 3 {
            if payload.len() == 4 {
                Ok(Some(MrtAttribute::NextHop(Address::V4(reader.read_u32()?))))
            } else {
                Ok(Some(MrtAttribute::NextHop(Address::V6(reader.read_u128()?))))
            }
        } else if code == 4 {
            Ok(Some(MrtAttribute::MultiExitDisc(reader.read_u32()?)))
        } else if code == 5 {
            Ok(Some(MrtAttribute::LocalPref(reader.read_u32()?)))
        } else if code == 6 {
            Ok(Some(MrtAttribute::AtomicAggregate))
        } else if code == 8 {
            Ok(Some(MrtAttribute::Community(Community::parse(payload, payload.len() / 4)?)))
        } else {
            Ok(None)
        }
    }

    /// Decodes a stream of path attributes. Attributes with type codes that
    /// are not decoded are skipped by their declared length.
    pub fn parse(data: &[u8]) -> (r: Result<Vec<MrtAttribute>, MrtError>)
        ensures
            match r {
                Ok(attributes) => parse_attributes(data@) == Ok::<_, MrtError>(
                    attributes.deep_view(),
                ),
                Err(e) => parse_attributes(data@) == Err::<Seq<AttributeView>, _>(e),
            },
    {
        let mut reader = Reader::new(data);
        let mut attributes: Vec<MrtAttribute> = Vec::new();
        proof {
            assert(attributes.deep_view() =~= Seq::empty());
            lemma_prepend_empty(parse_attributes(data@));
        }
        while !reader.is_empty()
            invariant
                parse_attributes(data@) == prepend(
                    attributes.deep_view(),
                    parse_attributes(reader@),
                ),
            decreases reader@.len(),
        {
            let ghost bytes = reader@;
            let ghost done = attributes.deep_view();
            let flags = reader.read_u8()?;
            let code = reader.read_u8()?;
            assert(reader@ =~= bytes.skip(2));
            let length: usize = if flags & 0x10 != 0 {
                let wide = reader.read_u16()?;
                assert(bytes.skip(2).take(2) =~= bytes.subrange(2, 4));
                wide as usize
            } else {
                reader.read_u8()? as usize
            };
            assert(length == declared_length(bytes));
            assert(reader@ =~= bytes.skip(header_len(flags)));
            if !Self::obeys_length_rule(code, length) {
                return Err(MrtError::BadAttribute { code, got_len: length });
            }
            let payload = reader.read_exact(length)?;
            assert(payload@ =~= bytes.subrange(header_len(flags), header_len(flags) + length));
            assert(reader@ =~= bytes.skip(header_len(flags) + length));
            let decoded = Self::decode(code, payload)?;
            proof {
                lemma_prepend_assoc(
                    done,
                    attribute_value(code, payload@)->Ok_0,
                    parse_attributes(reader@),
                );
            }
            match decoded {
                Some(attribute) => {
                    attributes.push(attribute);
                    assert(attributes.deep_view() =~= done + seq![attribute.deep_view()]);
                },
                None => {
                    assert(done + Seq::<AttributeView>::empty() =~= done);
                },
            }
        }
        proof {
            assert(attributes.deep_view() + Seq::<AttributeView>::empty()
                =~= attributes.deep_view());
        }
        Ok(attributes)
    }

    /// Whether an attribute of type `code` may declare `length` payload bytes.
    fn obeys_length_rule(code: u8, length: usize) -> (b: bool)
        ensures
            b == length_rule(code, length as int),
    {
        if code == 1 {
            length == 1
        } else if code == 3 {
            length == 4 || length == 16
        } else if code == 4 || code == 5 {
            length == 4
        } else if code == 6 {
            length == 0
        } else if code == 8 {
            length % 4 == 0
        } else {
            true
        }
    }
}

/// A stream that starts with the header for `length` payload bytes shows
/// that header's fields, and the payload starts right behind it.
pub proof fn lemma_header_fields(flags: u8, code: u8, length: int, tail: Seq<u8>)
    requires
        length_fits(flags, length),
    ensures
        ({
            let bytes = attribute_header(flags, code, length) + tail;
            &&& bytes.len() >= header_len(flags)
            &&& bytes[0] == flags
            &&& bytes[1] == code
            &&& declared_length(bytes) == length
            &&& bytes.skip(header_len(flags)) == tail
        }),
{
    let bytes = attribute_header(flags, code, length) + tail;
    assert(bytes.skip(header_len(flags)) =~= tail);
    if extended_length(flags) {
        let field = bytes.subrange(2, 4);
        assert(field.drop_last() =~= seq![(length / 256) as u8]);
        assert(field.drop_last().drop_last() =~= Seq::<u8>::empty());
        reveal_with_fuel(be_value, 3);
        assert(be_value(field) == (length / 256) * 256 + length % 256);
    }
}

/// Decoding a stream that continues behind whole attributes: what the
/// attributes in front decode to, followed by what the rest decodes to.
#[verifier::rlimit(40)]
pub proof fn lemma_parse_attributes_split(front: Seq<u8>, rest: Seq<u8>)
    requires
        parse_attributes(front) is Ok,
    ensures
        parse_attributes(front + rest) == prepend(
            parse_attributes(front)->Ok_0,
            parse_attributes(rest),
        ),
    decreases front.len(),
{
    if front.len() == 0 {
        assert(front + rest =~= rest);
        lemma_prepend_empty(parse_attributes(rest));
    } else {
        let all = front + rest;
        let start = header_len(front[0]);
        let length = declared_length(front);
        let next = start + length;
        assert(all[0] == front[0] && all[1] == front[1]);
        if extended_length(front[0]) {
            assert(all.subrange(2, 4) =~= front.subrange(2, 4));
        } else {
            assert(all[2] == front[2]);
        }
        assert(all.subrange(start, next) =~= front.subrange(start, next));
        assert(all.skip(next) =~= front.skip(next) + rest);
        let found = attribute_value(front[1], front.subrange(start, next))->Ok_0;
        lemma_parse_attributes_split(front.skip(next), rest);
        lemma_prepend_assoc(
            found,
            parse_attributes(front.skip(next))->Ok_0,
            parse_attributes(rest),
        );
    }
}

/// A stream that starts with an attribute whose type code is not decoded
/// decodes as what follows that attribute.
proof fn lemma_unknown_attribute_first(flags: u8, code: u8, payload: Seq<u8>, after: Seq<u8>)
    requires
        !is_decoded(code),
        length_fits(flags, payload.len() as int),
    ensures
        parse_attributes(attribute_header(flags, code, payload.len() as int) + payload + after)
            == parse_attributes(after),
{
    let header = attribute_header(flags, code, payload.len() as int);
    let planted = header + payload + after;
    let start = header_len(flags);
    lemma_header_fields(flags, code, payload.len() as int, payload + after);
    assert(planted =~= header + (payload + after));
    assert(planted.subrange(start, start + payload.len()) =~= payload);
    assert(planted.skip(start + payload.len()) =~= after);
    assert(attribute_value(code, payload) == Ok::<_, MrtError>(Seq::<AttributeView>::empty()));
    lemma_prepend_empty(parse_attributes(after));
}

/// An attribute with a type code that is not decoded, whatever its flags and
/// payload, leaves no trace: the attributes before and behind it decode as if
/// it were not there.
pub proof fn lemma_unknown_attribute_skipped(
    before: Seq<u8>,
    flags: u8,
    code: u8,
    payload: Seq<u8>,
    after: Seq<u8>,
)
    requires
        parse_attributes(before) is Ok,
        !is_decoded(code),
        length_fits(flags, payload.len() as int),
    ensures
        parse_attributes(
            before + (attribute_header(flags, code, payload.len() as int) + payload + after),
        ) == parse_attributes(before + after),
{
    let planted = attribute_header(flags, code, payload.len() as int) + payload + after;
    lemma_unknown_attribute_first(flags, code, payload, after);
    lemma_parse_attributes_split(before, planted);
    lemma_parse_attributes_split(before, after);
}

/// A declared length that breaks the rule of its type code fails the whole
/// stream with `BadAttribute`, naming the code and the length, whatever
/// follows the header; nothing behind it is decoded.
pub proof fn lemma_length_rule_enforced(
    before: Seq<u8>,
    flags: u8,
    code: u8,
    length: int,
    rest: Seq<u8>,
)
    requires
        parse_attributes(before) is Ok,
        length_fits(flags, length),
        !length_rule(code, length),
    ensures
        parse_attributes(before + (attribute_header(flags, code, length) + rest)) == Err::<
            Seq<AttributeView>,
            _,
        >(MrtError::BadAttribute { code, got_len: length as usize }),
{
    let planted = attribute_header(flags, code, length) + rest;
    lemma_header_fields(flags, code, length, rest);
    lemma_parse_attributes_split(before, planted);
}

} // verus!
