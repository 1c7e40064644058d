use crate::error::MrtError;
use crate::peer::{
    parse_peer_index_table, table_text, MrtPeer, MrtPeerIndexTable, PeerIndexTableView,
};
use crate::reader::{be_value, Reader};
use crate::rib::{nlri_text, parse_nlri, MrtNlri, NlriView};
use crate::text::{decimal_text, push_decimal};
use time::OffsetDateTime;
use vstd::string::StringExecFns;
use vstd::prelude::*;
use vstd::slice::slice_subrange;

verus! {

/// The MRT type of TABLE_DUMP_V2 records.
pub const TABLE_DUMP_V2: u16 = 13;

/// The TABLE_DUMP_V2 subtype of a peer index table.
pub const PEER_INDEX_TABLE: u16 = 1;

/// The TABLE_DUMP_V2 subtype of an IPv4 unicast RIB record.
pub const RIB_IPV4_UNICAST: u16 = 2;

/// The TABLE_DUMP_V2 subtype of an IPv6 unicast RIB record.
pub const RIB_IPV6_UNICAST: u16 = 4;

/// The size of the MRT common header.
pub const HEADER_LEN: usize = 12;

/// One MRT record: the fields of the common header and the decoded payload.
#[derive(Debug, Clone, PartialEq, Eq)]
pub struct Mrt {
    pub timestamp: u32,
    pub mrt_type: u16,
    pub mrt_subtype: u16,
    pub length: u32,
    pub data: MrtRecord,
}

/// The payload of an MRT record. Only the peer index table and the two
/// unicast RIB records are decoded; every other record is `RibGeneric`.
#[derive(Debug, Clone, PartialEq, Eq)]
pub enum MrtRecord {
    PeerIndexTable(MrtPeerIndexTable),
    RibIpv4Unicast(MrtNlri),
    RibIpv4Multicast,
    RibIpv6Unicast(MrtNlri),
    RibIpv6Multicast,
    RibGeneric,
}

/// The mathematical value of an `MrtRecord`.
pub enum RecordView {
    PeerIndexTable(PeerIndexTableView),
    RibIpv4Unicast(NlriView),
    RibIpv4Multicast,
    RibIpv6Unicast(NlriView),
    RibIpv6Multicast,
    RibGeneric,
}

/// The mathematical value of an `Mrt`.
pub struct MrtView {
    pub timestamp: u32,
    pub mrt_type: u16,
    pub mrt_subtype: u16,
    pub length: u32,
    pub data: RecordView,
}

impl DeepView for MrtRecord {
    type V = RecordView;

    open spec fn deep_view(&self) -> RecordView {
        match self {
            MrtRecord::PeerIndexTable(t) => RecordView::PeerIndexTable(t.deep_view()),
            MrtRecord::RibIpv4Unicast(n) => RecordView::RibIpv4Unicast(n.deep_view()),
            MrtRecord::RibIpv4Multicast => RecordView::RibIpv4Multicast,
            MrtRecord::RibIpv6Unicast(n) => RecordView::RibIpv6Unicast(n.deep_view()),
            MrtRecord::RibIpv6Multicast => RecordView::RibIpv6Multicast,
            MrtRecord::RibGeneric => RecordView::RibGeneric,
        }
    }
}

impl DeepView for Mrt {
    type V = MrtView;

    open spec fn deep_view(&self) -> MrtView {
        MrtView {
            timestamp: self.timestamp,
            mrt_type: self.mrt_type,
            mrt_subtype: self.mrt_subtype,
            length: self.length,
            data: self.data.deep_view(),
        }
    }
}

/// The size of the record at the start of `bytes`: the common header and the
/// payload length that it declares.
pub open spec fn record_len(bytes: Seq<u8>) -> int {
    12 + be_value(bytes.subrange(8, 12)) as int
}

/// What a payload decodes to under the given type and subtype.
pub open spec fn parse_record(
    mrt_type: u16,
    mrt_subtype: u16,
    payload: Seq<u8>,
    peers: Seq<MrtPeer>,
) -> Result<RecordView, MrtError> {
    if mrt_type == 13 && mrt_subtype == 1 {
        match parse_peer_index_table(payload) {
            Ok(t) => Ok(RecordView::PeerIndexTable(t)),
            Err(e) => Err(e),
        }
    } else if mrt_type == 13 && mrt_subtype == 2 {
        match parse_nlri(payload, false, peers) {
            Ok(n) => Ok(RecordView::RibIpv4Unicast(n)),
            Err(e) => Err(e),
        }
    } else if mrt_type == 13 && mrt_subtype == 4 {
        match parse_nlri(payload, true, peers) {
            Ok(n) => Ok(RecordView::RibIpv6Unicast(n)),
            Err(e) => Err(e),
        }
    } else {
        Ok(RecordView::RibGeneric)
    }
}

/// What the record at the start of `bytes` decodes to: a twelve-byte header
/// of timestamp, type, subtype and length, then exactly `length` bytes of
/// payload. The input is `Truncated` when it ends before the record does.
pub open spec fn parse_mrt(bytes: Seq<u8>, peers: Seq<MrtPeer>) -> Result<MrtView, MrtError> {
    if bytes.len() < 12 || bytes.len() < record_len(bytes) {
        Err(MrtError::Truncated)
    } else {
        let mrt_type = be_value(bytes.subrange(4, 6)) as u16;
        let mrt_subtype = be_value(bytes.subrange(6, 8)) as u16;
        match parse_record(mrt_type, mrt_subtype, bytes.subrange(12, record_len(bytes)), peers) {
            Ok(data) => Ok(
                MrtView {
                    timestamp: be_value(bytes.subrange(0, 4)) as u32,
                    mrt_type,
                    mrt_subtype,
                    length: be_value(bytes.subrange(8, 12)) as u32,
                    data,
                },
            ),
            Err(e) => Err(e),
        }
    }
}

impl MrtRecord {
    /// Decodes a payload under the given type and subtype. RIB entries look
    /// their peers up in `peers`.
    pub fn parse(mrt_type: u16, mrt_subtype: u16, payload: &[u8], peers: &MrtPeerIndexTable) -> (r:
        Result<MrtRecord, MrtError>)
        ensures
            match r {
                Ok(data) => parse_record(mrt_type, mrt_subtype, payload@, peers.peers@) == Ok::<
                    _,
                    MrtError,
                >(data.deep_view()),
                Err(e) => parse_record(mrt_type, mrt_subtype, payload@, peers.peers@) == Err::<
                    RecordView,
                    _,
                >(e),
            },
    {
        if mrt_type == TABLE_DUMP_V2 && mrt_subtype == PEER_INDEX_TABLE {
            Ok(MrtRecord::PeerIndexTable(MrtPeerIndexTable::parse(payload)?))
        } else if mrt_type == TABLE_DUMP_V2 && mrt_subtype == RIB_IPV4_UNICAST {
            Ok(MrtRecord::RibIpv4Unicast(MrtNlri::parse_v4(payload, peers)?))
        } else if mrt_type == TABLE_DUMP_V2 && mrt_subtype == RIB_IPV6_UNICAST {
            Ok(MrtRecord::RibIpv6Unicast(MrtNlri::parse_v6(payload, peers)?))
        } else {
            Ok(MrtRecord::RibGeneric)
        }
    }
}

impl Mrt {
    /// Decodes the record at the reader's position and moves the reader
    /// behind it. On failure the reader stays at the start of the record.
    pub fn parse(reader: &mut Reader, peers: &MrtPeerIndexTable) -> (r: Result<Mrt, MrtError>)
        ensures
            match r {
                Ok(mrt) => parse_mrt(old(reader)@, peers.peers@) == Ok::<_, MrtError>(
                    mrt.deep_view(),
                ) && old(reader).advanced(*final(reader), record_len(old(reader)@) as nat),
                Err(e) => parse_mrt(old(reader)@, peers.peers@) == Err::<MrtView, _>(e) && *final(reader) == *old(reader),
            },
    {
        let ghost bytes = reader@;
        let header = reader.peek(HEADER_LEN)?;
        let mut fields = Reader::new(header);
        let timestamp = fields.read_u32()?;
        let mrt_type = fields.read_u16()?;
        let mrt_subtype = fields.read_u16()?;
        let length = fields.read_u32()?;
        proof {
            assert(header@.take(4) =~= bytes.subrange(0, 4));
            assert(header@.skip(4).take(2) =~= bytes.subrange(4, 6));
            assert(header@.skip(4).skip(2).take(2) =~= bytes.subrange(6, 8));
            assert(header@.skip(4).skip(2).skip(2).take(4) =~= bytes.subrange(8, 12));
        }
        if reader.remaining() - HEADER_LEN < length as usize {
            return Err(MrtError::Truncated);
        }
        let whole = reader.peek(HEADER_LEN + length as usize)?;
        let payload = slice_subrange(whole, HEADER_LEN, HEADER_LEN + length as usize);
        assert(payload@ =~= bytes.subrange(12, record_len(bytes)));
        let data = MrtRecord::parse(mrt_type, mrt_subtype, payload, peers)?;
        reader.consume(HEADER_LEN + length as usize)?;
        Ok(Mrt { timestamp, mrt_type, mrt_subtype, length, data })
    }
}

/// The date and time, in UTC, of a number of seconds since the UNIX epoch,
/// in the text form of the `time` crate.
pub uninterp spec fn timestamp_text(seconds: u32) -> Seq<char>;

/// The date and time of a timestamp in text, made by
/// `time::OffsetDateTime::from_unix_timestamp` and the `Display` of the
/// value that it returns. The contract only gives the result its name: the
/// text depends on the timestamp alone.
#[verifier::external_body]
fn format_timestamp(seconds: u32) -> (s: String)
    ensures
        s@ == timestamp_text(seconds),
{
    OffsetDateTime::from_unix_timestamp(seconds.into()).unwrap_or(
        OffsetDateTime::UNIX_EPOCH,
    ).to_string()
}

/// A decoded payload in text; nothing for a record that is not decoded.
pub open spec fn record_text(data: RecordView, juniper_output: bool) -> Seq<char> {
    match data {
        RecordView::PeerIndexTable(table) => table_text(table),
        RecordView::RibIpv4Unicast(nlri) => nlri_text(nlri, juniper_output),
        RecordView::RibIpv6Unicast(nlri) => nlri_text(nlri, juniper_output),
        _ => Seq::empty(),
    }
}

/// A record in text behind the given date and time: type and subtype, a
/// colon and the payload.
pub open spec fn mrt_text(mrt: MrtView, stamp: Seq<char>, juniper_output: bool) -> Seq<char> {
    stamp + " "@ + decimal_text(mrt.mrt_type as nat) + "/"@ + decimal_text(
        mrt.mrt_subtype as nat,
    ) + ": "@ + record_text(mrt.data, juniper_output)
}

impl Mrt {
    /// The record in text behind `stamp`, which stands for its date and
    /// time.
    pub fn text_with(&self, stamp: &str, juniper_output: bool) -> (s: String)
        ensures
            s@ == mrt_text(self.deep_view(), stamp@, juniper_output),
    {
        let mut out = String::new();
        out.append(stamp);
        out.append(" ");
        push_decimal(&mut out, self.mrt_type as u64);
        out.append("/");
        push_decimal(&mut out, self.mrt_subtype as u64);
        out.append(": ");
        let ghost base = out@;
        match &self.data {
            MrtRecord::PeerIndexTable(table) => {
                table.push_text(&mut out);
            },
            MrtRecord::RibIpv4Unicast(nlri) => {
                nlri.push_text(juniper_output, &mut out);
            },
            MrtRecord::RibIpv6Unicast(nlri) => {
                nlri.push_text(juniper_output, &mut out);
            },
            _ => {
                assert(out@ =~= base + Seq::<char>::empty());
            },
        }
        assert(out@ =~= mrt_text(self.deep_view(), stamp@, juniper_output));
        out
    }

    /// The record in text: its date and time, type and subtype, a colon and
    /// the payload.
    pub fn to_text(&self, juniper_output: bool) -> (s: String)
        ensures
            s@ == mrt_text(self.deep_view(), timestamp_text(self.timestamp), juniper_output),
    {
        let stamp = format_timestamp(self.timestamp);
        self.text_with(stamp.as_str(), juniper_output)
    }
}

} // verus!
