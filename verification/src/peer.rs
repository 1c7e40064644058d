use crate::error::{lemma_prepend_assoc, lemma_prepend_empty, prepend, MrtError};
use crate::ipaddrmask::Address;
use crate::literal::address_text;
use crate::text::{decimal_text, push_decimal};
use vstd::string::StringExecFns;
use crate::reader::{be_value, Reader};
use vstd::prelude::*;
use vstd::slice::slice_to_vec;
use vstd::utf8::{decode_utf8, valid_utf8};

verus! {

/// One entry of a peer index table.
#[derive(Debug, Clone, Copy, PartialEq, Eq, Structural)]
pub struct MrtPeer {
    /// Bit 1 of the peer type: the AS number takes four bytes on the wire.
    pub peer_type_a: bool,
    /// Bit 0 of the peer type: the peer address is an IPv6 address.
    pub peer_type_i: bool,
    pub peer_id: Address,
    pub peer_address: Address,
    pub peer_as: u32,
}

/// The peer catalogue of a dump: RIB entries name their peer by its index
/// in `peers`.
#[derive(Debug, Clone, PartialEq, Eq)]
pub struct MrtPeerIndexTable {
    pub collector_id: Address,
    pub view_name: String,
    pub peer_count: u16,
    pub peers: Vec<MrtPeer>,
}

/// The mathematical value of an `MrtPeerIndexTable`.
pub struct PeerIndexTableView {
    pub collector_id: Address,
    pub view_name: Seq<char>,
    pub peer_count: u16,
    pub peers: Seq<MrtPeer>,
}

impl DeepView for MrtPeerIndexTable {
    type V = PeerIndexTableView;

    open spec fn deep_view(&self) -> PeerIndexTableView {
        PeerIndexTableView {
            collector_id: self.collector_id,
            view_name: self.view_name@,
            peer_count: self.peer_count,
            peers: self.peers@,
        }
    }
}

/// The peer that stands in where none is known: a four-byte-AS IPv4 peer with
/// all-zero id, address and AS number.
pub open spec fn default_peer() -> MrtPeer {
    MrtPeer {
        peer_type_a: true,
        peer_type_i: false,
        peer_id: Address::V4(0),
        peer_address: Address::V4(0),
        peer_as: 0,
    }
}

/// The table before any peer index table has been read.
pub open spec fn empty_table() -> PeerIndexTableView {
    PeerIndexTableView {
        collector_id: Address::V4(0),
        view_name: Seq::empty(),
        peer_count: 0,
        peers: Seq::empty(),
    }
}

/// Whether the peer type announces an IPv6 peer address.
pub open spec fn has_ipv6_address(peer_type: u8) -> bool {
    peer_type & 1 != 0
}

/// Whether the peer type announces a four-byte AS number.
pub open spec fn has_four_byte_as(peer_type: u8) -> bool {
    peer_type & 2 != 0
}

/// The size of the address field of a peer record.
pub open spec fn peer_address_len(peer_type: u8) -> int {
    if has_ipv6_address(peer_type) {
        16
    } else {
        4
    }
}

/// The size of a peer record: type, id, address, AS number.
pub open spec fn peer_len(peer_type: u8) -> int {
    5 + peer_address_len(peer_type) + if has_four_byte_as(peer_type) {
        4int
    } else {
        2int
    }
}

/// The peer that a complete peer record at the start of `bytes` describes.
pub open spec fn peer_at(bytes: Seq<u8>) -> MrtPeer {
    let peer_type = bytes[0];
    let address_end = 5 + peer_address_len(peer_type);
    MrtPeer {
        peer_type_a: has_four_byte_as(peer_type),
        peer_type_i: has_ipv6_address(peer_type),
        peer_id: Address::V4(be_value(bytes.subrange(1, 5)) as u32),
        peer_address: if has_ipv6_address(peer_type) {
            Address::V6(be_value(bytes.subrange(5, address_end)) as u128)
        } else {
            Address::V4(be_value(bytes.subrange(5, address_end)) as u32)
        },
        peer_as: be_value(bytes.subrange(address_end, peer_len(peer_type))) as u32,
    }
}

/// What `count` consecutive peer records decode to.
pub open spec fn parse_peers(bytes: Seq<u8>, count: nat) -> Result<Seq<MrtPeer>, MrtError>
    decreases count,
{
    if count == 0 {
        Ok(Seq::empty())
    } else if bytes.len() < 1 || bytes.len() < peer_len(bytes[0]) {
        Err(MrtError::Truncated)
    } else {
        prepend(
            seq![peer_at(bytes)],
            parse_peers(bytes.skip(peer_len(bytes[0])), (count - 1) as nat),
        )
    }
}

/// What the payload of a PEER_INDEX_TABLE record decodes to: the collector
/// id, a length-prefixed UTF-8 view name, the peer count and that many peer
/// records. Bytes behind the last peer are not looked at.
pub open spec fn parse_peer_index_table(bytes: Seq<u8>) -> Result<PeerIndexTableView, MrtError> {
    if bytes.len() < 6 {
        Err(MrtError::Truncated)
    } else {
        let name_end = 6 + be_value(bytes.subrange(4, 6)) as int;
        if bytes.len() < name_end {
            Err(MrtError::Truncated)
        } else if !valid_utf8(bytes.subrange(6, name_end)) {
            Err(MrtError::BadString)
        } else if bytes.len() < name_end + 2 {
            Err(MrtError::Truncated)
        } else {
            let peer_count = be_value(bytes.subrange(name_end, name_end + 2));
            match parse_peers(bytes.skip(name_end + 2), peer_count) {
                Ok(peers) => Ok(
                    PeerIndexTableView {
                        collector_id: Address::V4(be_value(bytes.subrange(0, 4)) as u32),
                        view_name: decode_utf8(bytes.subrange(6, name_end)),
                        peer_count: peer_count as u16,
                        peers,
                    },
                ),
                Err(e) => Err(e),
            }
        }
    }
}

/// UTF-8 decoding by `String::from_utf8` of std. The contract claims that the
/// call succeeds exactly on well-formed UTF-8, and that the string then holds
/// the characters that the bytes encode.
#[verifier::external_body]
fn string_from_utf8(bytes: Vec<u8>) -> (r: Option<String>)
    ensures
        match r {
            Some(s) => valid_utf8(bytes@) && s@ == decode_utf8(bytes@),
            None => !valid_utf8(bytes@),
        },
{
    String::from_utf8(bytes).ok()
}

impl Default for MrtPeer {
    fn default() -> (p: MrtPeer)
        ensures
            p == default_peer(),
    {
        MrtPeer {
            peer_type_a: true,
            peer_type_i: false,
            peer_id: Address::V4(0),
            peer_address: Address::V4(0),
            peer_as: 0,
        }
    }
}

impl Default for MrtPeerIndexTable {
    fn default() -> (t: MrtPeerIndexTable)
        ensures
            t.deep_view() == empty_table(),
    {
        MrtPeerIndexTable {
            collector_id: Address::V4(0),
            view_name: String::new(),
            peer_count: 0,
            peers: Vec::new(),
        }
    }
}

impl MrtPeer {
    /// Decodes one peer record and moves the reader behind it. On failure the
    /// reader is left where the missing field should start.
    fn parse(reader: &mut Reader) -> (r: Result<MrtPeer, MrtError>)
        ensures
            match r {
                Ok(p) => old(reader)@.len() >= 1 && p == peer_at(old(reader)@) && old(
                    reader,
                ).advanced(*final(reader), peer_len(old(reader)@[0]) as nat),
                Err(e) => e == MrtError::Truncated && (old(reader)@.len() < 1 || old(reader)@.len()
                    < peer_len(old(reader)@[0])),
            },
    {
        let ghost bytes = reader@;
        let peer_type = reader.read_u8()?;
        let peer_type_a = peer_type & 2 != 0;
        let peer_type_i = peer_type & 1 != 0;
        let id = reader.read_u32()?;
        assert(bytes.skip(1).take(4) =~= bytes.subrange(1, 5));
        assert(reader@ =~= bytes.skip(5));
        let ghost address_end = 5 + peer_address_len(peer_type);
        let peer_address = if peer_type_i {
            let a = reader.read_u128()?;
            assert(bytes.skip(5).take(16) =~= bytes.subrange(5, address_end));
            Address::V6(a)
        } else {
            let a = reader.read_u32()?;
            assert(bytes.skip(5).take(4) =~= bytes.subrange(5, address_end));
            Address::V4(a)
        };
        assert(reader@ =~= bytes.skip(address_end));
        let peer_as = if peer_type_a {
            let n = reader.read_u32()?;
            assert(bytes.skip(address_end).take(4) =~= bytes.subrange(
                address_end,
                peer_len(peer_type),
            ));
            n
        } else {
            let n = reader.read_u16()?;
            assert(bytes.skip(address_end).take(2) =~= bytes.subrange(
                address_end,
                peer_len(peer_type),
            ));
            n as u32
        };
        assert(reader@ =~= bytes.skip(peer_len(peer_type)));
        Ok(MrtPeer { peer_type_a, peer_type_i, peer_id: Address::V4(id), peer_address, peer_as })
    }
}

impl MrtPeerIndexTable {
    /// Decodes the payload of a PEER_INDEX_TABLE record.
    #[verifier::loop_isolation(false)]
    pub fn parse(data: &[u8]) -> (r: Result<MrtPeerIndexTable, MrtError>)
        ensures
            match r {
                Ok(t) => parse_peer_index_table(data@) == Ok::<_, MrtError>(t.deep_view()),
                Err(e) => parse_peer_index_table(data@) == Err::<PeerIndexTableView, _>(e),
            },
    {
        let mut reader = Reader::new(data);
        let collector = reader.read_u32()?;
        assert(data@.take(4) =~= data@.subrange(0, 4));
        let view_name_size = reader.read_u16()?;
        assert(data@.skip(4).take(2) =~= data@.subrange(4, 6));
        assert(reader@ =~= data@.skip(6));
        let ghost name_end = 6 + view_name_size;
        let name_bytes = reader.read_exact(view_name_size as usize)?;
        assert(name_bytes@ =~= data@.subrange(6, name_end));
        assert(reader@ =~= data@.skip(name_end));
        let view_name = match string_from_utf8(slice_to_vec(name_bytes)) {
            Some(s) => s,
            None => {
                return Err(MrtError::BadString);
            },
        };
        let peer_count = reader.read_u16()?;
        assert(data@.skip(name_end).take(2) =~= data@.subrange(name_end, name_end + 2));
        assert(reader@ =~= data@.skip(name_end + 2));
        let mut peers: Vec<MrtPeer> = Vec::new();
        let ghost all = reader@;
        proof {
            lemma_prepend_empty(parse_peers(all, peer_count as nat));
        }
        let mut i: u16 = 0;
        while i < peer_count
            invariant
                i <= peer_count,
                parse_peers(all, peer_count as nat) == prepend(
                    peers@,
                    parse_peers(reader@, (peer_count - i) as nat),
                ),
            decreases peer_count - i,
        {
            let ghost done = peers@;
            let ghost bytes = reader@;
            let peer = match MrtPeer::parse(&mut reader) {
                Ok(p) => p,
                Err(e) => {
                    assert(parse_peers(bytes, (peer_count - i) as nat) == Err::<Seq<MrtPeer>, _>(
                        e,
                    ));
                    return Err(e);
                },
            };
            assert(parse_peers(bytes, (peer_count - i) as nat) == prepend(
                seq![peer],
                parse_peers(reader@, (peer_count - i - 1) as nat),
            ));
            peers.push(peer);
            i = i + 1;
            proof {
                lemma_prepend_assoc(
                    done,
                    seq![peer],
                    parse_peers(reader@, (peer_count - i) as nat),
                );
                assert(done + seq![peer] =~= peers@);
            }
        }
        proof {
            assert(peers@ + Seq::<MrtPeer>::empty() =~= peers@);
        }
        Ok(MrtPeerIndexTable { collector_id: Address::V4(collector), view_name, peer_count, peers })
    }
}

/// A peer in text: its address and, in brackets, its AS number.
pub open spec fn peer_text(peer: MrtPeer) -> Seq<char> {
    address_text(peer.peer_address) + " (AS"@ + decimal_text(peer.peer_as as nat) + ")"@
}

/// Peers in text, a comma and a space between two of them.
pub open spec fn peers_text(peers: Seq<MrtPeer>) -> Seq<char>
    decreases peers.len(),
{
    if peers.len() == 0 {
        Seq::empty()
    } else if peers.len() == 1 {
        peer_text(peers[0])
    } else {
        peers_text(peers.drop_last()) + ", "@ + peer_text(peers.last())
    }
}

/// A peer index table in text: collector, view name, number of peers and
/// the peers.
pub open spec fn table_text(table: PeerIndexTableView) -> Seq<char> {
    address_text(table.collector_id) + ": "@ + table.view_name + ": "@ + decimal_text(
        table.peer_count as nat,
    ) + " peer(s): "@ + peers_text(table.peers)
}

impl MrtPeer {
    /// Appends the peer in text.
    pub fn push_text(&self, out: &mut String)
        ensures
            final(out)@ == old(out)@ + peer_text(*self),
    {
        self.peer_address.push_text(out);
        out.append(" (AS");
        push_decimal(out, self.peer_as as u64);
        out.append(")");
        assert(out@ =~= old(out)@ + peer_text(*self));
    }

    /// The peer in text, such as `192.0.2.1 (AS65000)`.
    pub fn to_text(&self) -> (s: String)
        ensures
            s@ == peer_text(*self),
    {
        let mut out = String::new();
        self.push_text(&mut out);
        assert(out@ =~= peer_text(*self));
        out
    }
}

impl MrtPeerIndexTable {
    /// Appends the table in text.
    pub fn push_text(&self, out: &mut String)
        ensures
            final(out)@ == old(out)@ + table_text(self.deep_view()),
    {
        self.collector_id.push_text(out);
        out.append(": ");
        out.append(self.view_name.as_str());
        out.append(": ");
        push_decimal(out, self.peer_count as u64);
        out.append(" peer(s): ");
        let ghost base = out@;
        let mut i: usize = 0;
        assert(self.peers@.take(0) =~= Seq::empty());
        assert(out@ =~= base + peers_text(self.peers@.take(0)));
        while i < self.peers.len()
            invariant
                i <= self.peers.len(),
                out@ == base + peers_text(self.peers@.take(i as int)),
            decreases self.peers.len() - i,
        {
            if i > 0 {
                out.append(", ");
            }
            self.peers[i].push_text(out);
            proof {
                assert(self.peers@.take(i + 1).drop_last() =~= self.peers@.take(i as int));
                assert(out@ =~= base + peers_text(self.peers@.take(i + 1)));
            }
            i = i + 1;
        }
        assert(self.peers@.take(i as int) =~= self.peers@);
        assert(out@ =~= old(out)@ + table_text(self.deep_view()));
    }
}

} // verus!
