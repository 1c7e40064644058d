use crate::aspath::{path_contains, path_text};
use crate::attribute::{first_of, parse_attributes, AttributeView, MrtAttribute};
use crate::community::{communities_text, Community};
use crate::literal::address_text;
use crate::prefix::{prefix_text, push_prefix};
use vstd::slice::slice_subrange;
use vstd::string::StringExecFns;
use crate::error::{lemma_prepend_assoc, lemma_prepend_empty, prepend, MrtError};
use crate::ipaddrmask::Address;
use crate::peer::{default_peer, MrtPeer, MrtPeerIndexTable};
use crate::reader::{be_u128, be_u32, be_value, Reader};
use vstd::prelude::*;

verus! {

/// One path to a prefix, as one peer announced it.
#[derive(Debug, Clone, PartialEq, Eq)]
pub struct MrtRibEntry {
    /// The peer's index in the peer index table of the dump.
    pub peer_id: u16,
    /// The peer that the index named when the entry was decoded, so that the
    /// entry can outlive the table.
    pub peer: MrtPeer,
    /// When the path was learnt, in seconds since the UNIX epoch.
    pub origin_time: u32,
    pub attributes: Vec<MrtAttribute>,
}

/// One prefix record: the prefix and the paths to it.
#[derive(Debug, Clone, PartialEq, Eq)]
pub struct MrtNlri {
    pub sequence: u32,
    pub plen: u8,
    pub prefix: Address,
    pub entry_count: u16,
    pub rib_entries: Vec<MrtRibEntry>,
}

/// The mathematical value of an `MrtRibEntry`.
pub struct RibEntryView {
    pub peer_id: u16,
    pub peer: MrtPeer,
    pub origin_time: u32,
    pub attributes: Seq<AttributeView>,
}

/// The mathematical value of an `MrtNlri`.
pub struct NlriView {
    pub sequence: u32,
    pub plen: u8,
    pub prefix: Address,
    pub entry_count: u16,
    pub rib_entries: Seq<RibEntryView>,
}

impl DeepView for MrtRibEntry {
    type V = RibEntryView;

    open spec fn deep_view(&self) -> RibEntryView {
        RibEntryView {
            peer_id: self.peer_id,
            peer: self.peer,
            origin_time: self.origin_time,
            attributes: self.attributes.deep_view(),
        }
    }
}

impl DeepView for MrtNlri {
    type V = NlriView;

    open spec fn deep_view(&self) -> NlriView {
        NlriView {
            sequence: self.sequence,
            plen: self.plen,
            prefix: self.prefix,
            entry_count: self.entry_count,
            rib_entries: self.rib_entries.deep_view(),
        }
    }
}

/// The peer that index `peer_id` names in `peers`; the default peer where
/// the table has no such index.
pub open spec fn resolve_peer(peers: Seq<MrtPeer>, peer_id: u16) -> MrtPeer {
    if peer_id < peers.len() {
        peers[peer_id as int]
    } else {
        default_peer()
    }
}

/// The size of the RIB entry at the start of `bytes`: eight bytes of fixed
/// fields and the attributes.
pub open spec fn rib_entry_len(bytes: Seq<u8>) -> int {
    8 + be_value(bytes.subrange(6, 8)) as int
}

/// What the RIB entry at the start of `bytes` decodes to: peer index, origin
/// time, attribute length and that many bytes of path attributes.
pub open spec fn parse_rib_entry(bytes: Seq<u8>, peers: Seq<MrtPeer>) -> Result<
    RibEntryView,
    MrtError,
> {
    if bytes.len() < 8 || bytes.len() < rib_entry_len(bytes) {
        Err(MrtError::Truncated)
    } else {
        let peer_id = be_value(bytes.subrange(0, 2)) as u16;
        match parse_attributes(bytes.subrange(8, rib_entry_len(bytes))) {
            Ok(attributes) => Ok(
                RibEntryView {
                    peer_id,
                    peer: resolve_peer(peers, peer_id),
                    origin_time: be_value(bytes.subrange(2, 6)) as u32,
                    attributes,
                },
            ),
            Err(e) => Err(e),
        }
    }
}

/// What `count` consecutive RIB entries decode to.
pub open spec fn parse_rib_entries(bytes: Seq<u8>, count: nat, peers: Seq<MrtPeer>) -> Result<
    Seq<RibEntryView>,
    MrtError,
>
    decreases count,
{
    if count == 0 {
        Ok(Seq::empty())
    } else {
        match parse_rib_entry(bytes, peers) {
            Ok(entry) => prepend(
                seq![entry],
                parse_rib_entries(bytes.skip(rib_entry_len(bytes)), (count - 1) as nat, peers),
            ),
            Err(e) => Err(e),
        }
    }
}

/// The number of bits of an address of the family: 128 for IPv6, else 32.
pub open spec fn family_width(v6: bool) -> u8 {
    if v6 {
        128
    } else {
        32
    }
}

/// The number of bytes that carry a prefix of `plen` bits.
pub open spec fn prefix_bytes(plen: u8) -> int {
    (plen + 7) / 8
}

/// `bytes` followed by zero bytes up to a length of `size`.
pub open spec fn zero_padded(bytes: Seq<u8>, size: int) -> Seq<u8> {
    Seq::new(
        size as nat,
        |i: int|
            if i < bytes.len() {
                bytes[i]
            } else {
                0u8
            },
    )
}

/// The address whose leading bytes are `material` and whose other bytes are
/// zero.
pub open spec fn prefix_address(material: Seq<u8>, v6: bool) -> Address {
    if v6 {
        Address::V6(be_value(zero_padded(material, 16)) as u128)
    } else {
        Address::V4(be_value(zero_padded(material, 4)) as u32)
    }
}

/// What the payload of a RIB_IPV4_UNICAST or RIB_IPV6_UNICAST record decodes
/// to: sequence number, prefix length, the bytes that carry the prefix, the
/// entry count and that many RIB entries. A prefix length beyond the width of
/// the family is refused. Bytes behind the last entry are not looked at.
pub open spec fn parse_nlri(bytes: Seq<u8>, v6: bool, peers: Seq<MrtPeer>) -> Result<
    NlriView,
    MrtError,
> {
    if bytes.len() < 5 {
        Err(MrtError::Truncated)
    } else if bytes[4] > family_width(v6) {
        Err(MrtError::BadPrefixLength { plen: bytes[4] })
    } else {
        let plen = bytes[4];
        let prefix_end = 5 + prefix_bytes(plen);
        if bytes.len() < prefix_end + 2 {
            Err(MrtError::Truncated)
        } else {
            let entry_count = be_value(bytes.subrange(prefix_end, prefix_end + 2));
            match parse_rib_entries(bytes.skip(prefix_end + 2), entry_count, peers) {
                Ok(rib_entries) => Ok(
                    NlriView {
                        sequence: be_value(bytes.subrange(0, 4)) as u32,
                        plen,
                        prefix: prefix_address(bytes.subrange(5, prefix_end), v6),
                        entry_count: entry_count as u16,
                        rib_entries,
                    },
                ),
                Err(e) => Err(e),
            }
        }
    }
}

/// Whether some AS_PATH attribute of the entry lists `asn`.
pub open spec fn entry_has_asn(entry: RibEntryView, asn: u32) -> bool {
    exists|i: int|
        0 <= i < entry.attributes.len() && (#[trigger] entry.attributes[i]) is AsPath
            && path_contains(entry.attributes[i]->AsPath_0, asn)
}

/// Whether some COMMUNITY attribute of the entry lists `community`.
pub open spec fn entry_has_community(entry: RibEntryView, community: Community) -> bool {
    exists|i: int|
        0 <= i < entry.attributes.len() && (#[trigger] entry.attributes[i]) is Community
            && entry.attributes[i]->Community_0.contains(community)
}

impl MrtRibEntry {
    /// The first attribute with the given type code.
    fn find(&self, code: u8) -> (r: Option<&MrtAttribute>)
        ensures
            match r {
                Some(a) => first_of(self.deep_view().attributes, code) == Some(a.deep_view()),
                None => first_of(self.deep_view().attributes, code) is None,
            },
    {
        let ghost all = self.deep_view().attributes;
        assert(all.skip(0) =~= all);
        let mut i: usize = 0;
        while i < self.attributes.len()
            invariant
                i <= self.attributes.len(),
                all == self.attributes.deep_view(),
                first_of(all, code) == first_of(all.skip(i as int), code),
            decreases self.attributes.len() - i,
        {
            let attribute = &self.attributes[i];
            assert(all.skip(i as int)[0] == attribute.deep_view());
            if attribute.code() == code {
                return Some(attribute);
            }
            assert(all.skip(i as int).skip(1) =~= all.skip(i + 1));
            i = i + 1;
        }
        None
    }

    /// Whether some AS_PATH attribute of the entry lists `asn`.
    pub fn aspath_contains(&self, asn: u32) -> (b: bool)
        ensures
            b == entry_has_asn(self.deep_view(), asn),
    {
        let mut i: usize = 0;
        while i < self.attributes.len()
            invariant
                i <= self.attributes.len(),
                forall|k: int|
                    0 <= k < i ==> !((#[trigger] self.deep_view().attributes[k]) is AsPath
                        && path_contains(self.deep_view().attributes[k]->AsPath_0, asn)),
            decreases self.attributes.len() - i,
        {
            if let MrtAttribute::AsPath(aspath) = &self.attributes[i] {
                if aspath.contains(asn) {
                    assert(self.deep_view().attributes[i as int] is AsPath);
                    return true;
                }
            }
            assert(self.deep_view().attributes[i as int] == self.attributes[i as int].deep_view());
            i = i + 1;
        }
        false
    }

    /// Whether some COMMUNITY attribute of the entry lists `community`.
    #[verifier::loop_isolation(false)]
    pub fn community_contains(&self, community: &Community) -> (b: bool)
        ensures
            b == entry_has_community(self.deep_view(), *community),
    {
        let mut i: usize = 0;
        while i < self.attributes.len()
            invariant
                i <= self.attributes.len(),
                forall|k: int|
                    0 <= k < i ==> !((#[trigger] self.deep_view().attributes[k]) is Community
                        && self.deep_view().attributes[k]->Community_0.contains(*community)),
            decreases self.attributes.len() - i,
        {
            if let MrtAttribute::Community(list) = &self.attributes[i] {
                let mut j: usize = 0;
                while j < list.len()
                    invariant
                        j <= list.len(),
                        forall|k: int| 0 <= k < j ==> list[k] != *community,
                    decreases list.len() - j,
                {
                    if list[j] == *community {
                        assert(self.deep_view().attributes[i as int] is Community);
                        assert(self.deep_view().attributes[i as int]->Community_0[j as int]
                            == *community);
                        return true;
                    }
                    j = j + 1;
                }
            }
            assert(self.deep_view().attributes[i as int] == self.attributes[i as int].deep_view());
            i = i + 1;
        }
        false
    }

    /// The value of the first MULTI_EXIT_DISC attribute.
    pub fn get_med(&self) -> (r: Option<u32>)
        ensures
            r == entry_med(self.deep_view()),
    {
        match self.find(4) {
            Some(MrtAttribute::MultiExitDisc(med)) => Some(*med),
            _ => None,
        }
    }

    /// The value of the first LOCAL_PREF attribute.
    pub fn get_local_pref(&self) -> (r: Option<u32>)
        ensures
            r == entry_local_pref(self.deep_view()),
    {
        match self.find(5) {
            Some(MrtAttribute::LocalPref(local_pref)) => Some(*local_pref),
            _ => None,
        }
    }

    /// The address of the first NEXT_HOP attribute; `0.0.0.0` where the
    /// entry has none.
    pub fn get_nexthop(&self) -> (r: Address)
        ensures
            r == entry_nexthop(self.deep_view()),
    {
        match self.find(3) {
            Some(MrtAttribute::NextHop(nh)) => *nh,
            _ => Address::V4(0),
        }
    }

    /// The value of the first ORIGIN attribute; 255 where the entry has
    /// none.
    pub fn get_origin(&self) -> (r: u8)
        ensures
            r == entry_origin(self.deep_view()),
    {
        match self.find(1) {
            Some(MrtAttribute::Origin(origin)) => *origin,
            _ => 255,
        }
    }

    /// The letter that stands for the entry's origin: `i` for IGP and `e`
    /// for EGP, in capitals for Juniper-style output, `?` for incomplete
    /// and `!` for anything else.
    pub fn get_origin_char(&self, juniper_output: bool) -> (c: char)
        ensures
            c == origin_char(entry_origin(self.deep_view()), juniper_output),
    {
        let origin = self.get_origin();
        if origin == 0 {
            if juniper_output {
                'I'
            } else {
                'i'
            }
        } else if origin == 1 {
            if juniper_output {
                'E'
            } else {
                'e'
            }
        } else if origin == 2 {
            '?'
        } else {
            '!'
        }
    }
}

/// The letter that stands for an origin code.
pub open spec fn origin_char(origin: u8, juniper_output: bool) -> char {
    if origin == 0 {
        if juniper_output {
            'I'
        } else {
            'i'
        }
    } else if origin == 1 {
        if juniper_output {
            'E'
        } else {
            'e'
        }
    } else if origin == 2 {
        '?'
    } else {
        '!'
    }
}

impl MrtPeerIndexTable {
    /// The peer at index `peer_id`, or the default peer where the table has
    /// no such index.
    pub fn resolve(&self, peer_id: u16) -> (p: MrtPeer)
        ensures
            p == resolve_peer(self.peers@, peer_id),
    {
        if (peer_id as usize) < self.peers.len() {
            self.peers[peer_id as usize]
        } else {
            MrtPeer::default()
        }
    }
}

impl MrtNlri {
    /// Decodes one RIB entry and moves the reader behind it. The entry's peer
    /// is looked up in `peers`. On failure the reader stays at the start of
    /// the entry.
    pub fn parse_rib_entry(reader: &mut Reader, peers: &MrtPeerIndexTable) -> (r: Result<
        MrtRibEntry,
        MrtError,
    >)
        ensures
            match r {
                Ok(entry) => parse_rib_entry(old(reader)@, peers.peers@) == Ok::<_, MrtError>(
                    entry.deep_view(),
                ) && old(reader).advanced(*final(reader), rib_entry_len(old(reader)@) as nat),
                Err(e) => parse_rib_entry(old(reader)@, peers.peers@) == Err::<RibEntryView, _>(e)
                    && *final(reader) == *old(reader),
            },
    {
        let ghost bytes = reader@;
        let mut fields = Reader::new(reader.peek(8)?);
        let peer_id = fields.read_u16()?;
        let origin_time = fields.read_u32()?;
        let attribute_length = fields.read_u16()?;
        proof {
            assert(bytes.take(8).take(2) =~= bytes.subrange(0, 2));
            assert(bytes.take(8).skip(2).take(4) =~= bytes.subrange(2, 6));
            assert(bytes.take(8).skip(2).skip(4).take(2) =~= bytes.subrange(6, 8));
        }
        let size: usize = 8 + attribute_length as usize;
        let whole = reader.peek(size)?;
        let payload = slice_subrange(whole, 8, size);
        assert(payload@ =~= bytes.subrange(8, rib_entry_len(bytes)));
        let attributes = MrtAttribute::parse(payload)?;
        reader.consume(size)?;
        Ok(MrtRibEntry { peer_id, peer: peers.resolve(peer_id), origin_time, attributes })
    }

    /// Decodes the address that `material` carries in its leading bytes.
    fn prefix_from(material: &[u8], v6: bool) -> (a: Address)
        requires
            material@.len() <= family_width(v6) / 8,
        ensures
            a == prefix_address(material@, v6),
    {
        let size: usize = if v6 {
            16
        } else {
            4
        };
        let mut buffer: Vec<u8> = Vec::new();
        let mut i: usize = 0;
        while i < size
            invariant
                i <= size,
                buffer@ == zero_padded(material@, i as int),
            decreases size - i,
        {
            let byte = if i < material.len() {
                material[i]
            } else {
                0
            };
            buffer.push(byte);
            i = i + 1;
            assert(buffer@ =~= zero_padded(material@, i as int));
        }
        assert(buffer@.subrange(0, size as int) =~= buffer@);
        if v6 {
            Address::V6(be_u128(buffer.as_slice()))
        } else {
            Address::V4(be_u32(buffer.as_slice()))
        }
    }

    /// Decodes the payload of a RIB record of either family.
    #[verifier::loop_isolation(false)]
    fn parse(data: &[u8], v6: bool, peers: &MrtPeerIndexTable) -> (r: Result<MrtNlri, MrtError>)
        ensures
            match r {
                Ok(nlri) => parse_nlri(data@, v6, peers.peers@) == Ok::<_, MrtError>(
                    nlri.deep_view(),
                ),
                Err(e) => parse_nlri(data@, v6, peers.peers@) == Err::<NlriView, _>(e),
            },
    {
        let mut reader = Reader::new(data);
        if reader.remaining() < 5 {
            return Err(MrtError::Truncated);
        }
        let sequence = reader.read_u32()?;
        let plen = reader.read_u8()?;
        proof {
            assert(data@.take(4) =~= data@.subrange(0, 4));
            assert(reader@ =~= data@.skip(5));
        }
        let width: u8 = if v6 {
            128
        } else {
            32
        };
        if plen > width {
            return Err(MrtError::BadPrefixLength { plen });
        }
        let size: usize = ((plen as usize) + 7) / 8;
        let ghost prefix_end = 5 + prefix_bytes(plen);
        if reader.remaining() < size + 2 {
            return Err(MrtError::Truncated);
        }
        let material = reader.read_exact(size)?;
        let prefix = Self::prefix_from(material, v6);
        let entry_count = reader.read_u16()?;
        proof {
            assert(material@ =~= data@.subrange(5, prefix_end));
            assert(data@.skip(5).skip(size as int).take(2) =~= data@.subrange(
                prefix_end,
                prefix_end + 2,
            ));
            assert(reader@ =~= data@.skip(prefix_end + 2));
        }
        let ghost all = reader@;
        let mut rib_entries: Vec<MrtRibEntry> = Vec::new();
        proof {
            assert(rib_entries.deep_view() =~= Seq::empty());
            lemma_prepend_empty(parse_rib_entries(all, entry_count as nat, peers.peers@));
        }
        let mut i: u16 = 0;
        while i < entry_count
            invariant
                i <= entry_count,
                parse_rib_entries(all, entry_count as nat, peers.peers@) == prepend(
                    rib_entries.deep_view(),
                    parse_rib_entries(reader@, (entry_count - i) as nat, peers.peers@),
                ),
            decreases entry_count - i,
        {
            let ghost done = rib_entries.deep_view();
            let ghost bytes = reader@;
            let entry = Self::parse_rib_entry(&mut reader, peers)?;
            rib_entries.push(entry);
            i = i + 1;
            proof {
                assert(rib_entries.deep_view() =~= done + seq![entry.deep_view()]);
                lemma_prepend_assoc(
                    done,
                    seq![entry.deep_view()],
                    parse_rib_entries(reader@, (entry_count - i) as nat, peers.peers@),
                );
            }
        }
        proof {
            assert(rib_entries.deep_view() + Seq::<RibEntryView>::empty()
                =~= rib_entries.deep_view());
        }
        Ok(MrtNlri { sequence, plen, prefix, entry_count, rib_entries })
    }

    /// Decodes the payload of a RIB_IPV4_UNICAST record.
    pub fn parse_v4(data: &[u8], peers: &MrtPeerIndexTable) -> (r: Result<MrtNlri, MrtError>)
        ensures
            match r {
                Ok(nlri) => parse_nlri(data@, false, peers.peers@) == Ok::<_, MrtError>(
                    nlri.deep_view(),
                ),
                Err(e) => parse_nlri(data@, false, peers.peers@) == Err::<NlriView, _>(e),
            },
    {
        Self::parse(data, false, peers)
    }

    /// Decodes the payload of a RIB_IPV6_UNICAST record.
    pub fn parse_v6(data: &[u8], peers: &MrtPeerIndexTable) -> (r: Result<MrtNlri, MrtError>)
        ensures
            match r {
                Ok(nlri) => parse_nlri(data@, true, peers.peers@) == Ok::<_, MrtError>(
                    nlri.deep_view(),
                ),
                Err(e) => parse_nlri(data@, true, peers.peers@) == Err::<NlriView, _>(e),
            },
    {
        Self::parse(data, true, peers)
    }
}

/// The first MULTI_EXIT_DISC value of an entry.
pub open spec fn entry_med(entry: RibEntryView) -> Option<u32> {
    match first_of(entry.attributes, 4) {
        Some(AttributeView::MultiExitDisc(med)) => Some(med),
        _ => None,
    }
}

/// The first LOCAL_PREF value of an entry.
pub open spec fn entry_local_pref(entry: RibEntryView) -> Option<u32> {
    match first_of(entry.attributes, 5) {
        Some(AttributeView::LocalPref(local_pref)) => Some(local_pref),
        _ => None,
    }
}

/// The first ORIGIN value of an entry; 255 where it has none.
pub open spec fn entry_origin(entry: RibEntryView) -> u8 {
    match first_of(entry.attributes, 1) {
        Some(AttributeView::Origin(origin)) => origin,
        _ => 255u8,
    }
}

/// The first NEXT_HOP of an entry; `0.0.0.0` where it has none.
pub open spec fn entry_nexthop(entry: RibEntryView) -> Address {
    match first_of(entry.attributes, 3) {
        Some(AttributeView::NextHop(nh)) => nh,
        _ => Address::V4(0),
    }
}

/// The first AS_PATH of an entry in text; empty where it has none.
pub open spec fn entry_path_text(entry: RibEntryView) -> Seq<char> {
    match first_of(entry.attributes, 2) {
        Some(AttributeView::AsPath(path)) => path_text(path),
        _ => Seq::empty(),
    }
}

/// The first COMMUNITY list of an entry in text.
pub open spec fn entry_community_text(entry: RibEntryView) -> Option<Seq<char>> {
    match first_of(entry.attributes, 8) {
        Some(AttributeView::Community(list)) => Some(communities_text(list)),
        _ => None,
    }
}

/// An entry in text: next hop, then AS path and origin letter in quotes.
pub open spec fn entry_text(entry: RibEntryView, juniper_output: bool) -> Seq<char> {
    address_text(entry_nexthop(entry)) + " \""@ + entry_path_text(entry) + " "@
        + seq![origin_char(entry_origin(entry), juniper_output)] + "\""@
}

/// Entries in text, a comma and a space between two of them.
pub open spec fn entries_text(entries: Seq<RibEntryView>, juniper_output: bool) -> Seq<char>
    decreases entries.len(),
{
    if entries.len() == 0 {
        Seq::empty()
    } else if entries.len() == 1 {
        entry_text(entries[0], juniper_output)
    } else {
        entries_text(entries.drop_last(), juniper_output) + ", "@ + entry_text(
            entries.last(),
            juniper_output,
        )
    }
}

/// A prefix record in text: the prefix, a colon and the entries.
pub open spec fn nlri_text(nlri: NlriView, juniper_output: bool) -> Seq<char> {
    prefix_text(nlri.prefix, nlri.plen) + ": "@ + entries_text(nlri.rib_entries, juniper_output)
}

/// The text of an origin letter.
pub fn origin_str(origin: u8, juniper_output: bool) -> (r: &'static str)
    ensures
        r@ == seq![origin_char(origin, juniper_output)],
{
    let r = if origin == 0 {
        if juniper_output {
            "I"
        } else {
            "i"
        }
    } else if origin == 1 {
        if juniper_output {
            "E"
        } else {
            "e"
        }
    } else if origin == 2 {
        "?"
    } else {
        "!"
    };
    proof {
        reveal_strlit("I");
        reveal_strlit("i");
        reveal_strlit("E");
        reveal_strlit("e");
        reveal_strlit("?");
        reveal_strlit("!");
        assert(r@ =~= seq![origin_char(origin, juniper_output)]);
    }
    r
}

impl MrtRibEntry {
    /// Appends the first AS_PATH of the entry in text.
    pub fn push_aspath(&self, out: &mut String)
        ensures
            final(out)@ == old(out)@ + entry_path_text(self.deep_view()),
    {
        match self.find(2) {
            Some(MrtAttribute::AsPath(aspath)) => {
                aspath.push_text(out);
            },
            _ => {
                assert(out@ =~= old(out)@ + Seq::<char>::empty());
            },
        }
    }

    /// The first AS_PATH of the entry in text; the empty text where the
    /// entry has none.
    pub fn get_aspath(&self) -> (s: String)
        ensures
            s@ == entry_path_text(self.deep_view()),
    {
        let mut out = String::new();
        self.push_aspath(&mut out);
        assert(out@ =~= entry_path_text(self.deep_view()));
        out
    }

    /// The first COMMUNITY list of the entry in text, one space between two
    /// communities.
    pub fn get_community(&self) -> (r: Option<String>)
        ensures
            match r {
                Some(s) => entry_community_text(self.deep_view()) == Some(s@),
                None => entry_community_text(self.deep_view()) is None,
            },
    {
        match self.find(8) {
            Some(MrtAttribute::Community(list)) => {
                let mut out = String::new();
                Community::push_list(list, &mut out);
                assert(out@ =~= communities_text(list@));
                Some(out)
            },
            _ => None,
        }
    }

    /// Appends the entry in text.
    pub fn push_text(&self, juniper_output: bool, out: &mut String)
        ensures
            final(out)@ == old(out)@ + entry_text(self.deep_view(), juniper_output),
    {
        self.get_nexthop().push_text(out);
        out.append(" \"");
        self.push_aspath(out);
        out.append(" ");
        out.append(origin_str(self.get_origin(), juniper_output));
        out.append("\"");
        assert(out@ =~= old(out)@ + entry_text(self.deep_view(), juniper_output));
    }

    /// The entry in text, such as `192.0.2.1 "65000 65001 i"`.
    pub fn to_text(&self, juniper_output: bool) -> (s: String)
        ensures
            s@ == entry_text(self.deep_view(), juniper_output),
    {
        let mut out = String::new();
        self.push_text(juniper_output, &mut out);
        assert(out@ =~= entry_text(self.deep_view(), juniper_output));
        out
    }
}

impl MrtNlri {
    /// Appends the record in text.
    pub fn push_text(&self, juniper_output: bool, out: &mut String)
        ensures
            final(out)@ == old(out)@ + nlri_text(self.deep_view(), juniper_output),
    {
        push_prefix(&self.prefix, self.plen, out);
        out.append(": ");
        let ghost base = out@;
        let ghost entries = self.deep_view().rib_entries;
        let mut i: usize = 0;
        assert(entries.take(0) =~= Seq::empty());
        assert(out@ =~= base + entries_text(entries.take(0), juniper_output));
        while i < self.rib_entries.len()
            invariant
                i <= self.rib_entries.len(),
                entries == self.rib_entries.deep_view(),
                out@ == base + entries_text(entries.take(i as int), juniper_output),
            decreases self.rib_entries.len() - i,
        {
            if i > 0 {
                out.append(", ");
            }
            self.rib_entries[i].push_text(juniper_output, out);
            proof {
                assert(entries.take(i + 1).drop_last() =~= entries.take(i as int));
                assert(entries.take(i + 1).last() == self.rib_entries[i as int].deep_view());
                assert(out@ =~= base + entries_text(entries.take(i + 1), juniper_output));
            }
            i = i + 1;
        }
        assert(entries.take(i as int) =~= entries);
        assert(out@ =~= old(out)@ + nlri_text(self.deep_view(), juniper_output));
    }

    /// The record in text: the prefix, a colon and the entries.
    pub fn to_text(&self, juniper_output: bool) -> (s: String)
        ensures
            s@ == nlri_text(self.deep_view(), juniper_output),
    {
        let mut out = String::new();
        self.push_text(juniper_output, &mut out);
        assert(out@ =~= nlri_text(self.deep_view(), juniper_output));
        out
    }
}

} // verus!
