use mrtdump::aspath::{AsPath, AsPathSegment};
use mrtdump::attribute::MrtAttribute;
use mrtdump::community::Community;
use mrtdump::error::MrtError;
use mrtdump::ipaddrmask::Address;
use mrtdump::mrt::{Mrt, MrtRecord};
use mrtdump::peer::{MrtPeer, MrtPeerIndexTable};
use mrtdump::reader::Reader;
use mrtdump::rib::MrtNlri;

fn rib_entry_bytes(peer: u16, time: u32, attributes: &[u8]) -> Vec<u8> {
    let mut bytes = Vec::new();
    bytes.extend_from_slice(&peer.to_be_bytes());
    bytes.extend_from_slice(&time.to_be_bytes());
    bytes.extend_from_slice(&(attributes.len() as u16).to_be_bytes());
    bytes.extend_from_slice(attributes);
    bytes
}

fn record_bytes(timestamp: u32, mrt_type: u16, subtype: u16, payload: &[u8]) -> Vec<u8> {
    let mut bytes = Vec::new();
    bytes.extend_from_slice(&timestamp.to_be_bytes());
    bytes.extend_from_slice(&mrt_type.to_be_bytes());
    bytes.extend_from_slice(&subtype.to_be_bytes());
    bytes.extend_from_slice(&(payload.len() as u32).to_be_bytes());
    bytes.extend_from_slice(payload);
    bytes
}

#[test]
fn reader_decodes_big_endian_numbers() {
    let data = [0x01, 0x02, 0x03, 0x04, 0x05, 0x06, 0x07];
    let mut reader = Reader::new(&data);
    assert_eq!(reader.read_u8(), Ok(0x01));
    assert_eq!(reader.read_u16(), Ok(0x0203));
    assert_eq!(reader.read_u32(), Ok(0x04050607));
    assert!(reader.is_empty());
    assert_eq!(reader.offset(), 7);
}

#[test]
fn reader_decodes_sixteen_bytes() {
    let data = [
        0x20, 0x01, 0x0d, 0xb8, 0, 0, 0, 0, 0, 0, 0, 0, 0, 0, 0, 0x01, 0xff,
    ];
    let mut reader = Reader::new(&data);
    assert_eq!(reader.read_u128(), Ok(0x2001_0db8_0000_0000_0000_0000_0000_0001));
    assert_eq!(reader.remaining(), 1);
}

#[test]
fn reader_reports_truncation_and_stays() {
    let data = [0xaa, 0xbb, 0xcc];
    let mut reader = Reader::new(&data);
    assert_eq!(reader.read_u32(), Err(MrtError::Truncated));
    assert_eq!(reader.read_u128(), Err(MrtError::Truncated));
    assert_eq!(reader.offset(), 0);
    assert_eq!(reader.read_u16(), Ok(0xaabb));
    assert_eq!(reader.read_u16(), Err(MrtError::Truncated));
    assert_eq!(reader.read_u8(), Ok(0xcc));
    assert_eq!(reader.read_u8(), Err(MrtError::Truncated));
}

#[test]
fn reader_peeks_without_consuming() {
    let data = [1, 2, 3, 4];
    let mut reader = Reader::new(&data);
    assert_eq!(reader.peek(2), Ok(&data[0..2]));
    assert_eq!(reader.offset(), 0);
    assert_eq!(reader.consume(3), Ok(()));
    assert_eq!(reader.peek(1), Ok(&data[3..4]));
    assert_eq!(reader.peek(2), Err(MrtError::Truncated));
    assert_eq!(reader.consume(2), Err(MrtError::Truncated));
    assert_eq!(reader.read_exact(1), Ok(&data[3..4]));
    assert_eq!(reader.read_exact(0), Ok(&data[4..4]));
}

#[test]
fn as_path_sequence_of_three() {
    let bytes = [0x02, 0x03, 0, 0, 0, 1, 0, 0, 0, 2, 0, 0, 0, 3];
    let path = AsPath::parse(&bytes).unwrap();
    assert_eq!(
        path,
        AsPath { aspath_segments: vec![AsPathSegment { ordered: true, asns: vec![1, 2, 3] }] }
    );
}

#[test]
fn as_path_set_keeps_wire_order() {
    let bytes = [0x01, 0x03, 0, 0, 0, 3, 0, 0, 0, 1, 0, 0, 0, 2];
    let path = AsPath::parse(&bytes).unwrap();
    assert_eq!(
        path,
        AsPath { aspath_segments: vec![AsPathSegment { ordered: false, asns: vec![3, 1, 2] }] }
    );
}

#[test]
fn as_path_of_two_segments() {
    let bytes = [0x02, 0x01, 0, 1, 0, 0, 0x01, 0x02, 0, 0, 0, 7, 0, 0, 0, 8];
    let path = AsPath::parse(&bytes).unwrap();
    assert_eq!(
        path,
        AsPath {
            aspath_segments: vec![
                AsPathSegment { ordered: true, asns: vec![65536] },
                AsPathSegment { ordered: false, asns: vec![7, 8] },
            ],
        }
    );
    assert!(path.contains(65536));
    assert!(path.contains(8));
    assert!(!path.contains(1));
}

#[test]
fn as_path_empty_payload_is_empty_path() {
    assert_eq!(AsPath::parse(&[]), Ok(AsPath::new()));
    assert_eq!(AsPath::new().aspath_segments.len(), 0);
    assert!(!AsPath::new().contains(0));
}

#[test]
fn as_path_rejects_other_segment_types() {
    assert_eq!(
        AsPath::parse(&[0x03, 0x00]),
        Err(MrtError::BadAsPathSegment { segment_type: 3 })
    );
    assert_eq!(AsPath::parse(&[0x00]), Err(MrtError::BadAsPathSegment { segment_type: 0 }));
}

#[test]
fn as_path_truncated_segment() {
    assert_eq!(AsPath::parse(&[0x02]), Err(MrtError::Truncated));
    assert_eq!(AsPath::parse(&[0x02, 0x02, 0, 0, 0, 1, 0, 0, 0]), Err(MrtError::Truncated));
}

#[test]
fn community_list_of_two() {
    let bytes = [0xfd, 0xe8, 0x00, 0x64, 0x00, 0x01, 0xff, 0xff, 0x99];
    assert_eq!(
        Community::parse(&bytes, 2),
        Ok(vec![Community::Standard(65000, 100), Community::Standard(1, 65535)])
    );
    assert_eq!(Community::parse(&bytes, 0), Ok(vec![]));
    assert_eq!(Community::parse(&bytes, 3), Err(MrtError::Truncated));
}

#[test]
fn attributes_origin_then_empty_as_path() {
    let bytes = [0x40, 0x01, 0x01, 0x00, 0x40, 0x02, 0x00];
    assert_eq!(
        MrtAttribute::parse(&bytes),
        Ok(vec![MrtAttribute::Origin(0), MrtAttribute::AsPath(AsPath::new())])
    );
}

#[test]
fn attributes_origin_with_length_two_is_refused() {
    let bytes = [0x40, 0x01, 0x02, 0x00, 0x40, 0x02, 0x00];
    assert_eq!(
        MrtAttribute::parse(&bytes),
        Err(MrtError::BadAttribute { code: 1, got_len: 2 })
    );
}

#[test]
fn attributes_of_every_decoded_kind() {
    let bytes = [
        0x40, 0x01, 0x01, 0x02, // ORIGIN incomplete
        0x40, 0x02, 0x06, 0x02, 0x01, 0x00, 0x00, 0xfd, 0xe8, // AS_PATH 65000
        0x40, 0x03, 0x04, 192, 0, 2, 1, // NEXT_HOP
        0x80, 0x04, 0x04, 0, 0, 0, 50, // MED
        0x40, 0x05, 0x04, 0, 0, 0, 200, // LOCAL_PREF
        0x40, 0x06, 0x00, // ATOMIC_AGGREGATE
        0xc0, 0x08, 0x04, 0xfd, 0xe8, 0x00, 0x01, // COMMUNITY
    ];
    assert_eq!(
        MrtAttribute::parse(&bytes),
        Ok(vec![
            MrtAttribute::Origin(2),
            MrtAttribute::AsPath(AsPath {
                aspath_segments: vec![AsPathSegment { ordered: true, asns: vec![65000] }],
            }),
            MrtAttribute::NextHop(Address::V4(0xc0000201)),
            MrtAttribute::MultiExitDisc(50),
            MrtAttribute::LocalPref(200),
            MrtAttribute::AtomicAggregate,
            MrtAttribute::Community(vec![Community::Standard(65000, 1)]),
        ])
    );
}

#[test]
fn attributes_next_hop_of_sixteen_bytes() {
    let mut bytes = vec![0x40, 0x03, 0x10];
    bytes.extend_from_slice(&0x2001_0db8_0000_0000_0000_0000_0000_0001u128.to_be_bytes());
    assert_eq!(
        MrtAttribute::parse(&bytes),
        Ok(vec![MrtAttribute::NextHop(Address::V6(0x2001_0db8_0000_0000_0000_0000_0000_0001))])
    );
}

#[test]
fn attributes_extended_length() {
    let bytes = [0x50, 0x05, 0x00, 0x04, 0, 0, 1, 0];
    assert_eq!(MrtAttribute::parse(&bytes), Ok(vec![MrtAttribute::LocalPref(256)]));
}

#[test]
fn attributes_length_rules() {
    assert_eq!(
        MrtAttribute::parse(&[0x40, 0x03, 0x05, 1, 2, 3, 4, 5]),
        Err(MrtError::BadAttribute { code: 3, got_len: 5 })
    );
    assert_eq!(
        MrtAttribute::parse(&[0x40, 0x04, 0x03, 1, 2, 3]),
        Err(MrtError::BadAttribute { code: 4, got_len: 3 })
    );
    assert_eq!(
        MrtAttribute::parse(&[0x40, 0x05, 0x00]),
        Err(MrtError::BadAttribute { code: 5, got_len: 0 })
    );
    assert_eq!(
        MrtAttribute::parse(&[0x40, 0x06, 0x01, 0]),
        Err(MrtError::BadAttribute { code: 6, got_len: 1 })
    );
    assert_eq!(
        MrtAttribute::parse(&[0x40, 0x08, 0x06, 0, 1, 0, 2, 0, 3]),
        Err(MrtError::BadAttribute { code: 8, got_len: 6 })
    );
    assert_eq!(
        MrtAttribute::parse(&[0x50, 0x01, 0x01, 0x00]),
        Err(MrtError::BadAttribute { code: 1, got_len: 256 })
    );
}

#[test]
fn attributes_length_rule_comes_before_the_payload() {
    assert_eq!(
        MrtAttribute::parse(&[0x40, 0x04, 0x02]),
        Err(MrtError::BadAttribute { code: 4, got_len: 2 })
    );
}

#[test]
fn attributes_unknown_code_is_skipped() {
    let bytes = [
        0x40, 0x01, 0x01, 0x01, // ORIGIN
        0xc0, 0x20, 0x05, 9, 9, 9, 9, 9, // code 32, five bytes
        0x40, 0x05, 0x04, 0, 0, 0, 100, // LOCAL_PREF
    ];
    assert_eq!(
        MrtAttribute::parse(&bytes),
        Ok(vec![MrtAttribute::Origin(1), MrtAttribute::LocalPref(100)])
    );
}

#[test]
fn attributes_unknown_code_with_extended_length() {
    let mut bytes = vec![0x40, 0x06, 0x00, 0xd0, 0x63, 0x01, 0x2c];
    bytes.extend_from_slice(&[0x55; 300]);
    bytes.extend_from_slice(&[0x40, 0x01, 0x01, 0x00]);
    assert_eq!(
        MrtAttribute::parse(&bytes),
        Ok(vec![MrtAttribute::AtomicAggregate, MrtAttribute::Origin(0)])
    );
}

#[test]
fn attributes_truncated_mid_attribute() {
    assert_eq!(MrtAttribute::parse(&[0x40]), Err(MrtError::Truncated));
    assert_eq!(MrtAttribute::parse(&[0x40, 0x01]), Err(MrtError::Truncated));
    assert_eq!(MrtAttribute::parse(&[0x50, 0x02, 0x00]), Err(MrtError::Truncated));
    assert_eq!(MrtAttribute::parse(&[0x40, 0x01, 0x01]), Err(MrtError::Truncated));
    assert_eq!(MrtAttribute::parse(&[0x40, 0x20, 0x03, 1, 2]), Err(MrtError::Truncated));
    assert_eq!(MrtAttribute::parse(&[]), Ok(vec![]));
}

#[test]
fn attributes_bad_segment_inside_as_path() {
    assert_eq!(
        MrtAttribute::parse(&[0x40, 0x02, 0x02, 0x05, 0x00]),
        Err(MrtError::BadAsPathSegment { segment_type: 5 })
    );
}

#[test]
fn peer_index_table_without_peers() {
    let payload = [0, 0, 0, 0, 0, 0, 0, 0];
    let table = MrtPeerIndexTable::parse(&payload).unwrap();
    assert_eq!(table, MrtPeerIndexTable::default());
    assert_eq!(table.collector_id, Address::V4(0));
    assert_eq!(table.view_name, "");
    assert_eq!(table.peers.len(), 0);
}

#[test]
fn peer_index_table_with_all_peer_shapes() {
    let mut payload = vec![10, 0, 0, 1, 0, 4];
    payload.extend_from_slice(b"view");
    payload.extend_from_slice(&[0, 4]);
    // IPv4 address, two-byte AS
    payload.extend_from_slice(&[0x00, 1, 1, 1, 1, 192, 0, 2, 1, 0xfd, 0xe8]);
    // IPv4 address, four-byte AS
    payload.extend_from_slice(&[0x02, 2, 2, 2, 2, 192, 0, 2, 2, 0, 1, 0, 0]);
    // IPv6 address, two-byte AS
    payload.push(0x01);
    payload.extend_from_slice(&[3, 3, 3, 3]);
    payload.extend_from_slice(&0x2001_0db8_0000_0000_0000_0000_0000_0003u128.to_be_bytes());
    payload.extend_from_slice(&[0, 3]);
    // IPv6 address, four-byte AS
    payload.push(0x03);
    payload.extend_from_slice(&[4, 4, 4, 4]);
    payload.extend_from_slice(&0x2001_0db8_0000_0000_0000_0000_0000_0004u128.to_be_bytes());
    payload.extend_from_slice(&[0, 0, 0, 4]);
    let table = MrtPeerIndexTable::parse(&payload).unwrap();
    assert_eq!(table.collector_id, Address::V4(0x0a000001));
    assert_eq!(table.view_name, "view");
    assert_eq!(table.peer_count, 4);
    assert_eq!(
        table.peers,
        vec![
            MrtPeer {
                peer_type_a: false,
                peer_type_i: false,
                peer_id: Address::V4(0x01010101),
                peer_address: Address::V4(0xc0000201),
                peer_as: 65000,
            },
            MrtPeer {
                peer_type_a: true,
                peer_type_i: false,
                peer_id: Address::V4(0x02020202),
                peer_address: Address::V4(0xc0000202),
                peer_as: 65536,
            },
            MrtPeer {
                peer_type_a: false,
                peer_type_i: true,
                peer_id: Address::V4(0x03030303),
                peer_address: Address::V6(0x2001_0db8_0000_0000_0000_0000_0000_0003),
                peer_as: 3,
            },
            MrtPeer {
                peer_type_a: true,
                peer_type_i: true,
                peer_id: Address::V4(0x04040404),
                peer_address: Address::V6(0x2001_0db8_0000_0000_0000_0000_0000_0004),
                peer_as: 4,
            },
        ]
    );
}

#[test]
fn peer_index_table_bad_view_name() {
    let payload = [0, 0, 0, 0, 0, 2, 0xff, 0xfe, 0, 0];
    assert_eq!(MrtPeerIndexTable::parse(&payload), Err(MrtError::BadString));
}

#[test]
fn peer_index_table_multibyte_view_name() {
    let mut payload = vec![0, 0, 0, 0, 0, 3];
    payload.extend_from_slice("\u{20ac}".as_bytes());
    payload.extend_from_slice(&[0, 0]);
    let table = MrtPeerIndexTable::parse(&payload).unwrap();
    assert_eq!(table.view_name, "\u{20ac}");
}

#[test]
fn peer_index_table_truncated() {
    assert_eq!(MrtPeerIndexTable::parse(&[0, 0, 0]), Err(MrtError::Truncated));
    assert_eq!(MrtPeerIndexTable::parse(&[0, 0, 0, 0, 0, 2, b'a']), Err(MrtError::Truncated));
    assert_eq!(MrtPeerIndexTable::parse(&[0, 0, 0, 0, 0, 0, 0]), Err(MrtError::Truncated));
    assert_eq!(
        MrtPeerIndexTable::parse(&[0, 0, 0, 0, 0, 0, 0, 1, 0x00, 1, 1, 1, 1, 2, 2, 2, 2, 0]),
        Err(MrtError::Truncated)
    );
}

#[test]
fn default_peer_is_unspecified() {
    assert_eq!(
        MrtPeer::default(),
        MrtPeer {
            peer_type_a: true,
            peer_type_i: false,
            peer_id: Address::V4(0),
            peer_address: Address::V4(0),
            peer_as: 0,
        }
    );
}

#[test]
fn nlri_v4_with_two_entries() {
    let table = MrtPeerIndexTable {
        collector_id: Address::V4(1),
        view_name: String::new(),
        peer_count: 1,
        peers: vec![MrtPeer {
            peer_type_a: true,
            peer_type_i: false,
            peer_id: Address::V4(7),
            peer_address: Address::V4(8),
            peer_as: 9,
        }],
    };
    let mut payload = vec![0, 0, 0, 5, 22, 10, 1, 0xfc, 0, 2];
    payload.extend_from_slice(&rib_entry_bytes(0, 1000, &[0x40, 0x01, 0x01, 0x00]));
    payload.extend_from_slice(&rib_entry_bytes(3, 2000, &[]));
    let nlri = MrtNlri::parse_v4(&payload, &table).unwrap();
    assert_eq!(nlri.sequence, 5);
    assert_eq!(nlri.plen, 22);
    assert_eq!(nlri.prefix, Address::V4(0x0a01fc00));
    assert_eq!(nlri.entry_count, 2);
    assert_eq!(nlri.rib_entries.len(), 2);
    assert_eq!(nlri.rib_entries[0].peer_id, 0);
    assert_eq!(nlri.rib_entries[0].peer, table.peers[0]);
    assert_eq!(nlri.rib_entries[0].origin_time, 1000);
    assert_eq!(nlri.rib_entries[0].attributes, vec![MrtAttribute::Origin(0)]);
    assert_eq!(nlri.rib_entries[1].peer_id, 3);
    assert_eq!(nlri.rib_entries[1].peer, MrtPeer::default());
    assert_eq!(nlri.rib_entries[1].origin_time, 2000);
    assert_eq!(nlri.rib_entries[1].attributes, vec![]);
}

#[test]
fn nlri_prefix_lengths_at_the_edges() {
    let table = MrtPeerIndexTable::default();
    let zero = MrtNlri::parse_v4(&[0, 0, 0, 0, 0, 0, 0], &table).unwrap();
    assert_eq!((zero.prefix, zero.plen), (Address::V4(0), 0));
    let one = MrtNlri::parse_v4(&[0, 0, 0, 0, 1, 0x80, 0, 0], &table).unwrap();
    assert_eq!((one.prefix, one.plen), (Address::V4(0x80000000), 1));
    let full = MrtNlri::parse_v4(&[0, 0, 0, 0, 32, 1, 2, 3, 4, 0, 0], &table).unwrap();
    assert_eq!((full.prefix, full.plen), (Address::V4(0x01020304), 32));
    assert_eq!(
        MrtNlri::parse_v4(&[0, 0, 0, 0, 33, 1, 2, 3, 4, 5, 0, 0], &table),
        Err(MrtError::BadPrefixLength { plen: 33 })
    );
}

#[test]
fn nlri_v6_prefix_is_left_aligned() {
    let table = MrtPeerIndexTable::default();
    let payload = [0, 0, 0, 9, 33, 0x20, 0x01, 0x0d, 0xb8, 0x80, 0, 0];
    let nlri = MrtNlri::parse_v6(&payload, &table).unwrap();
    assert_eq!(nlri.sequence, 9);
    assert_eq!(nlri.plen, 33);
    assert_eq!(nlri.prefix, Address::V6(0x2001_0db8_8000_0000_0000_0000_0000_0000));
    assert_eq!(
        MrtNlri::parse_v6(&[0, 0, 0, 0, 129], &table),
        Err(MrtError::BadPrefixLength { plen: 129 })
    );
}

#[test]
fn nlri_truncated_and_failing_entries() {
    let table = MrtPeerIndexTable::default();
    assert_eq!(MrtNlri::parse_v4(&[0, 0, 0, 0], &table), Err(MrtError::Truncated));
    assert_eq!(MrtNlri::parse_v4(&[0, 0, 0, 0, 8, 10, 0], &table), Err(MrtError::Truncated));
    assert_eq!(
        MrtNlri::parse_v4(&[0, 0, 0, 0, 8, 10, 0, 1, 0, 0], &table),
        Err(MrtError::Truncated)
    );
    let mut payload = vec![0, 0, 0, 0, 8, 10, 0, 1];
    payload.extend_from_slice(&rib_entry_bytes(0, 0, &[0x40, 0x01, 0x02, 0, 0]));
    assert_eq!(
        MrtNlri::parse_v4(&payload, &table),
        Err(MrtError::BadAttribute { code: 1, got_len: 2 })
    );
}

#[test]
fn rib_entry_moves_the_reader_behind_itself() {
    let table = MrtPeerIndexTable::default();
    let mut bytes = rib_entry_bytes(2, 77, &[0x40, 0x06, 0x00]);
    bytes.push(0xee);
    let mut reader = Reader::new(&bytes);
    let entry = MrtNlri::parse_rib_entry(&mut reader, &table).unwrap();
    assert_eq!(entry.peer_id, 2);
    assert_eq!(entry.origin_time, 77);
    assert_eq!(entry.attributes, vec![MrtAttribute::AtomicAggregate]);
    assert_eq!(reader.offset(), 11);
    assert_eq!(reader.remaining(), 1);
}

#[test]
fn rib_entry_failure_leaves_the_reader() {
    let table = MrtPeerIndexTable::default();
    let bad = rib_entry_bytes(2, 77, &[0x40, 0x06, 0x01, 0x00]);
    let mut reader = Reader::new(&bad);
    assert_eq!(
        MrtNlri::parse_rib_entry(&mut reader, &table),
        Err(MrtError::BadAttribute { code: 6, got_len: 1 })
    );
    assert_eq!(reader.offset(), 0);
    let whole = rib_entry_bytes(2, 77, &[0x40, 0x06, 0x00]);
    for cut in 0..whole.len() {
        let mut reader = Reader::new(&whole[..cut]);
        assert_eq!(MrtNlri::parse_rib_entry(&mut reader, &table), Err(MrtError::Truncated));
        assert_eq!(reader.offset(), 0);
    }
}

#[test]
fn mrt_record_with_empty_peer_table() {
    let bytes = record_bytes(0x5e000000, 13, 1, &[0, 0, 0, 0, 0, 0, 0, 0]);
    let mut reader = Reader::new(&bytes);
    let mrt = Mrt::parse(&mut reader, &MrtPeerIndexTable::default()).unwrap();
    assert_eq!(mrt.timestamp, 0x5e000000);
    assert_eq!(mrt.mrt_type, 13);
    assert_eq!(mrt.mrt_subtype, 1);
    assert_eq!(mrt.length, 8);
    assert_eq!(mrt.data, MrtRecord::PeerIndexTable(MrtPeerIndexTable::default()));
    assert!(reader.is_empty());
}

#[test]
fn mrt_record_of_another_kind_is_generic() {
    let mut bytes = record_bytes(1, 16, 4, &[1, 2, 3]);
    bytes.extend_from_slice(&record_bytes(2, 13, 3, &[]));
    let mut reader = Reader::new(&bytes);
    let table = MrtPeerIndexTable::default();
    let first = Mrt::parse(&mut reader, &table).unwrap();
    assert_eq!(first.data, MrtRecord::RibGeneric);
    assert_eq!(first.length, 3);
    assert_eq!(reader.offset(), 15);
    let second = Mrt::parse(&mut reader, &table).unwrap();
    assert_eq!(second.data, MrtRecord::RibGeneric);
    assert_eq!((second.mrt_type, second.mrt_subtype), (13, 3));
    assert!(reader.is_empty());
}

#[test]
fn mrt_record_dispatches_both_families() {
    let table = MrtPeerIndexTable::default();
    let v4 = record_bytes(0, 13, 2, &[0, 0, 0, 1, 8, 10, 0, 0]);
    let mrt = Mrt::parse(&mut Reader::new(&v4), &table).unwrap();
    match mrt.data {
        MrtRecord::RibIpv4Unicast(nlri) => assert_eq!(nlri.prefix, Address::V4(0x0a000000)),
        other => panic!("{:?}", other),
    }
    let v6 = record_bytes(0, 13, 4, &[0, 0, 0, 1, 8, 0x20, 0, 0]);
    let mrt = Mrt::parse(&mut Reader::new(&v6), &table).unwrap();
    match mrt.data {
        MrtRecord::RibIpv6Unicast(nlri) => assert_eq!(nlri.prefix, Address::V6(0x20 << 120)),
        other => panic!("{:?}", other),
    }
}

#[test]
fn mrt_record_truncated_leaves_the_reader() {
    let bytes = record_bytes(0, 13, 1, &[0, 0, 0, 0, 0, 0, 0, 0]);
    let table = MrtPeerIndexTable::default();
    for cut in 1..bytes.len() {
        let mut reader = Reader::new(&bytes[..cut]);
        assert_eq!(Mrt::parse(&mut reader, &table), Err(MrtError::Truncated));
        assert_eq!(reader.offset(), 0);
    }
    assert_eq!(Mrt::parse(&mut Reader::new(&[]), &table), Err(MrtError::Truncated));
}
