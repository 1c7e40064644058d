use mrtdump::attribute::MrtAttribute;
use mrtdump::aspath::{AsPath, AsPathSegment};
use mrtdump::community::Community;
use mrtdump::error::MrtError;
use mrtdump::filter::Filter;
use mrtdump::getopt::Getopt;
use mrtdump::ipaddrmask::{Address, IpAddrMask};
use mrtdump::loader::{load, load_nlri};
use mrtdump::peer::{MrtPeer, MrtPeerIndexTable};
use mrtdump::prefix::Prefix;
use mrtdump::rib::{MrtNlri, MrtRibEntry};
use mrtdump::routing_table::RoutingTable;
use mrtdump::trie::Trie;

fn entry(tag: u16) -> MrtRibEntry {
    MrtRibEntry { peer_id: tag, peer: MrtPeer::default(), origin_time: 0, attributes: vec![] }
}

fn entry_with(tag: u16, attributes: Vec<MrtAttribute>) -> MrtRibEntry {
    MrtRibEntry { peer_id: tag, peer: MrtPeer::default(), origin_time: 0, attributes }
}

fn path(asns: Vec<u32>) -> MrtAttribute {
    MrtAttribute::AsPath(AsPath { aspath_segments: vec![AsPathSegment { ordered: true, asns }] })
}

fn v4(a: u8, b: u8, c: u8, d: u8) -> Address {
    Address::V4(u32::from_be_bytes([a, b, c, d]))
}

fn nlri(prefix: Address, plen: u8, rib_entries: Vec<MrtRibEntry>) -> MrtNlri {
    MrtNlri { sequence: 0, plen, prefix, entry_count: rib_entries.len() as u16, rib_entries }
}

fn options(filter: Vec<Filter>) -> Getopt {
    Getopt { filter, ..Getopt::default() }
}

fn record_bytes(mrt_type: u16, subtype: u16, payload: &[u8]) -> Vec<u8> {
    let mut bytes = vec![0x5e, 0, 0, 0];
    bytes.extend_from_slice(&mrt_type.to_be_bytes());
    bytes.extend_from_slice(&subtype.to_be_bytes());
    bytes.extend_from_slice(&(payload.len() as u32).to_be_bytes());
    bytes.extend_from_slice(payload);
    bytes
}

#[test]
fn mask_keeps_leading_bits() {
    assert_eq!(v4(10, 1, 2, 3).mask(8), v4(10, 0, 0, 0));
    assert_eq!(v4(10, 1, 2, 3).mask(16), v4(10, 1, 0, 0));
    assert_eq!(v4(10, 1, 2, 3).mask(31), v4(10, 1, 2, 2));
    assert_eq!(v4(255, 255, 255, 255).mask(1), v4(128, 0, 0, 0));
    assert_eq!(Address::V6(u128::MAX).mask(1), Address::V6(1 << 127));
    assert_eq!(Address::V6(u128::MAX).mask(127), Address::V6(u128::MAX - 1));
    assert_eq!(Address::V6(0x2001_0db8 << 96 | 0xffff).mask(32), Address::V6(0x2001_0db8 << 96));
}

#[test]
fn mask_at_the_boundaries() {
    assert_eq!(v4(10, 1, 2, 3).mask(0), v4(0, 0, 0, 0));
    assert_eq!(v4(10, 1, 2, 3).mask(32), v4(10, 1, 2, 3));
    assert_eq!(v4(10, 1, 2, 3).mask(33), v4(10, 1, 2, 3));
    assert_eq!(v4(10, 1, 2, 3).mask(255), v4(10, 1, 2, 3));
    assert_eq!(Address::V6(5).mask(0), Address::V6(0));
    assert_eq!(Address::V6(5).mask(128), Address::V6(5));
    assert_eq!(Address::V6(5).mask(200), Address::V6(5));
}

#[test]
fn mask_is_idempotent() {
    let addresses = [v4(10, 1, 2, 3), v4(255, 255, 255, 255), Address::V6(u128::MAX), Address::V6(0x1234)];
    for a in addresses {
        for n in 0..=255u8 {
            assert_eq!(a.mask(n).mask(n), a.mask(n));
        }
    }
}

#[test]
fn address_width() {
    assert_eq!(v4(1, 2, 3, 4).width(), 32);
    assert_eq!(Address::V6(1).width(), 128);
}

#[test]
fn lookup_prefers_the_longest_prefix() {
    let mut table = RoutingTable::new();
    table.add(v4(10, 0, 0, 0), 8, vec![entry(1)]);
    table.add(v4(10, 1, 0, 0), 16, vec![entry(2)]);
    assert_eq!(table.get(&v4(10, 1, 2, 3)), Some((v4(10, 1, 0, 0), 16, &vec![entry(2)])));
    assert_eq!(table.get(&v4(10, 2, 3, 4)), Some((v4(10, 0, 0, 0), 8, &vec![entry(1)])));
    assert_eq!(table.get(&v4(11, 0, 0, 0)), None);
}

#[test]
fn insertion_appends_in_order() {
    let mut table = RoutingTable::new();
    table.add(v4(10, 0, 0, 0), 8, vec![entry(1)]);
    table.add(v4(10, 0, 0, 0), 8, vec![entry(2), entry(3)]);
    assert_eq!(
        table.get(&v4(10, 0, 0, 1)),
        Some((v4(10, 0, 0, 0), 8, &vec![entry(1), entry(2), entry(3)]))
    );
}

#[test]
fn insertion_ignores_host_bits() {
    let mut table = RoutingTable::new();
    table.add(v4(10, 9, 9, 9), 8, vec![entry(1)]);
    table.add(v4(10, 0, 0, 0), 8, vec![entry(2)]);
    assert_eq!(table.get(&v4(10, 200, 0, 0)), Some((v4(10, 0, 0, 0), 8, &vec![entry(1), entry(2)])));
}

#[test]
fn default_route_and_host_route() {
    let mut table = RoutingTable::new();
    assert_eq!(table.get(&v4(1, 2, 3, 4)), None);
    table.add(v4(0, 0, 0, 0), 0, vec![entry(1)]);
    table.add(v4(1, 2, 3, 4), 32, vec![entry(2)]);
    assert_eq!(table.get(&v4(1, 2, 3, 4)), Some((v4(1, 2, 3, 4), 32, &vec![entry(2)])));
    assert_eq!(table.get(&v4(1, 2, 3, 5)), Some((v4(0, 0, 0, 0), 0, &vec![entry(1)])));
    assert_eq!(table.get(&Address::V6(0x01020304)), None);
}

#[test]
fn families_are_kept_apart() {
    let mut table = RoutingTable::new();
    let block = Address::V6(0x2001_0db8 << 96);
    table.add(block, 32, vec![entry(6)]);
    table.add(Address::V6(u128::MAX), 128, vec![entry(7)]);
    assert_eq!(table.get(&Address::V6(0x2001_0db8 << 96 | 1)), Some((block, 32, &vec![entry(6)])));
    assert_eq!(table.get(&Address::V6(u128::MAX)), Some((Address::V6(u128::MAX), 128, &vec![entry(7)])));
    assert_eq!(table.get(&Address::V6(u128::MAX - 1)), None);
    assert_eq!(table.get(&v4(0x20, 0x01, 0x0d, 0xb8)), None);
}

#[test]
fn lookup_among_many_prefixes() {
    let mut table = RoutingTable::new();
    let inserted: [(Address, u8); 6] = [
        (v4(0, 0, 0, 0), 0),
        (v4(192, 0, 0, 0), 3),
        (v4(192, 168, 0, 0), 16),
        (v4(192, 168, 1, 0), 24),
        (v4(192, 168, 1, 128), 25),
        (v4(192, 168, 1, 200), 32),
    ];
    for (i, (p, l)) in inserted.iter().enumerate() {
        table.add(*p, *l, vec![entry(i as u16)]);
    }
    let queries = [v4(192, 168, 1, 200), v4(192, 168, 1, 201), v4(192, 168, 1, 5), v4(192, 168, 9, 9), v4(200, 1, 1, 1), v4(8, 8, 8, 8)];
    for q in queries {
        let mut best: Option<usize> = None;
        for (i, (p, l)) in inserted.iter().enumerate() {
            if q.mask(*l) == *p {
                best = Some(i);
            }
        }
        let i = best.unwrap();
        assert_eq!(table.get(&q), Some((inserted[i].0, inserted[i].1, &vec![entry(i as u16)])));
    }
}

#[test]
fn trie_depth_limits_the_lookup() {
    let mut trie: Trie<32> = Trie::<32>::new();
    trie.add(0x0a000000, 8, vec![entry(1)]);
    trie.add(0x0a010000, 16, vec![entry(2)]);
    assert_eq!(trie.get(0x0a010203, 32), Some((0x0a010000, 16, &vec![entry(2)])));
    assert_eq!(trie.get(0x0a010203, 16), Some((0x0a010000, 16, &vec![entry(2)])));
    assert_eq!(trie.get(0x0a010203, 15), Some((0x0a000000, 8, &vec![entry(1)])));
    assert_eq!(trie.get(0x0a010203, 7), None);
    assert_eq!(trie.get(0x0a010203, 200), Some((0x0a010000, 16, &vec![entry(2)])));
    assert_eq!(Trie::<32>::max_depth(), 32);
    assert_eq!(Trie::<128>::max_depth(), 128);
}

#[test]
fn trie_of_wide_keys() {
    let mut trie: Trie<128> = Trie::<128>::new();
    trie.add(1 << 127, 1, vec![entry(1)]);
    trie.add(u128::MAX, 128, vec![entry(2)]);
    assert_eq!(trie.get(u128::MAX, 128), Some((u128::MAX, 128, &vec![entry(2)])));
    assert_eq!(trie.get(u128::MAX - 1, 128), Some((1 << 127, 1, &vec![entry(1)])));
    assert_eq!(trie.get(1, 128), None);
}

#[test]
fn prefix_filter_matches_more_specific_prefixes() {
    let filter = Filter::Prefix(Prefix { prefix: v4(10, 0, 0, 0), len: 8 });
    let mut inside = nlri(v4(10, 1, 0, 0), 16, vec![entry(1)]);
    assert!(filter.eval(&mut inside));
    assert_eq!(inside, nlri(v4(10, 1, 0, 0), 16, vec![entry(1)]));
    let mut outside = nlri(v4(11, 0, 0, 0), 8, vec![entry(1)]);
    assert!(!filter.eval(&mut outside));
    let mut shorter = nlri(v4(10, 0, 0, 0), 7, vec![entry(1)]);
    assert!(!filter.eval(&mut shorter));
    let mut same = nlri(v4(10, 0, 0, 0), 8, vec![]);
    assert!(filter.eval(&mut same));
}

#[test]
fn address_filter_matches_covering_prefixes() {
    let filter = Filter::LPM(v4(10, 1, 2, 3));
    assert!(filter.eval(&mut nlri(v4(10, 0, 0, 0), 8, vec![])));
    assert!(filter.eval(&mut nlri(v4(10, 1, 0, 0), 16, vec![])));
    assert!(!filter.eval(&mut nlri(v4(10, 0, 0, 0), 16, vec![])));
    assert!(filter.eval(&mut nlri(v4(0, 0, 0, 0), 0, vec![])));
    assert!(!filter.eval(&mut nlri(Address::V6(0), 0, vec![])));
}

#[test]
fn as_filter_keeps_matching_paths() {
    let filter = Filter::As(65001);
    let mut record = nlri(
        v4(10, 0, 0, 0),
        8,
        vec![
            entry_with(1, vec![path(vec![65000, 65001])]),
            entry_with(2, vec![path(vec![65002])]),
            entry_with(3, vec![]),
            entry_with(4, vec![MrtAttribute::Origin(0), path(vec![65001])]),
        ],
    );
    assert!(filter.eval(&mut record));
    assert_eq!(record.rib_entries.iter().map(|e| e.peer_id).collect::<Vec<u16>>(), vec![1, 4]);
    assert_eq!(record.entry_count, 4);
    assert!(!Filter::As(1).eval(&mut record));
    assert_eq!(record.rib_entries, vec![]);
}

#[test]
fn community_filter_keeps_matching_paths() {
    let wanted = Community::Standard(65000, 100);
    let filter = Filter::Community(wanted);
    let mut record = nlri(
        v4(10, 0, 0, 0),
        8,
        vec![
            entry_with(1, vec![MrtAttribute::Community(vec![Community::Standard(1, 1)])]),
            entry_with(2, vec![MrtAttribute::Community(vec![Community::Standard(1, 1), wanted])]),
            entry_with(3, vec![path(vec![65000, 100])]),
        ],
    );
    assert!(filter.eval(&mut record));
    assert_eq!(record.rib_entries.iter().map(|e| e.peer_id).collect::<Vec<u16>>(), vec![2]);
    assert!(record.rib_entries[0].community_contains(&wanted));
    assert!(!record.rib_entries[0].community_contains(&Community::Large(65000, 100, 0)));
}

#[test]
fn filters_are_a_conjunction_from_left_to_right() {
    let entries = || {
        vec![
            entry_with(1, vec![path(vec![1, 2])]),
            entry_with(2, vec![path(vec![2, 3])]),
            entry_with(3, vec![path(vec![3, 4])]),
        ]
    };
    let inside = Filter::Prefix(Prefix { prefix: v4(10, 0, 0, 0), len: 8 });
    let cases: Vec<(Vec<Filter>, Option<Vec<u16>>)> = vec![
        (vec![], Some(vec![1, 2, 3])),
        (vec![inside], Some(vec![1, 2, 3])),
        (vec![Filter::As(2)], Some(vec![1, 2])),
        (vec![Filter::As(2), Filter::As(3)], Some(vec![2])),
        (vec![Filter::As(3), Filter::As(2), inside], Some(vec![2])),
        (vec![Filter::As(1), Filter::As(4)], None),
        (vec![Filter::As(9), Filter::As(1)], None),
        (vec![Filter::LPM(v4(11, 0, 0, 0)), Filter::As(1)], None),
    ];
    for (filters, expected) in cases {
        let mut by_hand = nlri(v4(10, 1, 0, 0), 16, entries());
        let mut all = true;
        for f in &filters {
            if all {
                all = f.eval(&mut by_hand);
            }
        }
        let mut table = RoutingTable::new();
        let mut lines = vec![];
        let admitted =
            load_nlri(nlri(v4(10, 1, 0, 0), 16, entries()), &options(filters.clone()), 0, &mut table, &mut lines);
        assert_eq!(lines.is_empty(), filters.is_empty() || !admitted);
        assert_eq!(admitted, all);
        assert_eq!(admitted, expected.is_some());
        let found = table.get(&v4(10, 1, 0, 0));
        match expected {
            Some(tags) => {
                let (p, l, v) = found.unwrap();
                assert_eq!((p, l), (v4(10, 1, 0, 0), 16));
                assert_eq!(v, &by_hand.rib_entries);
                assert_eq!(v.iter().map(|e| e.peer_id).collect::<Vec<u16>>(), tags);
            }
            None => assert_eq!(found, None),
        }
    }
}

#[test]
fn entry_accessors_take_the_first_attribute() {
    let e = entry_with(
        1,
        vec![
            MrtAttribute::LocalPref(200),
            MrtAttribute::MultiExitDisc(5),
            MrtAttribute::Origin(1),
            MrtAttribute::NextHop(v4(192, 0, 2, 1)),
            MrtAttribute::MultiExitDisc(6),
            MrtAttribute::Origin(0),
            path(vec![7]),
        ],
    );
    assert_eq!(e.get_med(), Some(5));
    assert_eq!(e.get_local_pref(), Some(200));
    assert_eq!(e.get_nexthop(), v4(192, 0, 2, 1));
    assert_eq!(e.get_origin(), 1);
    assert_eq!(e.get_origin_char(false), 'e');
    assert_eq!(e.get_origin_char(true), 'E');
    assert!(e.aspath_contains(7));
    assert!(!e.aspath_contains(8));
    let bare = entry(0);
    assert_eq!(bare.get_med(), None);
    assert_eq!(bare.get_local_pref(), None);
    assert_eq!(bare.get_nexthop(), v4(0, 0, 0, 0));
    assert_eq!(bare.get_origin(), 255);
    assert_eq!(bare.get_origin_char(false), '!');
    assert_eq!(entry_with(0, vec![MrtAttribute::Origin(0)]).get_origin_char(false), 'i');
    assert_eq!(entry_with(0, vec![MrtAttribute::Origin(0)]).get_origin_char(true), 'I');
    assert_eq!(entry_with(0, vec![MrtAttribute::Origin(2)]).get_origin_char(true), '?');
}

#[test]
fn load_of_a_single_empty_peer_table() {
    let file = record_bytes(13, 1, &[0, 0, 0, 0, 0, 0, 0, 0]);
    assert_eq!(file.len(), 20);
    let mut table = RoutingTable::new();
    let report = load(&file, &options(vec![]), 0, &mut table);
    assert_eq!(report.failure, None);
    assert_eq!(report.count, 0);
    assert_eq!(report.skipped, 0);
    assert_eq!(report.peer_index_table.peers.len(), 0);
    assert_eq!(report.peer_index_table.collector_id, v4(0, 0, 0, 0));
    assert_eq!(table.get(&v4(0, 0, 0, 0)), None);
}

fn sample_file() -> Vec<u8> {
    let mut peers = vec![10, 0, 0, 1, 0, 2, b'r', b'v', 0, 1];
    peers.extend_from_slice(&[0x02, 1, 1, 1, 1, 192, 0, 2, 1, 0, 0, 0xfd, 0xe8]);
    let mut file = record_bytes(13, 1, &peers);
    // 10.0.0.0/8 with one path through AS 65001
    let mut rib = vec![0, 0, 0, 0, 8, 10, 0, 1, 0, 0, 0, 0, 0, 1, 0, 9];
    rib.extend_from_slice(&[0x40, 0x02, 0x06, 0x02, 0x01, 0, 0, 0xfd, 0xe9]);
    file.extend_from_slice(&record_bytes(13, 2, &rib));
    // a record of another type
    file.extend_from_slice(&record_bytes(16, 4, &[1, 2, 3, 4]));
    // 2001:db8::/32 with one path without attributes
    let rib6 = vec![0, 0, 0, 1, 32, 0x20, 0x01, 0x0d, 0xb8, 0, 1, 0, 5, 0, 0, 0, 2, 0, 0];
    file.extend_from_slice(&record_bytes(13, 4, &rib6));
    file
}

#[test]
fn load_of_a_small_dump() {
    let file = sample_file();
    let mut table = RoutingTable::new();
    let report = load(&file, &options(vec![]), 0, &mut table);
    assert_eq!(report.failure, None);
    assert_eq!(report.count, 2);
    assert_eq!(report.skipped, 1);
    assert_eq!(report.peer_index_table.view_name, "rv");
    assert_eq!(report.peer_index_table.peers.len(), 1);
    let (p, l, v) = table.get(&v4(10, 9, 9, 9)).unwrap();
    assert_eq!((p, l), (v4(10, 0, 0, 0), 8));
    assert_eq!(v.len(), 1);
    assert_eq!(v[0].peer, report.peer_index_table.peers[0]);
    assert_eq!(v[0].peer.peer_as, 65000);
    assert_eq!(v[0].origin_time, 1);
    assert!(v[0].aspath_contains(65001));
    let (p, l, v) = table.get(&Address::V6(0x2001_0db8 << 96 | 0xabcd)).unwrap();
    assert_eq!((p, l), (Address::V6(0x2001_0db8 << 96), 32));
    assert_eq!(v[0].peer_id, 5);
    assert_eq!(v[0].peer, MrtPeer::default());
    assert_eq!(v[0].origin_time, 2);
}

#[test]
fn load_with_filters() {
    let file = sample_file();
    let mut table = RoutingTable::new();
    let report = load(&file, &options(vec![Filter::As(65001)]), 0, &mut table);
    assert_eq!(report.failure, None);
    assert_eq!(report.count, 1);
    assert!(table.get(&v4(10, 0, 0, 1)).is_some());
    assert_eq!(table.get(&Address::V6(0x2001_0db8 << 96)), None);
}

#[test]
fn load_shows_what_it_admits() {
    let file = sample_file();
    let mut table = RoutingTable::new();
    let quiet = load(&file, &options(vec![]), 0, &mut table);
    assert_eq!(quiet.lines, Vec::<String>::new());
    let mut table = RoutingTable::new();
    let cisco = load(&file, &options(vec![Filter::As(65001)]), 0, &mut table);
    assert_eq!(
        cisco.lines,
        vec![
            "BGP table version is 1577058304, local router ID is 10.0.0.1, view is \"rv\"".to_string(),
            "Status codes: s suppressed, d damped, h history, * valid, > best, i - internal".to_string(),
            "Origin codes: i - IGP, e - EGP, ? - incomplete".to_string(),
            String::new(),
            "  Network                 Next Hop                \tMetric LocPrf Weight Path".to_string(),
            "* 10.0.0.0/8              0.0.0.0                 \t\t100\t32768\t65001 !".to_string(),
        ]
    );
    let mut table = RoutingTable::new();
    let verbose = Getopt { verbose: true, terse_output: true, ..Getopt::default() };
    let csv = load(&file, &verbose, 0, &mut table);
    assert_eq!(
        csv.lines,
        vec![
            "route/plen|neighbor|next_hop|med|localpref|aspath|communities",
            "10.0.0.0/8|192.0.2.1|0.0.0.0||100|65001 !|",
            "route/plen|neighbor|next_hop|med|localpref|aspath|communities",
            "2001:db8::/32|0.0.0.0|0.0.0.0||100| !|",
        ]
    );
    let mut table = RoutingTable::new();
    let juniper = Getopt { juniper_output: true, terse_output: true, filter: vec![Filter::Prefix(Prefix { prefix: v4(10, 0, 0, 0), len: 8 })], ..Getopt::default() };
    let shown = load(&file, &juniper, 3601, &mut table);
    assert_eq!(
        shown.lines,
        vec![
            "10.0.0.0/8\t[BGP/170] 01:00:00, localpref 100, from 192.0.2.1",
            "\t\t AS path: 65001 !",
            "\t\t> to 0.0.0.0",
        ]
    );
    assert_eq!(shown.count, 1);
}

#[test]
fn load_reports_truncation_at_the_record() {
    let file = sample_file();
    let boundaries = [0usize, 35, 72, 88, 119];
    assert_eq!(file.len(), 119);
    for cut in 0..=file.len() {
        let mut table = RoutingTable::new();
        let report = load(&file[..cut], &options(vec![]), 0, &mut table);
        if boundaries.contains(&cut) {
            assert_eq!(report.failure, None);
        } else {
            let start = *boundaries.iter().filter(|b| **b < cut).max().unwrap();
            assert_eq!(report.failure, Some((start, MrtError::Truncated)));
        }
        assert_eq!(table.get(&v4(10, 0, 0, 1)).is_some(), cut >= 72);
    }
}

#[test]
fn load_stops_at_a_bad_record() {
    let mut file = sample_file();
    let good = file.len();
    let mut rib = vec![0, 0, 0, 0, 8, 11, 0, 1, 0, 0, 0, 0, 0, 1, 0, 4];
    rib.extend_from_slice(&[0x40, 0x01, 0x02, 0x00]);
    file.extend_from_slice(&record_bytes(13, 2, &rib));
    file.extend_from_slice(&record_bytes(13, 2, &[0, 0, 0, 0, 8, 12, 0, 0]));
    let mut table = RoutingTable::new();
    let report = load(&file, &options(vec![]), 0, &mut table);
    assert_eq!(report.failure, Some((good, MrtError::BadAttribute { code: 1, got_len: 2 })));
    assert_eq!(report.count, 2);
    assert!(table.get(&v4(10, 0, 0, 1)).is_some());
    assert_eq!(table.get(&v4(12, 0, 0, 1)), None);
}
