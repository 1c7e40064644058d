use crate::error::MrtError;
use crate::filter::Filter;
use crate::getopt::{Getopt, GetoptView};
use crate::ipaddrmask::Address;
use crate::mrt::{parse_mrt, record_len, Mrt, MrtRecord, MrtView, RecordView};
use crate::output::{
    cisco_header, cisco_rows, cisco_show_ip_bgp, cisco_show_ip_bgp_header, csv_rows,
    csv_show_route, juniper_of_entries, juniper_show_route,
};
use crate::peer::{empty_table, MrtPeerIndexTable, PeerIndexTableView};
use crate::reader::Reader;
use crate::rib::{MrtNlri, NlriView, RibEntryView};
use crate::routing_table::{Routes, RoutingTable};
use crate::trie::with_route;
use vstd::prelude::*;

verus! {

/// The outcome of running `filters` on a record from left to right, each
/// filter on the entries that the filters before it have left, up to the
/// first filter that does not accept: whether every filter accepted, and the
/// entries that are left.
pub open spec fn filtered(
    filters: Seq<Filter>,
    prefix: Address,
    plen: u8,
    entries: Seq<RibEntryView>,
) -> (bool, Seq<RibEntryView>)
    decreases filters.len(),
{
    if filters.len() == 0 {
        (true, entries)
    } else if filters[0].accepts(prefix, plen, entries) {
        filtered(filters.skip(1), prefix, plen, filters[0].surviving(entries))
    } else {
        (false, filters[0].surviving(entries))
    }
}

/// The entries that the first `n` filters leave of `entries`.
pub open spec fn entries_after(filters: Seq<Filter>, entries: Seq<RibEntryView>, n: nat) -> Seq<
    RibEntryView,
>
    decreases n,
{
    if n == 0 || filters.len() == 0 {
        entries
    } else {
        entries_after(filters.skip(1), filters[0].surviving(entries), (n - 1) as nat)
    }
}

/// Filters are a conjunction: a record is admitted exactly when every
/// filter, evaluated from left to right on the record as the filters before
/// it have left it, accepts.
pub proof fn lemma_filter_conjunction(
    filters: Seq<Filter>,
    prefix: Address,
    plen: u8,
    entries: Seq<RibEntryView>,
)
    ensures
        filtered(filters, prefix, plen, entries).0 <==> forall|i: int|
            0 <= i < filters.len() ==> (#[trigger] filters[i]).accepts(
                prefix,
                plen,
                entries_after(filters, entries, i as nat),
            ),
    decreases filters.len(),
{
    if filters.len() > 0 {
        let rest = filters.skip(1);
        let left = filters[0].surviving(entries);
        lemma_filter_conjunction(rest, prefix, plen, left);
        assert(entries_after(filters, entries, 0) == entries);
        if filtered(filters, prefix, plen, entries).0 {
            assert forall|i: int| 0 <= i < filters.len() implies (#[trigger] filters[i]).accepts(
                prefix,
                plen,
                entries_after(filters, entries, i as nat),
            ) by {
                if i > 0 {
                    assert(rest[i - 1] == filters[i]);
                    assert(rest[i - 1].accepts(
                        prefix,
                        plen,
                        entries_after(rest, left, (i - 1) as nat),
                    ));
                }
            }
        }
        if forall|i: int|
            0 <= i < filters.len() ==> (#[trigger] filters[i]).accepts(
                prefix,
                plen,
                entries_after(filters, entries, i as nat),
            ) {
            assert(filters[0].accepts(prefix, plen, entries));
            assert forall|i: int| 0 <= i < rest.len() implies (#[trigger] rest[i]).accepts(
                prefix,
                plen,
                entries_after(rest, left, i as nat),
            ) by {
                assert(rest[i] == filters[i + 1]);
                assert(filters[i + 1].accepts(
                    prefix,
                    plen,
                    entries_after(filters, entries, (i + 1) as nat),
                ));
            }
        }
    }
}

/// The lines that show an admitted record: none unless the command line has
/// filters or asks for verbose output, else the record's paths in the style
/// that the command line asks for. `now` counts the seconds since the UNIX
/// epoch.
pub open spec fn shown_route(
    options: GetoptView,
    prefix: Address,
    plen: u8,
    entries: Seq<RibEntryView>,
    now: u64,
) -> Seq<Seq<char>> {
    if options.verbose || options.filter.len() > 0 {
        if options.juniper_output {
            juniper_of_entries(prefix, plen, entries, entries.len() as int, now)
        } else if options.terse_output {
            csv_rows(prefix, plen, entries)
        } else {
            cisco_rows(prefix, plen, entries)
        }
    } else {
        Seq::empty()
    }
}

/// The lines that show a peer index table: the heading of a Cisco-style
/// table where the command line has filters and asks for no other style.
pub open spec fn shown_header(options: GetoptView, timestamp: u32, table: PeerIndexTableView) -> Seq<
    Seq<char>,
> {
    if options.filter.len() > 0 && !options.juniper_output && !options.terse_output {
        cisco_header(timestamp, table)
    } else {
        Seq::empty()
    }
}

/// Appends `more` to `lines`.
fn push_lines(lines: &mut Vec<String>, more: Vec<String>)
    ensures
        final(lines).deep_view() == old(lines).deep_view() + more.deep_view(),
{
    let mut more = more;
    let ghost added = more.deep_view();
    let ghost head = lines.deep_view();
    lines.append(&mut more);
    assert(lines.deep_view() =~= head + added);
}

/// Runs the filters of the command line on a record, from left to right and
/// up to the first one that does not accept. What is left of an admitted
/// record is shown in `lines` and stored in the routing table. Returns
/// whether the record was admitted.
pub fn load_nlri(
    nlri: MrtNlri,
    options: &Getopt,
    now: u64,
    routing_table: &mut RoutingTable,
    lines: &mut Vec<String>,
) -> (admitted: bool)
    requires
        nlri.plen <= nlri.prefix.spec_width(),
    ensures
        admitted == filtered(
            options.filter@,
            nlri.prefix,
            nlri.plen,
            nlri.rib_entries.deep_view(),
        ).0,
        final(routing_table)@ == if admitted {
            with_route(
                old(routing_table)@,
                nlri.prefix.masked(nlri.plen),
                nlri.plen,
                filtered(options.filter@, nlri.prefix, nlri.plen, nlri.rib_entries.deep_view()).1,
            )
        } else {
            old(routing_table)@
        },
        final(lines).deep_view() == if admitted {
            old(lines).deep_view() + shown_route(
                options.deep_view(),
                nlri.prefix,
                nlri.plen,
                filtered(options.filter@, nlri.prefix, nlri.plen, nlri.rib_entries.deep_view()).1,
                now,
            )
        } else {
            old(lines).deep_view()
        },
{
    let filters = &options.filter;
    let ghost whole = filtered(filters@, nlri.prefix, nlri.plen, nlri.rib_entries.deep_view());
    let ghost prefix = nlri.prefix;
    let ghost plen = nlri.plen;
    let mut nlri = nlri;
    let mut matched = true;
    let mut i: usize = 0;
    assert(filters@.skip(0) =~= filters@);
    while matched && i < filters.len()
        invariant
            i <= filters.len(),
            nlri.plen == plen && nlri.prefix == prefix,
            matched ==> whole == filtered(
                filters@.skip(i as int),
                nlri.prefix,
                nlri.plen,
                nlri.rib_entries.deep_view(),
            ),
            !matched ==> !whole.0,
        decreases filters.len() - i,
    {
        assert(filters@.skip(i as int)[0] == filters@[i as int]);
        assert(filters@.skip(i as int).skip(1) =~= filters@.skip(i + 1));
        matched = filters[i].eval(&mut nlri);
        i = i + 1;
    }
    if matched {
        if options.verbose || options.filter.len() > 0 {
            let shown = if options.juniper_output {
                juniper_show_route(&nlri.prefix, nlri.plen, &nlri.rib_entries, now)
            } else if options.terse_output {
                csv_show_route(&nlri.prefix, nlri.plen, &nlri.rib_entries)
            } else {
                cisco_show_ip_bgp(&nlri.prefix, nlri.plen, &nlri.rib_entries)
            };
            push_lines(lines, shown);
        } else {
            assert(lines.deep_view() =~= old(lines).deep_view() + Seq::<Seq<char>>::empty());
        }
        routing_table.add(nlri.prefix, nlri.plen, nlri.rib_entries);
    }
    matched
}

/// What a load has done so far: the routes, the peer index table in force,
/// the number of records admitted, the number of records of other kinds,
/// and the lines that show what was loaded.
pub struct LoadState {
    pub routes: Routes,
    pub peers: PeerIndexTableView,
    pub count: nat,
    pub skipped: nat,
    pub lines: Seq<Seq<char>>,
}

/// The state after one more record. A peer index table replaces the one in
/// force; a RIB record goes through the filters and, if admitted, into the
/// routes; any other record is counted as skipped.
pub open spec fn after_record(state: LoadState, record: MrtView, options: GetoptView, now: u64) -> LoadState {
    match record.data {
        RecordView::PeerIndexTable(table) => LoadState {
            peers: table,
            lines: state.lines + shown_header(options, record.timestamp, table),
            ..state
        },
        RecordView::RibIpv4Unicast(nlri) => after_nlri(state, nlri, options, now),
        RecordView::RibIpv6Unicast(nlri) => after_nlri(state, nlri, options, now),
        _ => LoadState { skipped: state.skipped + 1, ..state },
    }
}

/// The state after one more prefix record.
#[verifier::opaque]
pub open spec fn after_nlri(state: LoadState, nlri: NlriView, options: GetoptView, now: u64) -> LoadState {
    let outcome = filtered(options.filter, nlri.prefix, nlri.plen, nlri.rib_entries);
    if outcome.0 {
        LoadState {
            routes: with_route(state.routes, nlri.prefix.masked(nlri.plen), nlri.plen, outcome.1),
            count: state.count + 1,
            lines: state.lines + shown_route(options, nlri.prefix, nlri.plen, outcome.1, now),
            ..state
        }
    } else {
        state
    }
}

/// What loading `bytes`, which start at `offset` of the input, leads to: the
/// state after the last record that decodes, and the failure that ended the
/// load, with the offset of the record that did not decode. An input that
/// ends where a record ends has no failure.
pub open spec fn load_from(
    bytes: Seq<u8>,
    offset: int,
    options: GetoptView,
    now: u64,
    state: LoadState,
) -> (LoadState, Option<(int, MrtError)>)
    decreases bytes.len(),
{
    if bytes.len() == 0 {
        (state, None)
    } else {
        match parse_mrt(bytes, state.peers.peers) {
            Ok(record) => load_from(
                bytes.skip(record_len(bytes)),
                offset + record_len(bytes),
                options,
                now,
                after_record(state, record, options, now),
            ),
            Err(e) => (state, Some((offset, e))),
        }
    }
}

/// The state before the first record of an input.
pub open spec fn initial_state(routes: Routes) -> LoadState {
    LoadState { routes, peers: empty_table(), count: 0, skipped: 0, lines: Seq::empty() }
}

/// How a load ended.
#[derive(Debug, Clone, PartialEq, Eq)]
pub struct LoadReport {
    /// The number of prefix records that the filters admitted.
    pub count: u64,
    /// The number of records that are neither a peer index table nor a
    /// unicast RIB record.
    pub skipped: u64,
    /// The peer index table in force at the end.
    pub peer_index_table: MrtPeerIndexTable,
    /// The lines that show what was loaded, in the order of the records.
    pub lines: Vec<String>,
    /// The error that ended the load and the offset of the record that it
    /// came from; `None` where the input ended behind a record.
    pub failure: Option<(usize, MrtError)>,
}

/// Loads a dump: decodes record after record, keeps the latest peer index
/// table, and stores each prefix record that the filters of the command line
/// admit in the routing table. The load ends without failure where the
/// input ends behind a record, and with a failure at the first record that
/// does not decode; the records before it stay loaded. `now` counts the
/// seconds since the UNIX epoch.
#[verifier::rlimit(40)]
pub fn load(data: &[u8], options: &Getopt, now: u64, routing_table: &mut RoutingTable) -> (report:
    LoadReport)
    ensures
        ({
            let end = load_from(
                data@,
                0,
                options.deep_view(),
                now,
                initial_state(old(routing_table)@),
            );
            &&& final(routing_table)@ == end.0.routes
            &&& report.peer_index_table.deep_view() == end.0.peers
            &&& report.count == end.0.count
            &&& report.skipped == end.0.skipped
            &&& report.lines.deep_view() == end.0.lines
            &&& match report.failure {
                Some((offset, e)) => end.1 == Some((offset as int, e)),
                None => end.1 is None,
            }
        }),
{
    let ghost end = load_from(data@, 0, options.deep_view(), now, initial_state(routing_table@));
    let mut reader = Reader::new(data);
    let mut peer_index_table = MrtPeerIndexTable::default();
    let mut count: u64 = 0;
    let mut skipped: u64 = 0;
    let mut lines: Vec<String> = Vec::new();
    assert(lines.deep_view() =~= Seq::empty());
    proof {
        reveal(after_nlri);
    }
    while !reader.is_empty()
        invariant
            count + skipped <= reader.spec_offset(),
            end == load_from(
                data@,
                0,
                options.deep_view(),
                now,
                initial_state(old(routing_table)@),
            ),
            end == load_from(
                reader@,
                reader.spec_offset() as int,
                options.deep_view(),
                now,
                LoadState {
                    routes: routing_table@,
                    peers: peer_index_table.deep_view(),
                    count: count as nat,
                    skipped: skipped as nat,
                    lines: lines.deep_view(),
                },
            ),
        decreases reader@.len(),
    {
        let ghost bytes = reader@;
        proof {
            reveal(after_nlri);
        }
        let offset = reader.offset();
        let mrt = match Mrt::parse(&mut reader, &peer_index_table) {
            Ok(mrt) => mrt,
            Err(e) => {
                assert(reader@ == bytes && bytes.len() > 0);
                assert(parse_mrt(bytes, peer_index_table.deep_view().peers) is Err);
                return LoadReport {
                    count,
                    skipped,
                    peer_index_table,
                    lines,
                    failure: Some((offset, e)),
                };
            },
        };
        match mrt.data {
            MrtRecord::PeerIndexTable(table) => {
                peer_index_table = table;
                if options.filter.len() > 0 && !options.juniper_output && !options.terse_output {
                    push_lines(
                        &mut lines,
                        cisco_show_ip_bgp_header(mrt.timestamp, &peer_index_table),
                    );
                } else {
                    assert(lines.deep_view() + Seq::<Seq<char>>::empty() =~= lines.deep_view());
                }
            },
            MrtRecord::RibIpv4Unicast(nlri) => {
                if load_nlri(nlri, options, now, routing_table, &mut lines) {
                    count = count + 1;
                }
            },
            MrtRecord::RibIpv6Unicast(nlri) => {
                if load_nlri(nlri, options, now, routing_table, &mut lines) {
                    count = count + 1;
                }
            },
            _ => {
                skipped = skipped + 1;
            },
        }
    }
    LoadReport { count, skipped, peer_index_table, lines, failure: None }
}

/// A whole record decodes to the same value whatever follows it.
proof fn lemma_record_alone(record: Seq<u8>, rest: Seq<u8>, peers: Seq<crate::peer::MrtPeer>)
    requires
        record.len() >= 12,
        record.len() >= record_len(record),
    ensures
        record_len(record + rest) == record_len(record),
        parse_mrt(record + rest, peers) == parse_mrt(record, peers),
{
    let all = record + rest;
    assert(all.subrange(0, 4) =~= record.subrange(0, 4));
    assert(all.subrange(4, 6) =~= record.subrange(4, 6));
    assert(all.subrange(6, 8) =~= record.subrange(6, 8));
    assert(all.subrange(8, 12) =~= record.subrange(8, 12));
    assert(all.subrange(12, record_len(record)) =~= record.subrange(12, record_len(record)));
}

/// Loading an input that continues behind whole records: the records in
/// front are loaded, then the rest from the state and the offset that they
/// lead to.
#[verifier::rlimit(40)]
pub proof fn lemma_load_split(
    front: Seq<u8>,
    rest: Seq<u8>,
    offset: int,
    options: GetoptView,
    now: u64,
    state: LoadState,
)
    requires
        load_from(front, offset, options, now, state).1 is None,
    ensures
        load_from(front + rest, offset, options, now, state) == load_from(
            rest,
            offset + front.len(),
            options,
            now,
            load_from(front, offset, options, now, state).0,
        ),
    decreases front.len(),
{
    if front.len() == 0 {
        assert(front + rest =~= rest);
    } else {
        let size = record_len(front);
        let record = parse_mrt(front, state.peers.peers)->Ok_0;
        lemma_record_alone(front, rest, state.peers.peers);
        assert((front + rest).skip(size) =~= front.skip(size) + rest);
        lemma_load_split(
            front.skip(size),
            rest,
            offset + size,
            options,
            now,
            after_record(state, record, options, now),
        );
    }
}

/// An input that ends where a record ends loads without failure: one more
/// whole record behind an input that loads without failure is loaded too.
pub proof fn lemma_clean_end(
    front: Seq<u8>,
    record: Seq<u8>,
    options: GetoptView,
    now: u64,
    state: LoadState,
)
    requires
        load_from(front, 0, options, now, state).1 is None,
        record.len() >= 12,
        record.len() == record_len(record),
        parse_mrt(record, load_from(front, 0, options, now, state).0.peers.peers) is Ok,
    ensures
        load_from(front + record, 0, options, now, state) == (
            after_record(
                load_from(front, 0, options, now, state).0,
                parse_mrt(record, load_from(front, 0, options, now, state).0.peers.peers)->Ok_0,
                options,
                now,
            ),
            None::<(int, MrtError)>,
        ),
{
    let mid = load_from(front, 0, options, now, state).0;
    let after = after_record(mid, parse_mrt(record, mid.peers.peers)->Ok_0, options, now);
    lemma_load_split(front, record, 0, options, now, state);
    let tail = record.skip(record_len(record));
    assert(tail.len() == 0);
    assert(load_from(tail, front.len() + record_len(record), options, now, after) == (
        after,
        None::<(int, MrtError)>,
    ));
    assert(load_from(record, front.len() as int, options, now, mid) == load_from(
        tail,
        front.len() + record_len(record),
        options,
        now,
        after,
    ));
}

/// An input whose last record lacks its last byte ends in `Truncated`,
/// reported at the offset where that record starts; the records before it
/// stay loaded.
pub proof fn lemma_truncated_end(
    front: Seq<u8>,
    record: Seq<u8>,
    options: GetoptView,
    now: u64,
    state: LoadState,
)
    requires
        load_from(front, 0, options, now, state).1 is None,
        record.len() >= 12,
        record.len() == record_len(record),
    ensures
        load_from(front + record.drop_last(), 0, options, now, state) == (
            load_from(front, 0, options, now, state).0,
            Some((front.len() as int, MrtError::Truncated)),
        ),
{
    let cut = record.drop_last();
    lemma_load_split(front, cut, 0, options, now, state);
    if cut.len() >= 12 {
        assert(cut.subrange(8, 12) =~= record.subrange(8, 12));
    }
}

} // verus!
