use crate::ipaddrmask::Address;
use crate::literal::address_text;
use crate::peer::{MrtPeerIndexTable, PeerIndexTableView};
use crate::prefix::{prefix_text, push_prefix};
use crate::rib::{
    entry_community_text, entry_local_pref, entry_med, entry_nexthop, entry_origin,
    entry_path_text, origin_char, origin_str, MrtRibEntry, RibEntryView,
};
use crate::text::{decimal_text, padded_right, push_decimal, push_padded_right};
use crate::util::{duration_text, friendly_duration};
use vstd::prelude::*;
use vstd::string::StringExecFns;

verus! {

/// The weight that Cisco-style output shows for every path.
pub const CISCO_DEFAULT_WEIGHT: u32 = 32768;

/// The local preference that is shown for a path without LOCAL_PREF.
pub const DEFAULT_LOCAL_PREF: u32 = 100;

/// The local preference to show for an entry.
pub open spec fn shown_local_pref(entry: RibEntryView) -> nat {
    match entry_local_pref(entry) {
        Some(l) => l as nat,
        None => 100,
    }
}

/// The metric to show for an entry: its MED, or nothing.
pub open spec fn shown_med(entry: RibEntryView) -> Seq<char> {
    match entry_med(entry) {
        Some(m) => decimal_text(m as nat),
        None => Seq::empty(),
    }
}

/// The communities to show for an entry, or nothing.
pub open spec fn shown_community(entry: RibEntryView) -> Seq<char> {
    match entry_community_text(entry) {
        Some(c) => c,
        None => Seq::empty(),
    }
}

/// The heading of a Cisco-style table.
pub open spec fn cisco_header(version: u32, table: PeerIndexTableView) -> Seq<Seq<char>> {
    seq![
        "BGP table version is "@ + decimal_text(version as nat) + ", local router ID is "@
            + address_text(table.collector_id) + ", view is \""@ + table.view_name + "\""@,
        "Status codes: s suppressed, d damped, h history, * valid, > best, i - internal"@,
        "Origin codes: i - IGP, e - EGP, ? - incomplete"@,
        Seq::empty(),
        "  "@ + padded_right("Network"@, 24) + padded_right("Next Hop"@, 24)
            + "\tMetric LocPrf Weight Path"@,
    ]
}

/// One row of a Cisco-style table. Only the first row of a prefix names
/// it.
pub open spec fn cisco_row(prefix: Address, plen: u8, entry: RibEntryView, first: bool) -> Seq<
    char,
> {
    "* "@ + padded_right(
        if first {
            prefix_text(prefix, plen)
        } else {
            Seq::empty()
        },
        24,
    ) + padded_right(address_text(entry_nexthop(entry)), 24) + "\t"@ + shown_med(entry) + "\t"@
        + decimal_text(shown_local_pref(entry)) + "\t"@ + decimal_text(32768) + "\t"@
        + entry_path_text(entry) + " "@ + seq![origin_char(entry_origin(entry), false)]
}

/// The rows of a prefix in a Cisco-style table: one for each entry.
pub open spec fn cisco_rows(prefix: Address, plen: u8, entries: Seq<RibEntryView>) -> Seq<
    Seq<char>,
> {
    Seq::new(entries.len(), |i: int| cisco_row(prefix, plen, entries[i], i == 0))
}

/// The name of an origin code.
pub open spec fn origin_name(origin: u8) -> Seq<char> {
    if origin == 0 {
        "IGP"@
    } else if origin == 1 {
        "EGP"@
    } else if origin == 2 {
        "Incomplete"@
    } else {
        "Unknown"@
    }
}

/// The lines of one path in the Cisco-style detail of a prefix.
pub open spec fn detail_of_entry(entry: RibEntryView) -> Seq<Seq<char>> {
    let lines = seq![
        "  "@ + entry_path_text(entry),
        "    "@ + address_text(entry_nexthop(entry)) + " from "@ + address_text(
            entry.peer.peer_address,
        ) + " ("@ + address_text(entry.peer.peer_id) + ")"@,
        "      Origin "@ + origin_name(entry_origin(entry)) + match entry_med(entry) {
            Some(m) => ", metric "@ + decimal_text(m as nat),
            None => Seq::empty(),
        } + ", localpref "@ + decimal_text(shown_local_pref(entry)) + ", weight 32768"@ + ", valid"@,
    ];
    match entry_community_text(entry) {
        Some(c) => lines.push("      Community: "@ + c),
        None => lines,
    }
}

/// The lines of all paths in the Cisco-style detail of a prefix.
pub open spec fn detail_of_entries(entries: Seq<RibEntryView>) -> Seq<Seq<char>>
    decreases entries.len(),
{
    if entries.len() == 0 {
        Seq::empty()
    } else {
        detail_of_entries(entries.drop_last()) + detail_of_entry(entries.last())
    }
}

/// The Cisco-style detail of a prefix.
pub open spec fn cisco_detail(prefix: Address, plen: u8, entries: Seq<RibEntryView>) -> Seq<
    Seq<char>,
> {
    seq![
        "BGP routing table entry for "@ + prefix_text(prefix, plen),
        "Paths: ("@ + decimal_text(entries.len()) + " available)"@,
        "  Not advertised to any peer"@,
    ] + detail_of_entries(entries)
}

/// The age in seconds of a path learnt at `origin_time`, seen at `now`;
/// zero for a path from the future.
pub open spec fn age(origin_time: u32, now: u64) -> u64 {
    if now >= origin_time {
        (now - origin_time) as u64
    } else {
        0
    }
}

/// The lines of one path of a prefix in Juniper style. Only the first path
/// names the prefix.
pub open spec fn juniper_of_entry(
    prefix: Address,
    plen: u8,
    entry: RibEntryView,
    first: bool,
    now: u64,
) -> Seq<Seq<char>> {
    let lines = seq![
        if first {
            prefix_text(prefix, plen) + "\t"@
        } else {
            "\t\t"@
        } + "[BGP/170] "@ + duration_text(age(entry.origin_time, now)) + match entry_med(entry) {
            Some(m) => ", MED "@ + decimal_text(m as nat),
            None => Seq::empty(),
        } + ", localpref "@ + decimal_text(shown_local_pref(entry)) + ", from "@ + address_text(
            entry.peer.peer_address,
        ),
        "\t\t AS path: "@ + entry_path_text(entry) + " "@ + seq![
            origin_char(entry_origin(entry), true),
        ],
    ];
    let lines = match entry_community_text(entry) {
        Some(c) => lines.push("\t\t Communities: "@ + c),
        None => lines,
    };
    lines.push("\t\t> to "@ + address_text(entry_nexthop(entry)))
}

/// The lines of the first `n` paths of a prefix in Juniper style.
pub open spec fn juniper_of_entries(
    prefix: Address,
    plen: u8,
    entries: Seq<RibEntryView>,
    n: int,
    now: u64,
) -> Seq<Seq<char>>
    decreases n,
{
    if n <= 0 {
        Seq::empty()
    } else {
        juniper_of_entries(prefix, plen, entries, n - 1, now) + juniper_of_entry(
            prefix,
            plen,
            entries[n - 1],
            n == 1,
            now,
        )
    }
}

/// One path of a prefix as a line of fields between `|`.
pub open spec fn csv_row(prefix: Address, plen: u8, entry: RibEntryView) -> Seq<char> {
    prefix_text(prefix, plen) + "|"@ + address_text(entry.peer.peer_address) + "|"@
        + address_text(entry_nexthop(entry)) + "|"@ + shown_med(entry) + "|"@ + decimal_text(
        shown_local_pref(entry),
    ) + "|"@ + entry_path_text(entry) + " "@ + seq![origin_char(entry_origin(entry), false)]
        + "|"@ + shown_community(entry)
}

/// A prefix as lines of fields between `|`: the names of the fields, then
/// one line for each path.
pub open spec fn csv_rows(prefix: Address, plen: u8, entries: Seq<RibEntryView>) -> Seq<Seq<char>> {
    seq!["route/plen|neighbor|next_hop|med|localpref|aspath|communities"@] + Seq::new(
        entries.len(),
        |i: int| csv_row(prefix, plen, entries[i]),
    )
}

/// Appends the metric to show for an entry.
fn push_med(entry: &MrtRibEntry, out: &mut String)
    ensures
        final(out)@ == old(out)@ + shown_med(entry.deep_view()),
{
    match entry.get_med() {
        Some(m) => push_decimal(out, m as u64),
        None => {
            assert(out@ =~= old(out)@ + Seq::<char>::empty());
        },
    }
}

/// Appends the local preference to show for an entry.
fn push_local_pref(entry: &MrtRibEntry, out: &mut String)
    ensures
        final(out)@ == old(out)@ + decimal_text(shown_local_pref(entry.deep_view())),
{
    match entry.get_local_pref() {
        Some(l) => push_decimal(out, l as u64),
        None => push_decimal(out, DEFAULT_LOCAL_PREF as u64),
    }
}

/// Appends an address, filled up with spaces to `width` characters.
fn push_address_padded(address: &Address, width: usize, out: &mut String)
    ensures
        final(out)@ == old(out)@ + padded_right(address_text(*address), width as nat),
{
    let text = address.to_text();
    push_padded_right(out, text.as_str(), width);
}

/// The heading of a Cisco-style table: the version of the table, the
/// collector, the view, the legend and the names of the columns.
pub fn cisco_show_ip_bgp_header(version: u32, peers: &MrtPeerIndexTable) -> (lines: Vec<String>)
    ensures
        lines.deep_view() == cisco_header(version, peers.deep_view()),
{
    let mut first = String::from_str("BGP table version is ");
    push_decimal(&mut first, version as u64);
    first.append(", local router ID is ");
    peers.collector_id.push_text(&mut first);
    first.append(", view is \"");
    first.append(peers.view_name.as_str());
    first.append("\"");
    let mut columns = String::from_str("  ");
    push_padded_right(&mut columns, "Network", 24);
    push_padded_right(&mut columns, "Next Hop", 24);
    columns.append("\tMetric LocPrf Weight Path");
    let ghost expected = cisco_header(version, peers.deep_view());
    assert(first@ =~= expected[0]);
    assert(columns@ =~= expected[4]);
    let mut lines: Vec<String> = Vec::new();
    lines.push(first);
    lines.push(
        String::from_str(
            "Status codes: s suppressed, d damped, h history, * valid, > best, i - internal",
        ),
    );
    lines.push(String::from_str("Origin codes: i - IGP, e - EGP, ? - incomplete"));
    lines.push(String::new());
    lines.push(columns);
    assert(lines.deep_view() =~= expected);
    lines
}

/// The rows of a prefix in a Cisco-style table: for each path the next hop,
/// metric, local preference, weight, AS path and origin.
pub fn cisco_show_ip_bgp(prefix: &Address, plen: u8, route_entries: &Vec<MrtRibEntry>) -> (lines:
    Vec<String>)
    ensures
        lines.deep_view() == cisco_rows(*prefix, plen, route_entries.deep_view()),
{
    let ghost entries = route_entries.deep_view();
    let mut lines: Vec<String> = Vec::new();
    let mut i: usize = 0;
    while i < route_entries.len()
        invariant
            i <= route_entries.len(),
            entries == route_entries.deep_view(),
            lines.len() == i,
            forall|k: int|
                0 <= k < i ==> (#[trigger] lines.deep_view()[k]) == cisco_row(
                    *prefix,
                    plen,
                    entries[k],
                    k == 0,
                ),
        decreases route_entries.len() - i,
    {
        let rt = &route_entries[i];
        let ghost done = lines.deep_view();
        let mut line = String::from_str("* ");
        if i == 0 {
            let mut name = String::new();
            push_prefix(prefix, plen, &mut name);
            assert(name@ =~= prefix_text(*prefix, plen));
            push_padded_right(&mut line, name.as_str(), 24);
        } else {
            push_padded_right(&mut line, "", 24);
            proof {
                reveal_strlit("");
                assert(""@ =~= Seq::<char>::empty());
            }
        }
        push_address_padded(&rt.get_nexthop(), 24, &mut line);
        line.append("\t");
        push_med(rt, &mut line);
        line.append("\t");
        push_local_pref(rt, &mut line);
        line.append("\t");
        push_decimal(&mut line, CISCO_DEFAULT_WEIGHT as u64);
        line.append("\t");
        rt.push_aspath(&mut line);
        line.append(" ");
        line.append(origin_str(rt.get_origin(), false));
        assert(line@ =~= cisco_row(*prefix, plen, entries[i as int], i == 0));
        lines.push(line);
        proof {
            assert forall|k: int| 0 <= k < i + 1 implies (#[trigger] lines.deep_view()[k])
                == cisco_row(*prefix, plen, entries[k], k == 0) by {
                if k < i {
                    assert(lines.deep_view()[k] == done[k]);
                }
            }
        }
        i = i + 1;
    }
    assert(lines.deep_view() =~= cisco_rows(*prefix, plen, entries));
    lines
}

/// The text of the name of an origin code.
fn origin_name_str(origin: u8) -> (r: &'static str)
    ensures
        r@ == origin_name(origin),
{
    if origin == 0 {
        "IGP"
    } else if origin == 1 {
        "EGP"
    } else if origin == 2 {
        "Incomplete"
    } else {
        "Unknown"
    }
}

/// Appends the lines of one path in the Cisco-style detail of a prefix.
fn push_detail(rt: &MrtRibEntry, lines: &mut Vec<String>)
    ensures
        final(lines).deep_view() == old(lines).deep_view() + detail_of_entry(rt.deep_view()),
{
    let ghost before = lines.deep_view();
    let ghost entry = rt.deep_view();
    let mut path = String::from_str("  ");
    rt.push_aspath(&mut path);
    let mut hop = String::from_str("    ");
    rt.get_nexthop().push_text(&mut hop);
    hop.append(" from ");
    rt.peer.peer_address.push_text(&mut hop);
    hop.append(" (");
    rt.peer.peer_id.push_text(&mut hop);
    hop.append(")");
    let mut facts = String::from_str("      Origin ");
    facts.append(origin_name_str(rt.get_origin()));
    let ghost with_origin = facts@;
    match rt.get_med() {
        Some(m) => {
            facts.append(", metric ");
            push_decimal(&mut facts, m as u64);
        },
        None => {
            assert(facts@ =~= with_origin + Seq::<char>::empty());
        },
    }
    facts.append(", localpref ");
    push_local_pref(rt, &mut facts);
    facts.append(", weight 32768");
    facts.append(", valid");
    let ghost fixed = seq![
        "  "@ + entry_path_text(entry),
        "    "@ + address_text(entry_nexthop(entry)) + " from "@ + address_text(
            entry.peer.peer_address,
        ) + " ("@ + address_text(entry.peer.peer_id) + ")"@,
        "      Origin "@ + origin_name(entry_origin(entry)) + match entry_med(entry) {
            Some(m) => ", metric "@ + decimal_text(m as nat),
            None => Seq::empty(),
        } + ", localpref "@ + decimal_text(shown_local_pref(entry)) + ", weight 32768"@ + ", valid"@,
    ];
    assert(path@ =~= fixed[0]);
    assert(hop@ =~= fixed[1]);
    assert(facts@ =~= fixed[2]);
    lines.push(path);
    lines.push(hop);
    lines.push(facts);
    assert(lines.deep_view() =~= before + fixed);
    match rt.get_community() {
        Some(community) => {
            let mut tags = String::from_str("      Community: ");
            tags.append(community.as_str());
            lines.push(tags);
            assert(lines.deep_view() =~= before + fixed.push("      Community: "@ + community@));
        },
        None => {},
    }
}

/// The Cisco-style detail of a prefix: the prefix, the number of its paths
/// and, for each path, its AS path, next hop and peer, its origin, metric
/// and local preference, and its communities.
pub fn cisco_show_ip_bgp_detail(
    prefix: &Address,
    plen: u8,
    route_entries: &Vec<MrtRibEntry>,
) -> (lines: Vec<String>)
    ensures
        lines.deep_view() == cisco_detail(*prefix, plen, route_entries.deep_view()),
{
    let ghost entries = route_entries.deep_view();
    let mut title = String::from_str("BGP routing table entry for ");
    push_prefix(prefix, plen, &mut title);
    let mut count = String::from_str("Paths: (");
    push_decimal(&mut count, route_entries.len() as u64);
    count.append(" available)");
    let ghost head = seq![
        "BGP routing table entry for "@ + prefix_text(*prefix, plen),
        "Paths: ("@ + decimal_text(entries.len()) + " available)"@,
        "  Not advertised to any peer"@,
    ];
    assert(title@ =~= head[0]);
    assert(count@ =~= head[1]);
    let mut lines: Vec<String> = Vec::new();
    lines.push(title);
    lines.push(count);
    lines.push(String::from_str("  Not advertised to any peer"));
    assert(lines.deep_view() =~= head);
    let mut i: usize = 0;
    assert(entries.take(0) =~= Seq::empty());
    assert(lines.deep_view() =~= head + detail_of_entries(entries.take(0)));
    while i < route_entries.len()
        invariant
            i <= route_entries.len(),
            entries == route_entries.deep_view(),
            lines.deep_view() == head + detail_of_entries(entries.take(i as int)),
        decreases route_entries.len() - i,
    {
        push_detail(&route_entries[i], &mut lines);
        proof {
            assert(entries.take(i + 1).drop_last() =~= entries.take(i as int));
            assert(entries.take(i + 1).last() == route_entries[i as int].deep_view());
            assert(lines.deep_view() =~= head + detail_of_entries(entries.take(i + 1)));
        }
        i = i + 1;
    }
    assert(entries.take(i as int) =~= entries);
    lines
}

/// Appends the lines of one path of a prefix in Juniper style.
fn push_juniper(
    prefix: &Address,
    plen: u8,
    rt: &MrtRibEntry,
    first: bool,
    now: u64,
    lines: &mut Vec<String>,
)
    ensures
        final(lines).deep_view() == old(lines).deep_view() + juniper_of_entry(
            *prefix,
            plen,
            rt.deep_view(),
            first,
            now,
        ),
{
    let ghost before = lines.deep_view();
    let ghost entry = rt.deep_view();
    let seconds: u64 = if now >= rt.origin_time as u64 {
        now - rt.origin_time as u64
    } else {
        0
    };
    let mut route = String::new();
    if first {
        push_prefix(prefix, plen, &mut route);
        route.append("\t");
    } else {
        route.append("\t\t");
    }
    route.append("[BGP/170] ");
    route.append(friendly_duration(seconds).as_str());
    let ghost with_age = route@;
    match rt.get_med() {
        Some(m) => {
            route.append(", MED ");
            push_decimal(&mut route, m as u64);
        },
        None => {
            assert(route@ =~= with_age + Seq::<char>::empty());
        },
    }
    route.append(", localpref ");
    push_local_pref(rt, &mut route);
    route.append(", from ");
    rt.peer.peer_address.push_text(&mut route);
    let mut path = String::from_str("\t\t AS path: ");
    rt.push_aspath(&mut path);
    path.append(" ");
    path.append(origin_str(rt.get_origin(), true));
    let ghost fixed = seq![
        if first {
            prefix_text(*prefix, plen) + "\t"@
        } else {
            "\t\t"@
        } + "[BGP/170] "@ + duration_text(age(entry.origin_time, now)) + match entry_med(entry) {
            Some(m) => ", MED "@ + decimal_text(m as nat),
            None => Seq::empty(),
        } + ", localpref "@ + decimal_text(shown_local_pref(entry)) + ", from "@ + address_text(
            entry.peer.peer_address,
        ),
        "\t\t AS path: "@ + entry_path_text(entry) + " "@ + seq![
            origin_char(entry_origin(entry), true),
        ],
    ];
    assert(route@ =~= fixed[0]);
    assert(path@ =~= fixed[1]);
    lines.push(route);
    lines.push(path);
    assert(lines.deep_view() =~= before + fixed);
    let ghost tagged = match entry_community_text(entry) {
        Some(c) => fixed.push("\t\t Communities: "@ + c),
        None => fixed,
    };
    match rt.get_community() {
        Some(community) => {
            let mut tags = String::from_str("\t\t Communities: ");
            tags.append(community.as_str());
            lines.push(tags);
            assert(lines.deep_view() =~= before + tagged);
        },
        None => {},
    }
    let mut hop = String::from_str("\t\t> to ");
    rt.get_nexthop().push_text(&mut hop);
    lines.push(hop);
    assert(lines.deep_view() =~= before + tagged.push(
        "\t\t> to "@ + address_text(entry_nexthop(entry)),
    ));
}

/// A prefix in Juniper style: for each path its age at `now`, which counts
/// the seconds since the UNIX epoch, its metric, local preference and peer,
/// its AS path and origin, its communities and its next hop.
pub fn juniper_show_route(
    prefix: &Address,
    plen: u8,
    route_entries: &Vec<MrtRibEntry>,
    now: u64,
) -> (lines: Vec<String>)
    ensures
        lines.deep_view() == juniper_of_entries(
            *prefix,
            plen,
            route_entries.deep_view(),
            route_entries.len() as int,
            now,
        ),
{
    let ghost entries = route_entries.deep_view();
    let mut lines: Vec<String> = Vec::new();
    let mut i: usize = 0;
    assert(lines.deep_view() =~= juniper_of_entries(*prefix, plen, entries, 0, now));
    while i < route_entries.len()
        invariant
            i <= route_entries.len(),
            entries == route_entries.deep_view(),
            lines.deep_view() == juniper_of_entries(*prefix, plen, entries, i as int, now),
        decreases route_entries.len() - i,
    {
        push_juniper(prefix, plen, &route_entries[i], i == 0, now, &mut lines);
        i = i + 1;
    }
    lines
}

/// One path of a prefix as a line of fields between `|`.
fn csv_line(prefix: &Address, plen: u8, rt: &MrtRibEntry) -> (line: String)
    ensures
        line@ == csv_row(*prefix, plen, rt.deep_view()),
{
    let ghost entry = rt.deep_view();
    let mut line = String::new();
    push_prefix(prefix, plen, &mut line);
    line.append("|");
    rt.peer.peer_address.push_text(&mut line);
    line.append("|");
    rt.get_nexthop().push_text(&mut line);
    line.append("|");
    push_med(rt, &mut line);
    line.append("|");
    let ghost left = prefix_text(*prefix, plen) + "|"@ + address_text(entry.peer.peer_address)
        + "|"@ + address_text(entry_nexthop(entry)) + "|"@ + shown_med(entry) + "|"@;
    assert(line@ =~= left);
    let mut right = String::new();
    push_local_pref(rt, &mut right);
    right.append("|");
    rt.push_aspath(&mut right);
    right.append(" ");
    right.append(origin_str(rt.get_origin(), false));
    right.append("|");
    let ghost so_far = right@;
    match rt.get_community() {
        Some(community) => {
            right.append(community.as_str());
        },
        None => {
            assert(right@ =~= so_far + Seq::<char>::empty());
        },
    }
    let ghost rest = decimal_text(shown_local_pref(entry)) + "|"@ + entry_path_text(entry) + " "@
        + seq![origin_char(entry_origin(entry), false)] + "|"@ + shown_community(entry);
    assert(right@ =~= rest);
    line.append(right.as_str());
    assert(left + rest =~= csv_row(*prefix, plen, entry));
    line
}

/// A prefix as lines of fields between `|`: the names of the fields, then
/// for each path the prefix, peer, next hop, metric, local preference, AS
/// path with origin, and communities.
pub fn csv_show_route(prefix: &Address, plen: u8, route_entries: &Vec<MrtRibEntry>) -> (lines: Vec<
    String,
>)
    ensures
        lines.deep_view() == csv_rows(*prefix, plen, route_entries.deep_view()),
{
    let ghost entries = route_entries.deep_view();
    let ghost names = "route/plen|neighbor|next_hop|med|localpref|aspath|communities"@;
    let mut lines: Vec<String> = Vec::new();
    lines.push(String::from_str("route/plen|neighbor|next_hop|med|localpref|aspath|communities"));
    let mut i: usize = 0;
    while i < route_entries.len()
        invariant
            i <= route_entries.len(),
            entries == route_entries.deep_view(),
            lines.len() == i + 1,
            lines.deep_view()[0] == names,
            forall|j: int|
                1 <= j <= i ==> (#[trigger] lines.deep_view()[j]) == csv_row(
                    *prefix,
                    plen,
                    entries[j - 1],
                ),
        decreases route_entries.len() - i,
    {
        let ghost done = lines.deep_view();
        let line = csv_line(prefix, plen, &route_entries[i]);
        lines.push(line);
        proof {
            assert(lines.deep_view()[0] == done[0]);
            assert forall|j: int| 1 <= j <= i + 1 implies (#[trigger] lines.deep_view()[j])
                == csv_row(*prefix, plen, entries[j - 1]) by {
                if j <= i {
                    assert(lines.deep_view()[j] == done[j]);
                }
            }
        }
        i = i + 1;
    }
    proof {
        let rows = csv_rows(*prefix, plen, entries);
        assert(rows.len() == entries.len() + 1);
        assert forall|j: int| 0 <= j < rows.len() implies lines.deep_view()[j] == rows[j] by {
            if j >= 1 {
                assert(rows[j] == csv_row(*prefix, plen, entries[j - 1]));
            }
        }
        assert(lines.deep_view() =~= rows);
    }
    lines
}

} // verus!
