use crate::ipaddrmask::Address;
use crate::rib::{MrtRibEntry, RibEntryView};
use crate::trie::{with_route, Trie};
use vstd::prelude::*;

verus! {

/// The routes of both address families.
pub struct RoutingTable {
    pub v4: Trie<32>,
    pub v6: Trie<128>,
}

/// The mathematical value of a routing table: the entries of each route,
/// keyed by the route's address and length.
pub type Routes = Map<(Address, u8), Seq<RibEntryView>>;

/// Whether `found` is the longest-prefix match for `ip` in `routes`: the
/// route of the greatest length whose address is `ip` masked to that length,
/// or nothing where no route covers `ip`.
pub open spec fn is_longest_match(
    routes: Routes,
    ip: Address,
    found: Option<(Address, u8, Seq<RibEntryView>)>,
) -> bool {
    match found {
        Some((p, l, v)) => {
            &&& p == ip.masked(l)
            &&& routes.contains_key((p, l))
            &&& routes[(p, l)] == v
            &&& forall|m: u8| l < m ==> !routes.contains_key((#[trigger] ip.masked(m), m))
        },
        None => forall|m: u8| !routes.contains_key((#[trigger] ip.masked(m), m)),
    }
}

impl RoutingTable {
    /// The routes of the table.
    pub open spec fn view(self) -> Routes {
        Map::new(
            |k: (Address, u8)|
                match k.0 {
                    Address::V4(a) => self.v4@.contains_key((a, k.1)),
                    Address::V6(a) => self.v6@.contains_key((a, k.1)),
                },
            |k: (Address, u8)|
                match k.0 {
                    Address::V4(a) => self.v4@[(a, k.1)],
                    Address::V6(a) => self.v6@[(a, k.1)],
                },
        )
    }

    /// Every route's length fits its family and its address has no host
    /// bits.
    pub proof fn lemma_routes_canonical(self, prefix: Address, len: u8)
        requires
            self@.contains_key((prefix, len)),
        ensures
            len <= prefix.spec_width(),
            prefix.masked(len) == prefix,
    {
        match prefix {
            Address::V4(a) => self.v4.lemma_routes_canonical(a, len),
            Address::V6(a) => self.v6.lemma_routes_canonical(a, len),
        }
    }

    /// A table without routes.
    pub fn new() -> (t: RoutingTable)
        ensures
            t@ == Routes::empty(),
    {
        let t = RoutingTable { v4: Trie::<32>::new(), v6: Trie::<128>::new() };
        assert(t@ =~= Routes::empty());
        t
    }

    /// Stores `entries` under the first `plen` bits of `prefix`, behind the
    /// entries that the route holds already. The address need not have its
    /// host bits cleared.
    pub fn add(&mut self, prefix: Address, plen: u8, entries: Vec<MrtRibEntry>)
        requires
            plen <= prefix.spec_width(),
        ensures
            final(self)@ == with_route(old(self)@, prefix.masked(plen), plen, entries.deep_view()),
    {
        let ghost before = *self;
        let ghost added = entries.deep_view();
        match prefix {
            Address::V4(a) => {
                self.v4.add(a, plen, entries);
            },
            Address::V6(a) => {
                self.v6.add(a, plen, entries);
            },
        }
        assert(self@ =~= with_route(before@, prefix.masked(plen), plen, added));
    }

    /// The longest-prefix match for `ip`: the route's address, its length
    /// and its entries.
    pub fn get(&self, ip: &Address) -> (r: Option<(Address, u8, &Vec<MrtRibEntry>)>)
        ensures
            is_longest_match(
                self@,
                *ip,
                match r {
                    Some((p, l, v)) => Some((p, l, v.deep_view())),
                    None => None,
                },
            ),
    {
        match ip {
            Address::V4(a) => {
                proof {
                    assert forall|m: u8| m > 32 implies !self@.contains_key(
                        (#[trigger] ip.masked(m), m),
                    ) by {
                        if self@.contains_key((ip.masked(m), m)) {
                            self.lemma_routes_canonical(ip.masked(m), m);
                        }
                    }
                }
                match self.v4.get(*a, 32) {
                    Some((route, plen, desc)) => Some((Address::V4(route), plen, desc)),
                    None => None,
                }
            },
            Address::V6(a) => {
                proof {
                    assert forall|m: u8| m > 128 implies !self@.contains_key(
                        (#[trigger] ip.masked(m), m),
                    ) by {
                        if self@.contains_key((ip.masked(m), m)) {
                            self.lemma_routes_canonical(ip.masked(m), m);
                        }
                    }
                }
                match self.v6.get(*a, 128) {
                    Some((route, plen, desc)) => Some((Address::V6(route), plen, desc)),
                    None => None,
                }
            },
        }
    }
}

/// The table that holds exactly the given routes, inserted one after the
/// other into an empty table.
pub open spec fn routes_after(inserts: Seq<(Address, u8, Seq<RibEntryView>)>) -> Routes
    decreases inserts.len(),
{
    if inserts.len() == 0 {
        Map::empty()
    } else {
        let last = inserts.last();
        with_route(routes_after(inserts.drop_last()), last.0.masked(last.1), last.1, last.2)
    }
}

/// Whether each prefix has a length that fits its family and no host bits,
/// and no prefix occurs twice.
pub open spec fn distinct_prefixes(inserts: Seq<(Address, u8, Seq<RibEntryView>)>) -> bool {
    &&& forall|i: int|
        0 <= i < inserts.len() ==> (#[trigger] inserts[i]).1 <= inserts[i].0.spec_width()
            && inserts[i].0.masked(inserts[i].1) == inserts[i].0
    &&& forall|i: int, j: int|
        0 <= i < j < inserts.len() ==> !((#[trigger] inserts[i]).0 == (#[trigger] inserts[j]).0
            && inserts[i].1 == inserts[j].1)
}

/// After distinct prefixes have been inserted into an empty table, the table
/// holds each of them with its entries, and nothing else.
pub proof fn lemma_routes_after(inserts: Seq<(Address, u8, Seq<RibEntryView>)>)
    requires
        distinct_prefixes(inserts),
    ensures
        forall|i: int|
            0 <= i < inserts.len() ==> routes_after(inserts).contains_key(
                ((#[trigger] inserts[i]).0, inserts[i].1),
            ) && routes_after(inserts)[(inserts[i].0, inserts[i].1)] == inserts[i].2,
        forall|k: (Address, u8)| #[trigger]
            routes_after(inserts).contains_key(k) ==> exists|i: int|
                0 <= i < inserts.len() && (#[trigger] inserts[i]).0 == k.0 && inserts[i].1 == k.1,
    decreases inserts.len(),
{
    if inserts.len() > 0 {
        let front = inserts.drop_last();
        let last = inserts.last();
        let n = inserts.len() - 1;
        assert(inserts[n] == last);
        assert forall|i: int| 0 <= i < front.len() implies front[i] == inserts[i] by {}
        assert(distinct_prefixes(front));
        lemma_routes_after(front);
        if routes_after(front).contains_key((last.0, last.1)) {
            let i = choose|i: int|
                0 <= i < front.len() && (#[trigger] front[i]).0 == last.0 && front[i].1 == last.1;
            assert(inserts[i].0 == inserts[n].0 && inserts[i].1 == inserts[n].1);
        }
        assert forall|i: int| 0 <= i < inserts.len() implies routes_after(inserts).contains_key(
            ((#[trigger] inserts[i]).0, inserts[i].1),
        ) && routes_after(inserts)[(inserts[i].0, inserts[i].1)] == inserts[i].2 by {
            if i < n {
                assert(front[i] == inserts[i]);
                assert(!(inserts[i].0 == inserts[n].0 && inserts[i].1 == inserts[n].1));
            }
        }
        assert forall|k: (Address, u8)| #[trigger]
            routes_after(inserts).contains_key(k) implies exists|i: int|
            0 <= i < inserts.len() && (#[trigger] inserts[i]).0 == k.0 && inserts[i].1 == k.1 by {
            if k == (last.0, last.1) {
                assert(inserts[n].0 == k.0 && inserts[n].1 == k.1);
            } else {
                assert(routes_after(front).contains_key(k));
                let i = choose|i: int|
                    0 <= i < front.len() && (#[trigger] front[i]).0 == k.0 && front[i].1 == k.1;
                assert(inserts[i].0 == k.0 && inserts[i].1 == k.1);
            }
        }
    }
}

/// Longest-prefix match is correct: after distinct prefixes have been
/// inserted into an empty table, a lookup of `ip` finds the one inserted
/// route that covers `ip` and is at least as long as every other inserted
/// route that covers `ip`, with the entries it was inserted with; it finds
/// nothing exactly when no inserted route covers `ip`.
pub proof fn lemma_longest_prefix_match(
    inserts: Seq<(Address, u8, Seq<RibEntryView>)>,
    ip: Address,
    found: Option<(Address, u8, Seq<RibEntryView>)>,
)
    requires
        distinct_prefixes(inserts),
        is_longest_match(routes_after(inserts), ip, found),
    ensures
        match found {
            Some(route) => exists|i: int|
                {
                    &&& 0 <= i < inserts.len()
                    &&& #[trigger] inserts[i] == route
                    &&& ip.masked(route.1) == route.0
                    &&& forall|j: int|
                        0 <= j < inserts.len() && ip.masked((#[trigger] inserts[j]).1)
                            == inserts[j].0 ==> inserts[j].1 < route.1 || j == i
                },
            None => forall|j: int|
                0 <= j < inserts.len() ==> ip.masked((#[trigger] inserts[j]).1) != inserts[j].0,
        },
{
    let routes = routes_after(inserts);
    lemma_routes_after(inserts);
    match found {
        Some(route) => {
            let i = choose|i: int|
                0 <= i < inserts.len() && (#[trigger] inserts[i]).0 == route.0 && inserts[i].1
                    == route.1;
            assert(inserts[i] == route);
            assert forall|j: int|
                0 <= j < inserts.len() && ip.masked((#[trigger] inserts[j]).1)
                    == inserts[j].0 implies inserts[j].1 < route.1 || j == i by {
                let m = inserts[j].1;
                assert(routes.contains_key((ip.masked(m), m)));
                if j != i {
                    if j < i {
                        assert(!(inserts[j].0 == inserts[i].0 && inserts[j].1 == inserts[i].1));
                    } else {
                        assert(!(inserts[i].0 == inserts[j].0 && inserts[i].1 == inserts[j].1));
                    }
                }
            }
        },
        None => {
            assert forall|j: int| 0 <= j < inserts.len() implies ip.masked(
                (#[trigger] inserts[j]).1,
            ) != inserts[j].0 by {
                let m = inserts[j].1;
                if ip.masked(m) == inserts[j].0 {
                    assert(routes.contains_key((ip.masked(m), m)));
                }
            }
        },
    }
}

/// Insertion appends: two insertions under one prefix store what was there
/// before, then the first entries, then the second, and a lookup that finds
/// the prefix returns them in that order.
pub proof fn lemma_add_appends(
    routes: Routes,
    prefix: Address,
    len: u8,
    first: Seq<RibEntryView>,
    second: Seq<RibEntryView>,
)
    ensures
        with_route(with_route(routes, prefix, len, first), prefix, len, second) == with_route(
            routes,
            prefix,
            len,
            first + second,
        ),
        !routes.contains_key((prefix, len)) ==> forall|
            ip: Address,
            found: Option<(Address, u8, Seq<RibEntryView>)>,
        | #[trigger]
            is_longest_match(
                with_route(with_route(routes, prefix, len, first), prefix, len, second),
                ip,
                found,
            ) && found is Some && found->Some_0.0 == prefix && found->Some_0.1 == len
                ==> found->Some_0.2 == first + second,
{
    let once = with_route(routes, prefix, len, first);
    let twice = with_route(once, prefix, len, second);
    if routes.contains_key((prefix, len)) {
        assert((routes[(prefix, len)] + first) + second =~= routes[(prefix, len)] + (first
            + second));
    }
    assert(twice =~= with_route(routes, prefix, len, first + second));
}

} // verus!
