use crate::community::{parse_standard_community, Community};
use crate::error::MrtError;
use crate::literal::parse_address;
use crate::text::{chars_of, number, parse_number};
use crate::ipaddrmask::{Address, IpAddrMask};
use crate::prefix::{parse_prefix, Prefix};
use crate::rib::{entry_has_asn, entry_has_community, MrtNlri, MrtRibEntry, RibEntryView};
use vstd::prelude::*;

verus! {

/// A condition on prefix records. `Prefix` and `LPM` test the record's
/// prefix; `As` and `Community` keep the paths that match and accept the
/// record when a path is left.
#[derive(Debug, Clone, Copy, PartialEq, Eq, Structural)]
pub enum Filter {
    /// Accepts the prefixes that contain this address.
    LPM(Address),
    /// Accepts this prefix and the more specific prefixes inside it.
    Prefix(Prefix),
    /// Keeps the paths whose AS_PATH lists this AS number.
    As(u32),
    /// Keeps the paths that carry this community.
    Community(Community),
}

impl Filter {
    /// Whether the filter leaves `entry` in a record.
    pub open spec fn keeps(self, entry: RibEntryView) -> bool {
        match self {
            Filter::As(asn) => entry_has_asn(entry, asn),
            Filter::Community(community) => entry_has_community(entry, community),
            _ => true,
        }
    }

    /// The entries that the filter leaves in a record, in their order.
    pub open spec fn surviving(self, entries: Seq<RibEntryView>) -> Seq<RibEntryView> {
        entries.filter(|entry: RibEntryView| self.keeps(entry))
    }

    /// Whether the filter accepts a record with the given prefix and entries.
    pub open spec fn accepts(self, prefix: Address, plen: u8, entries: Seq<RibEntryView>) -> bool {
        match self {
            Filter::Prefix(p) => prefix.masked(p.len) == p.prefix && plen >= p.len,
            Filter::LPM(ip) => ip.masked(plen) == prefix,
            _ => self.surviving(entries).len() > 0,
        }
    }

    /// What the filter leaves of one more entry behind `entries`.
    proof fn lemma_surviving_push(self, entries: Seq<RibEntryView>, entry: RibEntryView)
        ensures
            self.surviving(entries.push(entry)) == if self.keeps(entry) {
                self.surviving(entries).push(entry)
            } else {
                self.surviving(entries)
            },
    {
        reveal(Seq::filter);
        assert(entries.push(entry).drop_last() =~= entries);
    }

    /// A filter that tests the prefix leaves every entry.
    pub proof fn lemma_surviving_all(self, entries: Seq<RibEntryView>)
        requires
            self is Prefix || self is LPM,
        ensures
            self.surviving(entries) == entries,
        decreases entries.len(),
    {
        reveal(Seq::filter);
        if entries.len() > 0 {
            self.lemma_surviving_all(entries.drop_last());
            assert(entries.drop_last().push(entries.last()) =~= entries);
        }
    }

    /// Whether the filter leaves `entry` in a record.
    fn keep(&self, entry: &MrtRibEntry) -> (b: bool)
        ensures
            b == self.keeps(entry.deep_view()),
    {
        match self {
            Filter::As(asn) => entry.aspath_contains(*asn),
            Filter::Community(community) => entry.community_contains(community),
            _ => true,
        }
    }

    /// Removes the entries that the filter does not keep.
    fn retain(&self, entries: &mut Vec<MrtRibEntry>)
        ensures
            final(entries).deep_view() == self.surviving(old(entries).deep_view()),
    {
        let mut all: Vec<MrtRibEntry> = Vec::new();
        core::mem::swap(entries, &mut all);
        let ghost items = all@;
        let ghost views = all.deep_view();
        proof {
            reveal(Seq::filter);
            assert(views.take(0) =~= Seq::empty());
            assert(entries.deep_view() =~= Seq::empty());
        }
        for entry in it: all
            invariant
                it.seq() == items,
                views.len() == items.len(),
                forall|k: int| 0 <= k < items.len() ==> views[k] == (#[trigger] items[k]).deep_view(),
                entries.deep_view() == self.surviving(views.take(it.index() as int)),
        {
            let ghost kept = entries.deep_view();
            let ghost seen = it.index() as int;
            proof {
                self.lemma_surviving_push(views.take(seen), views[seen]);
                assert(views.take(seen).push(views[seen]) =~= views.take(seen + 1));
            }
            if self.keep(&entry) {
                entries.push(entry);
                assert(entries.deep_view() =~= kept.push(views[seen]));
            }
        }
        assert(views.take(items.len() as int) =~= views);
    }

    /// Evaluates the filter on a record. `Prefix` accepts the record when its
    /// prefix, masked to the filter's length, is the filter's address and is
    /// at least as long; `LPM` accepts it when the filter's address lies in
    /// the record's prefix. `As` and `Community` remove the paths that do not
    /// match from the record and accept it when a path is left.
    pub fn eval(&self, nlri: &mut MrtNlri) -> (accepted: bool)
        ensures
            accepted == self.accepts(
                old(nlri).prefix,
                old(nlri).plen,
                old(nlri).rib_entries.deep_view(),
            ),
            final(nlri).rib_entries.deep_view() == self.surviving(
                old(nlri).rib_entries.deep_view(),
            ),
            final(nlri).sequence == old(nlri).sequence,
            final(nlri).plen == old(nlri).plen,
            final(nlri).prefix == old(nlri).prefix,
            final(nlri).entry_count == old(nlri).entry_count,
    {
        match self {
            Filter::Prefix(p) => {
                proof {
                    self.lemma_surviving_all(nlri.rib_entries.deep_view());
                }
                nlri.prefix.mask(p.len) == p.prefix && nlri.plen >= p.len
            },
            Filter::LPM(ip) => {
                proof {
                    self.lemma_surviving_all(nlri.rib_entries.deep_view());
                }
                ip.mask(nlri.plen) == nlri.prefix
            },
            _ => {
                self.retain(&mut nlri.rib_entries);
                !nlri.rib_entries.is_empty()
            },
        }
    }
}

/// What `text` denotes as a filter. The first reading that fits wins: a
/// prefix, an address, an AS number of at most 32 bits, a standard
/// community.
pub open spec fn parse_filter(text: Seq<char>) -> Option<Filter> {
    match parse_prefix(text) {
        Some(p) => Some(Filter::Prefix(p)),
        None => match parse_address(text) {
            Some(ip) => Some(Filter::LPM(ip)),
            None => match parse_number(text, 0xffff_ffff) {
                Some(asn) => Some(Filter::As(asn as u32)),
                None => match parse_standard_community(text) {
                    Some(c) => Some(Filter::Community(c)),
                    None => None,
                },
            },
        },
    }
}

impl Filter {
    /// Compiles a filter from text such as `10.0.0.0/8`, `10.1.2.3`, `65001`
    /// or `65000:100`.
    pub fn from_text(s: &str) -> (r: Result<Filter, MrtError>)
        ensures
            match r {
                Ok(f) => parse_filter(s@) == Some(f),
                Err(e) => e == MrtError::BadFilter && parse_filter(s@) is None,
            },
    {
        let chars = chars_of(s);
        if let Some(p) = Prefix::from_chars(chars.as_slice()) {
            return Ok(Filter::Prefix(p));
        }
        if let Some(ip) = Address::from_chars(chars.as_slice()) {
            return Ok(Filter::LPM(ip));
        }
        if let Some(asn) = number(chars.as_slice(), 0xffff_ffff) {
            return Ok(Filter::As(asn));
        }
        if let Some(c) = Community::standard_from_chars(chars.as_slice()) {
            return Ok(Filter::Community(c));
        }
        Err(MrtError::BadFilter)
    }
}

impl core::str::FromStr for Filter {
    type Err = MrtError;

    /// Compiles a filter from text: a prefix, else an address, else an AS
    /// number, else a standard community. Any other text is refused with
    /// `BadFilter`.
    fn from_str(s: &str) -> (r: Result<Filter, MrtError>)
        ensures
            match r {
                Ok(v) => parse_filter(s@) == Some(v),
                Err(e) => e == MrtError::BadFilter && parse_filter(s@) is None,
            },
    {
        Filter::from_text(s)
    }
}

} // verus!
