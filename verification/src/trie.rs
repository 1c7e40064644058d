use crate::ipaddrmask::{mask_u128, mask_u32};
use crate::rib::{MrtRibEntry, RibEntryView};
use vstd::prelude::*;

verus! {

/// A node of a binary trie over keys of `WIDTH` bits, most significant bit
/// first. A node at depth `d` stands for the prefix made of the `d` bits on
/// the way to it; `value` holds the entries stored for that prefix.
pub struct Trie<const WIDTH: u8> {
    left: Option<Box<Trie<WIDTH>>>,
    right: Option<Box<Trie<WIDTH>>>,
    value: Option<Vec<MrtRibEntry>>,
}

/// Whether a key of `width` bits has its bit at `depth` set, counting from
/// the most significant bit.
spec fn key_bit(key: u128, width: u8, depth: nat) -> bool {
    key & (1u128 << ((width - 1 - depth) as u128)) != 0
}

/// The first `len` bits of a key of `width` bits, the other bits cleared.
spec fn key_mask(key: u128, width: u8, len: nat) -> u128 {
    if len == 0 {
        0
    } else if len >= width {
        key
    } else {
        key & (u128::MAX << ((width - len) as u128))
    }
}

/// Whether `key` is a number of at most `width` bits.
spec fn key_fits(key: u128, width: u8) -> bool {
    width >= 128 || key >> (width as u128) == 0
}

/// Whether two keys have the same bits at the depths from `from` up to, not
/// including, `to`.
spec fn keys_agree(a: u128, b: u128, width: u8, from: nat, to: nat) -> bool {
    forall|d: nat| from <= d < to ==> #[trigger] key_bit(a, width, d) == key_bit(b, width, d)
}

/// The entries in front of `value`, or `value` alone where there are none.
pub open spec fn appended(prior: Option<Seq<RibEntryView>>, value: Seq<RibEntryView>) -> Seq<
    RibEntryView,
> {
    match prior {
        Some(p) => p + value,
        None => value,
    }
}

/// `key` without its lowest `low` bits, where keys have `width` bits.
spec fn above(key: u128, low: u128, width: u128) -> u128 {
    if low == 0 {
        key
    } else if low >= width {
        0
    } else {
        key & (u128::MAX << low)
    }
}

/// One more bit of a key decides between agreeing and not.
proof fn lemma_mask_step(a: u128, b: u128, width: u8, len: nat)
    requires
        1 <= width <= 128,
        len < width,
        key_fits(a, width),
        key_fits(b, width),
    ensures
        key_mask(a, width, len + 1) == key_mask(b, width, len + 1) <==> key_mask(a, width, len)
            == key_mask(b, width, len) && key_bit(a, width, len) == key_bit(b, width, len),
        key_mask(a, width, len + 1) == key_mask(a, width, len) | (a & (1u128 << ((width - 1
            - len) as u128))),
{
    let w: u128 = width as u128;
    let low: u128 = (width - 1 - len) as u128;
    assert(key_mask(a, width, len + 1) == above(a, low, w));
    assert(key_mask(b, width, len + 1) == above(b, low, w));
    assert(key_mask(a, width, len) == above(a, (low + 1) as u128, w));
    assert(key_mask(b, width, len) == above(b, (low + 1) as u128, w));
    assert(above(a, low, w) == above(b, low, w) <==> above(a, (low + 1) as u128, w) == above(
        b,
        (low + 1) as u128,
        w,
    ) && ((a & (1u128 << low) != 0) == (b & (1u128 << low) != 0))) by (bit_vector)
        requires
            low < w <= 128,
            w >= 128 || a >> w == 0,
            w >= 128 || b >> w == 0,
    ;
    assert(above(a, low, w) == above(a, (low + 1) as u128, w) | (a & (1u128 << low)))
        by (bit_vector)
        requires
            low < w <= 128,
            w >= 128 || a >> w == 0,
    ;
}

/// Two keys agree on their first `len` bits exactly when their masks of
/// length `len` are equal.
proof fn lemma_agree_is_mask(a: u128, b: u128, width: u8, len: nat)
    requires
        1 <= width <= 128,
        len <= width,
        key_fits(a, width),
        key_fits(b, width),
    ensures
        keys_agree(a, b, width, 0, len) <==> key_mask(a, width, len) == key_mask(b, width, len),
    decreases len,
{
    if len > 0 {
        let shorter = (len - 1) as nat;
        lemma_agree_is_mask(a, b, width, shorter);
        lemma_mask_step(a, b, width, shorter);
        if keys_agree(a, b, width, 0, len) {
            assert(keys_agree(a, b, width, 0, shorter));
            assert(key_bit(a, width, shorter) == key_bit(b, width, shorter));
        }
        if key_mask(a, width, len) == key_mask(b, width, len) {
            assert(keys_agree(a, b, width, 0, len)) by {
                assert forall|d: nat| 0 <= d < len implies #[trigger] key_bit(a, width, d)
                    == key_bit(b, width, d) by {
                    if d < shorter {
                        assert(keys_agree(a, b, width, 0, shorter));
                    }
                }
            }
        }
    }
}

impl<const WIDTH: u8> Trie<WIDTH> {
    /// The entries stored at the node that is reached from this node, which
    /// lies at depth `from`, by following the bits of `key` down to depth
    /// `len`; `None` where there is no such node or it holds no entries.
    spec fn stored(self, key: u128, from: nat, len: nat) -> Option<Seq<RibEntryView>>
        decreases len - from,
    {
        if from >= len {
            match self.value {
                Some(v) => Some(v.deep_view()),
                None => None,
            }
        } else {
            let child = if key_bit(key, WIDTH, from) {
                self.right
            } else {
                self.left
            };
            match child {
                Some(c) => c.stored(key, from + 1, len),
                None => None,
            }
        }
    }

    /// What is stored under a prefix depends on the prefix's bits alone.
    proof fn lemma_stored_agree(self, a: u128, b: u128, from: nat, len: nat)
        requires
            keys_agree(a, b, WIDTH, from, len),
        ensures
            self.stored(a, from, len) == self.stored(b, from, len),
        decreases len - from,
    {
        if from < len {
            assert(key_bit(a, WIDTH, from) == key_bit(b, WIDTH, from));
            let child = if key_bit(a, WIDTH, from) {
                self.right
            } else {
                self.left
            };
            if let Some(c) = child {
                assert(keys_agree(a, b, WIDTH, from + 1, len));
                c.lemma_stored_agree(a, b, from + 1, len);
            }
        }
    }

    /// A node without children and without entries.
    fn empty_node() -> (t: Self)
        ensures
            forall|key: u128, from: nat, len: nat| (#[trigger] t.stored(key, from, len)) is None,
    {
        let t = Trie { left: None, right: None, value: None };
        assert forall|key: u128, from: nat, len: nat| (#[trigger] t.stored(
            key,
            from,
            len,
        )) is None by {
            reveal_with_fuel(Trie::stored, 2);
        }
        t
    }

    /// The number of bits of a key, which is the depth of the deepest node.
    pub fn max_depth() -> (d: u8)
        ensures
            d == WIDTH,
    {
        WIDTH
    }

    /// Stores `value` under the first `len` bits of `key`, behind what is
    /// stored there already. This node lies at depth `from`.
    fn insert_at(&mut self, key: u128, from: u8, len: u8, value: Vec<MrtRibEntry>)
        requires
            from <= len <= WIDTH <= 128,
        ensures
            forall|k: u128, l: nat|
                l >= from ==> #[trigger] final(self).stored(k, from as nat, l) == if l == len
                    && keys_agree(k, key, WIDTH, from as nat, len as nat) {
                    Some(appended(old(self).stored(k, from as nat, l), value.deep_view()))
                } else {
                    old(self).stored(k, from as nat, l)
                },
        decreases len - from,
    {
        let ghost before = *self;
        if from == len {
            let mut value = value;
            let ghost added = value.deep_view();
            if self.value.is_some() {
                let mut current = self.value.take().unwrap();
                let ghost head = current.deep_view();
                current.append(&mut value);
                assert(current.deep_view() =~= head + added);
                self.value = Some(current);
            } else {
                self.value = Some(value);
            }
            assert forall|k: u128, l: nat| l >= from implies #[trigger] self.stored(
                k,
                from as nat,
                l,
            ) == if l == len && keys_agree(k, key, WIDTH, from as nat, len as nat) {
                Some(appended(before.stored(k, from as nat, l), added))
            } else {
                before.stored(k, from as nat, l)
            } by {
                reveal_with_fuel(Trie::stored, 2);
            }
        } else {
            let bit: u128 = 1u128 << ((WIDTH - 1 - from) as u128);
            let right = key & bit != 0;
            let mut child = if right {
                self.right.take()
            } else {
                self.left.take()
            };
            let mut node: Box<Trie<WIDTH>> = match child {
                Some(c) => c,
                None => Box::new(Trie::empty_node()),
            };
            let ghost below = *node;
            node.insert_at(key, from + 1, len, value);
            let ghost after = *node;
            if right {
                self.right = Some(node);
            } else {
                self.left = Some(node);
            }
            assert forall|k: u128, l: nat| l >= from implies #[trigger] self.stored(
                k,
                from as nat,
                l,
            ) == if l == len && keys_agree(k, key, WIDTH, from as nat, len as nat) {
                Some(appended(before.stored(k, from as nat, l), value.deep_view()))
            } else {
                before.stored(k, from as nat, l)
            } by {
                reveal_with_fuel(Trie::stored, 2);
                if l > from && key_bit(k, WIDTH, from as nat) == right {
                    assert(self.stored(k, from as nat, l) == after.stored(k, from as nat + 1, l));
                    assert(before.stored(k, from as nat, l) == below.stored(k, from as nat + 1, l));
                    assert(keys_agree(k, key, WIDTH, from as nat, len as nat) <==> keys_agree(
                        k,
                        key,
                        WIDTH,
                        from as nat + 1,
                        len as nat,
                    ));
                } else if l > from {
                    assert(!keys_agree(k, key, WIDTH, from as nat, len as nat)) by {
                        assert(key_bit(k, WIDTH, from as nat) != key_bit(key, WIDTH, from as nat));
                    }
                }
            }
        }
    }

    /// The longest prefix of `key`, of at most `depth` bits, under which
    /// entries are stored: its bits, its length and the entries.
    fn longest_match(&self, key: u128, depth: u8) -> (r: Option<(u128, u8, &Vec<MrtRibEntry>)>)
        requires
            1 <= WIDTH <= 128,
            key_fits(key, WIDTH),
        ensures
            match r {
                Some((p, l, v)) => {
                    &&& l <= depth && l <= WIDTH
                    &&& p == key_mask(key, WIDTH, l as nat)
                    &&& self.stored(key, 0, l as nat) == Some(v.deep_view())
                    &&& forall|m: nat|
                        l < m <= depth && m <= WIDTH ==> (#[trigger] self.stored(key, 0, m)) is None
                },
                None => forall|m: nat|
                    m <= depth && m <= WIDTH ==> (#[trigger] self.stored(key, 0, m)) is None,
            },
    {
        let limit: u8 = if depth < WIDTH {
            depth
        } else {
            WIDTH
        };
        let mut node: &Trie<WIDTH> = self;
        let mut best: Option<(u128, u8, &Vec<MrtRibEntry>)> = None;
        let mut current: u128 = 0;
        let mut d: u8 = 0;
        loop
            invariant_except_break
                d <= limit,
                current == key_mask(key, WIDTH, d as nat),
                forall|m: nat| m >= d ==> node.stored(key, d as nat, m) == self.stored(key, 0, m),
                match best {
                    Some((p, l, v)) => {
                        &&& l < d
                        &&& p == key_mask(key, WIDTH, l as nat)
                        &&& self.stored(key, 0, l as nat) == Some(v.deep_view())
                        &&& forall|m: nat| l < m < d ==> (#[trigger] self.stored(key, 0, m)) is None
                    },
                    None => forall|m: nat| m < d ==> (#[trigger] self.stored(key, 0, m)) is None,
                },
            invariant
                1 <= WIDTH <= 128,
                key_fits(key, WIDTH),
                limit <= depth && limit <= WIDTH,
                limit == depth || limit == WIDTH,
            ensures
                match best {
                    Some((p, l, v)) => {
                        &&& l <= limit
                        &&& p == key_mask(key, WIDTH, l as nat)
                        &&& self.stored(key, 0, l as nat) == Some(v.deep_view())
                        &&& forall|m: nat|
                            l < m <= limit ==> (#[trigger] self.stored(key, 0, m)) is None
                    },
                    None => forall|m: nat|
                        m <= limit ==> (#[trigger] self.stored(key, 0, m)) is None,
                },
            decreases limit - d,
        {
            assert(node.stored(key, d as nat, d as nat) == self.stored(key, 0, d as nat));
            match &node.value {
                Some(v) => {
                    best = Some((current, d, v));
                },
                None => {},
            }
            if d == limit {
                break ;
            }
            let bit: u128 = 1u128 << ((WIDTH - 1 - d) as u128);
            let child = if key & bit != 0 {
                &node.right
            } else {
                &node.left
            };
            match child {
                Some(c) => {
                    proof {
                        lemma_mask_step(key, key, WIDTH, d as nat);
                        assert forall|m: nat| m >= d + 1 implies c.stored(key, d as nat + 1, m)
                            == self.stored(key, 0, m) by {
                            assert(node.stored(key, d as nat, m) == self.stored(key, 0, m));
                        }
                    }
                    current = current | (key & bit);
                    node = &**c;
                },
                None => {
                    assert forall|m: nat| d < m <= limit implies (#[trigger] self.stored(
                        key,
                        0,
                        m,
                    )) is None by {
                        assert(node.stored(key, d as nat, m) == self.stored(key, 0, m));
                    }
                    break ;
                },
            }
            d = d + 1;
        }
        best
    }
}

/// A table of routes with `value` stored under `prefix/len`, behind what
/// was stored there.
pub open spec fn with_route<K>(
    routes: Map<(K, u8), Seq<RibEntryView>>,
    prefix: K,
    len: u8,
    value: Seq<RibEntryView>,
) -> Map<(K, u8), Seq<RibEntryView>> {
    routes.insert(
        (prefix, len),
        appended(
            if routes.contains_key((prefix, len)) {
                Some(routes[(prefix, len)])
            } else {
                None
            },
            value,
        ),
    )
}

/// A 32-bit number as a trie key, and its mask as the key's mask.
proof fn lemma_key_u32(ip: u32, len: u8)
    requires
        len <= 32,
    ensures
        key_fits(ip as u128, 32),
        key_mask(ip as u128, 32, len as nat) == mask_u32(ip, len) as u128,
        mask_u32(mask_u32(ip, len), len) == mask_u32(ip, len),
{
    assert((ip as u128) >> 32u128 == 0) by (bit_vector);
    if 0 < len < 32 {
        let s: u32 = (32 - len) as u32;
        let t: u128 = (32 - len) as u128;
        assert((ip as u128) & (u128::MAX << t) == (ip & (u32::MAX << s)) as u128) by (bit_vector)
            requires
                t == s,
                s < 32,
        ;
        assert((ip & (u32::MAX << s)) & (u32::MAX << s) == ip & (u32::MAX << s)) by (bit_vector);
    }
}

/// A 128-bit number as a trie key, and its mask as the key's mask.
proof fn lemma_key_u128(ip: u128, len: u8)
    requires
        len <= 128,
    ensures
        key_fits(ip, 128),
        key_mask(ip, 128, len as nat) == mask_u128(ip, len),
        mask_u128(mask_u128(ip, len), len) == mask_u128(ip, len),
{
    if 0 < len < 128 {
        let s: u128 = (128 - len) as u128;
        assert((ip & (u128::MAX << s)) & (u128::MAX << s) == ip & (u128::MAX << s))
            by (bit_vector);
    }
}

impl Trie<32> {
    /// The routes of the trie: the entries stored under each IPv4 prefix,
    /// keyed by the prefix's address, host bits cleared, and its length.
    pub closed spec fn view(self) -> Map<(u32, u8), Seq<RibEntryView>> {
        Map::new(
            |k: (u32, u8)|
                k.1 <= 32 && mask_u32(k.0, k.1) == k.0 && self.stored(
                    k.0 as u128,
                    0,
                    k.1 as nat,
                ) is Some,
            |k: (u32, u8)| self.stored(k.0 as u128, 0, k.1 as nat)->Some_0,
        )
    }

    /// A trie without routes.
    pub fn new() -> (t: Self)
        ensures
            t@ == Map::<(u32, u8), Seq<RibEntryView>>::empty(),
    {
        let t: Trie<32> = Trie::empty_node();
        assert(t@ =~= Map::<(u32, u8), Seq<RibEntryView>>::empty());
        t
    }

    /// Every route's length is at most 32 and its address has no host bits.
    pub proof fn lemma_routes_canonical(self, prefix: u32, len: u8)
        requires
            self@.contains_key((prefix, len)),
        ensures
            len <= 32,
            mask_u32(prefix, len) == prefix,
    {
    }

    /// The route that covers `ip` with length `len` is what is stored under
    /// the first `len` bits of `ip`.
    proof fn lemma_route_of(self, ip: u32, len: u8)
        requires
            len <= 32,
        ensures
            self@.contains_key((mask_u32(ip, len), len)) <==> self.stored(
                ip as u128,
                0,
                len as nat,
            ) is Some,
            self@.contains_key((mask_u32(ip, len), len)) ==> self@[(mask_u32(ip, len), len)]
                == self.stored(ip as u128, 0, len as nat)->Some_0,
    {
        let p = mask_u32(ip, len);
        lemma_key_u32(ip, len);
        lemma_key_u32(p, len);
        lemma_agree_is_mask(p as u128, ip as u128, 32, len as nat);
        self.lemma_stored_agree(p as u128, ip as u128, 0, len as nat);
    }

    /// Stores `value` under the first `depth` bits of `ip`, behind the
    /// entries that are stored there already.
    pub fn add(&mut self, ip: u32, depth: u8, value: Vec<MrtRibEntry>)
        requires
            depth <= 32,
        ensures
            final(self)@ == with_route(old(self)@, mask_u32(ip, depth), depth, value.deep_view()),
    {
        let ghost before = *self;
        self.insert_at(ip as u128, 0, depth, value);
        proof {
            let expected = with_route(before@, mask_u32(ip, depth), depth, value.deep_view());
            before.lemma_route_of(ip, depth);
            lemma_key_u32(ip, depth);
            assert forall|k: (u32, u8)|
                #![trigger self@.dom().contains(k)]
                #![trigger expected.dom().contains(k)]
                self@.dom().contains(k) == expected.dom().contains(k) && (self@.dom().contains(k)
                    ==> self@[k] == expected[k]) by {
                if k.1 <= 32 && mask_u32(k.0, k.1) == k.0 {
                    lemma_key_u32(k.0, k.1);
                    assert(self.stored(k.0 as u128, 0, k.1 as nat) == if k.1 == depth
                        && keys_agree(k.0 as u128, ip as u128, 32, 0, depth as nat) {
                        Some(appended(before.stored(k.0 as u128, 0, k.1 as nat), value.deep_view()))
                    } else {
                        before.stored(k.0 as u128, 0, k.1 as nat)
                    });
                    if k.1 == depth {
                        lemma_agree_is_mask(k.0 as u128, ip as u128, 32, depth as nat);
                    }
                }
            }
            assert(self@ =~= expected);
        }
    }

    /// The longest-prefix match for `ip` among the routes of at most `depth`
    /// bits: the route's address, its length and its entries.
    pub fn get(&self, ip: u32, depth: u8) -> (r: Option<(u32, u8, &Vec<MrtRibEntry>)>)
        ensures
            match r {
                Some((p, l, v)) => {
                    &&& l <= depth
                    &&& p == mask_u32(ip, l)
                    &&& self@.contains_key((p, l))
                    &&& self@[(p, l)] == v.deep_view()
                    &&& forall|m: u8|
                        l < m <= depth ==> !self@.contains_key((#[trigger] mask_u32(ip, m), m))
                },
                None => forall|m: u8|
                    m <= depth ==> !self@.contains_key((#[trigger] mask_u32(ip, m), m)),
            },
    {
        proof {
            lemma_key_u32(ip, 0);
            assert forall|m: u8| m <= 32 implies (self@.contains_key(
                (#[trigger] mask_u32(ip, m), m),
            ) <==> self.stored(ip as u128, 0, m as nat) is Some) by {
                self.lemma_route_of(ip, m);
            }
        }
        match self.longest_match(ip as u128, depth) {
            Some((p, l, v)) => {
                proof {
                    lemma_key_u32(ip, l);
                    self.lemma_route_of(ip, l);
                }
                Some((p as u32, l, v))
            },
            None => None,
        }
    }
}

impl Trie<128> {
    /// The routes of the trie: the entries stored under each IPv6 prefix,
    /// keyed by the prefix's address, host bits cleared, and its length.
    pub closed spec fn view(self) -> Map<(u128, u8), Seq<RibEntryView>> {
        Map::new(
            |k: (u128, u8)|
                k.1 <= 128 && mask_u128(k.0, k.1) == k.0 && self.stored(k.0, 0, k.1 as nat) is Some,
            |k: (u128, u8)| self.stored(k.0, 0, k.1 as nat)->Some_0,
        )
    }

    /// A trie without routes.
    pub fn new() -> (t: Self)
        ensures
            t@ == Map::<(u128, u8), Seq<RibEntryView>>::empty(),
    {
        let t: Trie<128> = Trie::empty_node();
        assert(t@ =~= Map::<(u128, u8), Seq<RibEntryView>>::empty());
        t
    }

    /// Every route's length is at most 128 and its address has no host bits.
    pub proof fn lemma_routes_canonical(self, prefix: u128, len: u8)
        requires
            self@.contains_key((prefix, len)),
        ensures
            len <= 128,
            mask_u128(prefix, len) == prefix,
    {
    }

    /// The route that covers `ip` with length `len` is what is stored under
    /// the first `len` bits of `ip`.
    proof fn lemma_route_of(self, ip: u128, len: u8)
        requires
            len <= 128,
        ensures
            self@.contains_key((mask_u128(ip, len), len)) <==> self.stored(
                ip,
                0,
                len as nat,
            ) is Some,
            self@.contains_key((mask_u128(ip, len), len)) ==> self@[(mask_u128(ip, len), len)]
                == self.stored(ip, 0, len as nat)->Some_0,
    {
        let p = mask_u128(ip, len);
        lemma_key_u128(ip, len);
        lemma_key_u128(p, len);
        lemma_agree_is_mask(p, ip, 128, len as nat);
        self.lemma_stored_agree(p, ip, 0, len as nat);
    }

    /// Stores `value` under the first `depth` bits of `ip`, behind the
    /// entries that are stored there already.
    pub fn add(&mut self, ip: u128, depth: u8, value: Vec<MrtRibEntry>)
        requires
            depth <= 128,
        ensures
            final(self)@ == with_route(old(self)@, mask_u128(ip, depth), depth, value.deep_view()),
    {
        let ghost before = *self;
        self.insert_at(ip, 0, depth, value);
        proof {
            let expected = with_route(before@, mask_u128(ip, depth), depth, value.deep_view());
            before.lemma_route_of(ip, depth);
            lemma_key_u128(ip, depth);
            assert forall|k: (u128, u8)|
                #![trigger self@.dom().contains(k)]
                #![trigger expected.dom().contains(k)]
                self@.dom().contains(k) == expected.dom().contains(k) && (self@.dom().contains(k)
                    ==> self@[k] == expected[k]) by {
                if k.1 <= 128 && mask_u128(k.0, k.1) == k.0 {
                    lemma_key_u128(k.0, k.1);
                    assert(self.stored(k.0, 0, k.1 as nat) == if k.1 == depth && keys_agree(
                        k.0,
                        ip,
                        128,
                        0,
                        depth as nat,
                    ) {
                        Some(appended(before.stored(k.0, 0, k.1 as nat), value.deep_view()))
                    } else {
                        before.stored(k.0, 0, k.1 as nat)
                    });
                    if k.1 == depth {
                        lemma_agree_is_mask(k.0, ip, 128, depth as nat);
                    }
                }
            }
            assert(self@ =~= expected);
        }
    }

    /// The longest-prefix match for `ip` among the routes of at most `depth`
    /// bits: the route's address, its length and its entries.
    pub fn get(&self, ip: u128, depth: u8) -> (r: Option<(u128, u8, &Vec<MrtRibEntry>)>)
        ensures
            match r {
                Some((p, l, v)) => {
                    &&& l <= depth
                    &&& p == mask_u128(ip, l)
                    &&& self@.contains_key((p, l))
                    &&& self@[(p, l)] == v.deep_view()
                    &&& forall|m: u8|
                        l < m <= depth ==> !self@.contains_key((#[trigger] mask_u128(ip, m), m))
                },
                None => forall|m: u8|
                    m <= depth ==> !self@.contains_key((#[trigger] mask_u128(ip, m), m)),
            },
    {
        proof {
            lemma_key_u128(ip, 0);
            assert forall|m: u8| m <= 128 implies (self@.contains_key(
                (#[trigger] mask_u128(ip, m), m),
            ) <==> self.stored(ip, 0, m as nat) is Some) by {
                self.lemma_route_of(ip, m);
            }
        }
        match self.longest_match(ip, depth) {
            Some((p, l, v)) => {
                proof {
                    lemma_key_u128(ip, l);
                    self.lemma_route_of(ip, l);
                }
                Some((p, l, v))
            },
            None => None,
        }
    }
}

} // verus!
