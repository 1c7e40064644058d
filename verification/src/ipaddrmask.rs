use vstd::prelude::*;

verus! {

/// An IPv4 or IPv6 address, held as the number that its bytes denote in
/// network order.
#[derive(Debug, Clone, Copy, PartialEq, Eq, Hash, Structural)]
pub enum Address {
    V4(u32),
    V6(u128),
}

/// `a` with every bit after the first `len` cleared; unchanged when `len`
/// covers all 32 bits.
pub open spec fn mask_u32(a: u32, len: u8) -> u32 {
    if len == 0 {
        0
    } else if len >= 32 {
        a
    } else {
        a & (u32::MAX << ((32 - len) as u32))
    }
}

/// `a` with every bit after the first `len` cleared; unchanged when `len`
/// covers all 128 bits.
pub open spec fn mask_u128(a: u128, len: u8) -> u128 {
    if len == 0 {
        0
    } else if len >= 128 {
        a
    } else {
        a & (u128::MAX << ((128 - len) as u128))
    }
}

impl Address {
    /// The number of bits of the address family: 32 or 128.
    pub open spec fn spec_width(self) -> u8 {
        match self {
            Address::V4(_) => 32,
            Address::V6(_) => 128,
        }
    }

    /// The address with all bits after the first `len` cleared.
    pub open spec fn masked(self, len: u8) -> Address {
        match self {
            Address::V4(a) => Address::V4(mask_u32(a, len)),
            Address::V6(a) => Address::V6(mask_u128(a, len)),
        }
    }

    /// The number of bits of the address family: 32 or 128.
    pub fn width(&self) -> (w: u8)
        ensures
            w == self.spec_width(),
    {
        match self {
            Address::V4(_) => 32,
            Address::V6(_) => 128,
        }
    }
}

/// Clearing the host part of an address.
pub trait IpAddrMask {
    /// The value that `mask` returns.
    spec fn mask_spec(&self, len: u8) -> Address;

    /// Keeps the first `len` bits and clears the rest. A length of zero gives
    /// the zero address; a length of the full width or more gives the address
    /// back.
    fn mask(&self, len: u8) -> (r: Address)
        ensures
            r == self.mask_spec(len),
    ;
}

impl IpAddrMask for Address {
    open spec fn mask_spec(&self, len: u8) -> Address {
        self.masked(len)
    }

    fn mask(&self, len: u8) -> (r: Address) {
        match self {
            Address::V4(a) => {
                if len == 0 {
                    Address::V4(0)
                } else if len >= 32 {
                    Address::V4(*a)
                } else {
                    let shift: u32 = (32 - len) as u32;
                    Address::V4(*a & (u32::MAX << shift))
                }
            },
            Address::V6(a) => {
                if len == 0 {
                    Address::V6(0)
                } else if len >= 128 {
                    Address::V6(*a)
                } else {
                    let shift: u128 = (128 - len) as u128;
                    Address::V6(*a & (u128::MAX << shift))
                }
            },
        }
    }
}

/// Masking twice with one length is masking once.
pub proof fn lemma_mask_idempotent(a: Address, n: u8)
    ensures
        a.masked(n).masked(n) == a.masked(n),
{
    match a {
        Address::V4(x) => {
            if 0 < n < 32 {
                let s: u32 = (32 - n) as u32;
                assert((x & (u32::MAX << s)) & (u32::MAX << s) == x & (u32::MAX << s))
                    by (bit_vector);
            }
        },
        Address::V6(x) => {
            if 0 < n < 128 {
                let s: u128 = (128 - n) as u128;
                assert((x & (u128::MAX << s)) & (u128::MAX << s) == x & (u128::MAX << s))
                    by (bit_vector);
            }
        },
    }
}

} // verus!
