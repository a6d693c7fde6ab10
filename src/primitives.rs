//! Fixed-width values of the chain: 20-byte addresses and 256-bit words,
//! with their big-endian byte encodings.
use vstd::prelude::*;

verus! {

/// A 20-byte account address, held as its big-endian parts
/// (4 high bytes, then two groups of 8 bytes).
#[derive(Clone, Copy, Debug, PartialEq, Eq, Hash, Structural)]
pub struct Address {
    pub hi: u32,
    pub mid: u64,
    pub lo: u64,
}

/// An unsigned 256-bit value, held as two 128-bit halves.
#[derive(Clone, Copy, Debug, PartialEq, Eq, Hash, Structural)]
pub struct U256 {
    pub hi: u128,
    pub lo: u128,
}

/// The `n` low bytes of `v`, most significant first.
pub open spec fn be_bytes(v: nat, n: nat) -> Seq<u8>
    decreases n,
{
    if n == 0 {
        Seq::empty()
    } else {
        be_bytes(v / 256, (n - 1) as nat).push((v % 256) as u8)
    }
}

/// The 20 bytes of an address.
pub open spec fn address_bytes(a: Address) -> Seq<u8> {
    be_bytes(a.hi as nat, 4) + be_bytes(a.mid as nat, 8) + be_bytes(a.lo as nat, 8)
}

/// The 32 bytes of a word.
pub open spec fn u256_bytes(w: U256) -> Seq<u8> {
    be_bytes(w.hi as nat, 16) + be_bytes(w.lo as nat, 16)
}

/// An address as an ABI word: 12 zero bytes, then the address.
pub open spec fn address_word(a: Address) -> Seq<u8> {
    Seq::new(12, |i: int| 0u8) + address_bytes(a)
}

/// The numeric value of a word.
pub open spec fn u256_value(w: U256) -> nat {
    w.hi as nat * 0x1_0000_0000_0000_0000_0000_0000_0000_0000 + w.lo as nat
}

/// Lexicographic order on the big-endian parts.
pub open spec fn address_lt(a: Address, b: Address) -> bool {
    a.hi < b.hi || (a.hi == b.hi && (a.mid < b.mid || (a.mid == b.mid && a.lo < b.lo)))
}

impl Address {
    pub open spec fn zero_spec() -> Address {
        Address { hi: 0, mid: 0, lo: 0 }
    }

    pub fn new(hi: u32, mid: u64, lo: u64) -> (r: Address)
        ensures
            r == (Address { hi, mid, lo }),
    {
        Address { hi, mid, lo }
    }

    /// The zero address.
    pub fn zero() -> (r: Address)
        ensures
            r == Address::zero_spec(),
    {
        Address { hi: 0, mid: 0, lo: 0 }
    }

    /// Whether `self` sorts strictly before `other`.
    pub fn less_than(&self, other: &Address) -> (r: bool)
        ensures
            r == address_lt(*self, *other),
    {
        self.hi < other.hi || (self.hi == other.hi && (self.mid < other.mid || (self.mid
            == other.mid && self.lo < other.lo)))
    }
}

impl U256 {
    pub open spec fn zero_spec() -> U256 {
        U256 { hi: 0, lo: 0 }
    }

    /// The word zero.
    pub fn zero() -> (r: U256)
        ensures
            r == U256::zero_spec(),
    {
        U256 { hi: 0, lo: 0 }
    }

    /// A word of the value `v`.
    pub fn from_u128(v: u128) -> (r: U256)
        ensures
            r == (U256 { hi: 0, lo: v }),
            u256_value(r) == v,
    {
        U256 { hi: 0, lo: v }
    }

    /// A word of the value `v`.
    pub fn from_u64(v: u64) -> (r: U256)
        ensures
            r == (U256 { hi: 0, lo: v as u128 }),
            u256_value(r) == v,
    {
        U256 { hi: 0, lo: v as u128 }
    }
}

/// Appends the `n` low bytes of `v` to `out`, most significant first.
pub fn push_be(out: &mut Vec<u8>, v: u128, n: usize)
    requires
        n <= 16,
    ensures
        final(out)@ == old(out)@ + be_bytes(v as nat, n as nat),
{
    let start = out.len();
    let mut k: usize = 0;
    while k < n
        invariant
            k <= n,
            out@.len() == start + k,
            out@.subrange(0, start as int) == old(out)@,
            start == old(out)@.len(),
        decreases n - k,
    {
        out.push(0);
        k = k + 1;
    }
    let end = out.len();
    let mut cur: u128 = v;
    let mut j: usize = 0;
    while j < n
        invariant
            j <= n,
            out@.len() == start + n,
            end == start + n,
            start == old(out)@.len(),
            out@.subrange(0, start as int) == old(out)@,
            be_bytes(v as nat, n as nat) == be_bytes(cur as nat, (n - j) as nat) + out@.subrange(
                (start + n - j) as int,
                (start + n) as int,
            ),
        decreases n - j,
    {
        let ghost before = out@;
        let ghost tail = out@.subrange((start + n - j) as int, (start + n) as int);
        let b: u8 = (cur % 256) as u8;
        out.set(end - 1 - j, b);
        proof {
            assert(out@.subrange(0, start as int) =~= before.subrange(0, start as int));
            assert(out@.subrange((start + n - j - 1) as int, (start + n) as int) =~= seq![b]
                + tail);
            assert(be_bytes(cur as nat, (n - j) as nat) == be_bytes(
                (cur / 256) as nat,
                (n - j - 1) as nat,
            ).push(b));
            assert(be_bytes(cur as nat, (n - j) as nat) + tail =~= be_bytes(
                (cur / 256) as nat,
                (n - j - 1) as nat,
            ) + (seq![b] + tail));
        }
        cur = cur / 256;
        j = j + 1;
    }
    assert(out@ =~= out@.subrange(0, start as int) + out@.subrange(
        start as int,
        (start + n) as int,
    ));
}

/// Appends the 20 bytes of `a`.
pub fn push_address(out: &mut Vec<u8>, a: Address)
    ensures
        final(out)@ == old(out)@ + address_bytes(a),
{
    push_be(out, a.hi as u128, 4);
    push_be(out, a.mid as u128, 8);
    push_be(out, a.lo as u128, 8);
    assert(final(out)@ =~= old(out)@ + address_bytes(a));
}

/// Appends `a` as a 32-byte ABI word.
pub fn push_address_word(out: &mut Vec<u8>, a: Address)
    ensures
        final(out)@ == old(out)@ + address_word(a),
{
    let ghost start = out@;
    let mut k: usize = 0;
    while k < 12
        invariant
            k <= 12,
            out@ =~= start + Seq::new(k as nat, |i: int| 0u8),
        decreases 12 - k,
    {
        out.push(0);
        k = k + 1;
    }
    push_address(out, a);
    assert(final(out)@ =~= old(out)@ + address_word(a));
}

/// Appends the 32 bytes of `w`.
pub fn push_u256(out: &mut Vec<u8>, w: U256)
    ensures
        final(out)@ == old(out)@ + u256_bytes(w),
{
    push_be(out, w.hi, 16);
    push_be(out, w.lo, 16);
    assert(final(out)@ =~= old(out)@ + u256_bytes(w));
}

} // verus!
