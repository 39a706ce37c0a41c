//! Address prefixes as plain integers, with the block arithmetic that the
//! rest of the library relies on.
//!
//! A prefix of an address family of `w` bits (32 for IPv4, 128 for IPv6) with
//! prefix length `len` has `h = w - len` host bits. Its addresses are the
//! integers `x` with `x / 2^h == bits / 2^h`: a block of `2^h` consecutive
//! addresses starting at the network address `(bits / 2^h) * 2^h`.
use vstd::prelude::*;
use vstd::arithmetic::power2::{pow2, lemma_pow2_unfold, lemma_pow2_pos, lemma_pow2_adds, lemma2_to64, lemma2_to64_rest, lemma_pow2_strictly_increases};
use vstd::arithmetic::div_mod::{lemma_div_denominator, lemma_fundamental_div_mod, lemma_div_pos_is_pos, lemma_mod_bound, lemma_div_multiples_vanish, lemma_div_is_ordered, lemma_div_plus_one};
use vstd::arithmetic::mul::{lemma_mul_inequality, lemma_mul_is_commutative, lemma_mul_strictly_positive};

verus! {

/// An IP prefix held as plain integers: the address bits (in the low bits of a
/// `u128`) and the prefix length. The address family is given by context.
#[derive(Clone, Copy, Debug, PartialEq, Eq)]
pub struct Prefix {
    pub bits: u128,
    pub len: u8,
}

/// An IPv4 or IPv6 prefix.
#[derive(Clone, Copy, Debug, PartialEq, Eq)]
pub enum IpPrefix {
    V4(Prefix),
    V6(Prefix),
}

/// The number of address bits of a family: 32 or 128.
pub open spec fn valid_width(w: u8) -> bool {
    w == 32 || w == 128
}

/// Block index of address `x` at level `h`.
pub open spec fn blk(x: int, h: nat) -> int {
    x / pow2(h) as int
}

pub open spec fn host_bits(w: u8, len: u8) -> nat {
    (w - len) as nat
}

impl Prefix {
    /// The prefix is a well-formed prefix of a `w`-bit family.
    pub open spec fn wf(self, w: u8) -> bool {
        &&& valid_width(w)
        &&& self.len <= w
        &&& self.bits < pow2(w as nat)
    }

    /// Host bits of the prefix.
    pub open spec fn host(self, w: u8) -> nat {
        host_bits(w, self.len)
    }

    /// Block index of the prefix at its own level.
    pub open spec fn block(self, w: u8) -> int {
        self.bits as int / pow2(self.host(w)) as int
    }

    /// First address of the prefix.
    pub open spec fn net(self, w: u8) -> int {
        self.block(w) * pow2(self.host(w)) as int
    }

    /// Number of addresses in the prefix.
    pub open spec fn size(self, w: u8) -> int {
        pow2(self.host(w)) as int
    }

    /// The address `x` lies in the prefix.
    pub open spec fn has(self, w: u8, x: int) -> bool {
        0 <= x && blk(x, self.host(w)) == self.block(w)
    }

    /// The bits hold the network address itself (no host bits set).
    pub open spec fn canonical(self, w: u8) -> bool {
        self.wf(w) && self.bits as int == self.net(w)
    }

    /// Every address of `inner` lies in `self`.
    pub open spec fn covers(self, w: u8, inner: Prefix) -> bool {
        forall|x: int| inner.has(w, x) ==> self.has(w, x)
    }

    /// The two prefixes share no address.
    pub open spec fn disjoint(self, w: u8, other: Prefix) -> bool {
        forall|x: int| !(self.has(w, x) && other.has(w, x))
    }
}

/// The capacity that the library reports for a prefix: `2^h`, except that the
/// whole 128-bit space, which a `u128` cannot count, is reported as `u128::MAX`.
pub open spec fn capacity_spec(w: u8, len: u8) -> int {
    if host_bits(w, len) >= 128 {
        u128::MAX as int
    } else {
        pow2(host_bits(w, len)) as int
    }
}

// ---------------------------------------------------------------------------
// Arithmetic lemmas
// ---------------------------------------------------------------------------

/// `1 << s` on u128 is the power of two `2^s`.
pub proof fn lemma_u128_one_shl(s: u128)
    requires
        s < 128,
    ensures
        (1u128 << s) as nat == pow2(s as nat),
    decreases s,
{
    if s == 0 {
        assert(1u128 << 0u128 == 1u128) by (bit_vector);
        lemma2_to64();
    } else {
        lemma_u128_one_shl((s - 1) as u128);
        assert((1u128 << s) == (1u128 << ((s - 1) as u128)) * 2) by (bit_vector)
            requires
                0 < s < 128,
        ;
        lemma_pow2_unfold(s as nat);
    }
}

/// `2^128` is one more than the largest `u128`.
pub proof fn lemma_pow2_128()
    ensures
        pow2(128) == u128::MAX + 1,
        pow2(32) == u32::MAX + 1,
{
    lemma2_to64();
    lemma2_to64_rest();
    lemma_pow2_adds(64, 64);
}

/// Powers of two are monotone.
pub proof fn lemma_pow2_le(a: nat, b: nat)
    requires
        a <= b,
    ensures
        pow2(a) <= pow2(b),
{
    if a < b {
        lemma_pow2_strictly_increases(a, b);
    }
}

/// Dividing in two steps by powers of two.
pub proof fn lemma_div_pow2_twice(x: int, a: nat, b: nat)
    requires
        0 <= x,
    ensures
        x / pow2(a + b) as int == (x / pow2(a) as int) / pow2(b) as int,
{
    lemma_pow2_pos(a);
    lemma_pow2_pos(b);
    lemma_pow2_adds(a, b);
    lemma_div_denominator(x, pow2(a) as int, pow2(b) as int);
}

/// The block at a coarser level is determined by the block at a finer level.
pub proof fn lemma_block_coarsen(x: int, y: int, fine: nat, coarse: nat)
    requires
        0 <= x,
        0 <= y,
        fine <= coarse,
        x / pow2(fine) as int == y / pow2(fine) as int,
    ensures
        x / pow2(coarse) as int == y / pow2(coarse) as int,
{
    lemma_div_pow2_twice(x, fine, (coarse - fine) as nat);
    lemma_div_pow2_twice(y, fine, (coarse - fine) as nat);
}

/// A value below `2^w` has block index 0 at any level of at least `w` bits.
pub proof fn lemma_div_pow2_small(x: int, w: nat, h: nat)
    requires
        0 <= x < pow2(w),
        w <= h,
    ensures
        x / pow2(h) as int == 0,
{
    lemma_pow2_le(w, h);
    assert(0 <= x < pow2(h));
    vstd::arithmetic::div_mod::lemma_basic_div(x, pow2(h) as int);
}

/// Block index and network address of a value.
pub proof fn lemma_net_bounds(x: int, h: nat)
    requires
        0 <= x,
    ensures
        0 <= (x / pow2(h) as int) * pow2(h) as int <= x,
        x < (x / pow2(h) as int) * pow2(h) as int + pow2(h) as int,
        x - (x / pow2(h) as int) * pow2(h) as int == x % pow2(h) as int,
        0 <= x / pow2(h) as int,
{
    lemma_pow2_pos(h);
    lemma_fundamental_div_mod(x, pow2(h) as int);
    lemma_mod_bound(x, pow2(h) as int);
    lemma_div_pos_is_pos(x, pow2(h) as int);
    lemma_mul_is_commutative(pow2(h) as int, x / pow2(h) as int);
    vstd::arithmetic::mul::lemma_mul_nonnegative(x / pow2(h) as int, pow2(h) as int);
}

/// Membership in a block is the same as lying in its address range.
pub proof fn lemma_block_range(x: int, k: int, h: nat)
    requires
        0 <= x,
        0 <= k,
    ensures
        (x / pow2(h) as int == k) <==> (k * pow2(h) as int <= x < k * pow2(h) as int + pow2(h) as int),
{
    lemma_pow2_pos(h);
    let d = pow2(h) as int;
    lemma_fundamental_div_mod(x, d);
    lemma_mod_bound(x, d);
    if k * d <= x < k * d + d {
        vstd::arithmetic::div_mod::lemma_fundamental_div_mod_converse(x, d, k, x - k * d);
    }
    if x / d == k {
        lemma_mul_is_commutative(d, k);
    }
}

/// The two halves of a block at level `h + 1` are the blocks `2k` and `2k + 1`
/// at level `h`.
pub proof fn lemma_block_halves(x: int, h: nat)
    requires
        0 <= x,
    ensures
        x / pow2(h + 1) as int == (x / pow2(h) as int) / 2,
{
    lemma_div_pow2_twice(x, h, 1);
    lemma2_to64();
}

/// `network` of a value is below the family's bound and leaves room for the
/// whole block below `2^w`.
pub proof fn lemma_net_fits(x: int, h: nat, w: nat)
    requires
        0 <= x < pow2(w),
        h <= w,
    ensures
        (x / pow2(h) as int) * pow2(h) as int + pow2(h) as int <= pow2(w),
{
    lemma_pow2_pos(h);
    lemma_pow2_adds(h, (w - h) as nat);
    let d = pow2(h) as int;
    let k = x / d;
    lemma_net_bounds(x, h);
    // x < 2^w = 2^(w-h) * d, so k < 2^(w-h)
    lemma_pow2_pos((w - h) as nat);
    lemma_mul_is_commutative(pow2((w - h) as nat) as int, d);
    vstd::arithmetic::div_mod::lemma_div_by_multiple_is_strongly_ordered(x, pow2(w) as int, pow2((w - h) as nat) as int, d);
    vstd::arithmetic::div_mod::lemma_div_by_multiple(pow2((w - h) as nat) as int, d);
    assert(k < pow2((w - h) as nat));
    lemma_mul_inequality(k + 1, pow2((w - h) as nat) as int, d);
    vstd::arithmetic::mul::lemma_mul_is_distributive_add_other_way(d, k, 1);
}

impl Prefix {
    /// Nested or disjoint: if two prefixes share an address, the shorter one
    /// covers the longer one.
    pub proof fn lemma_nested_or_disjoint(self, w: u8, other: Prefix, x: int)
        requires
            self.wf(w),
            other.wf(w),
            self.len <= other.len,
            self.has(w, x),
            other.has(w, x),
        ensures
            self.covers(w, other),
            other.block(w) / pow2((self.host(w) - other.host(w)) as nat) as int == self.block(w),
    {
        let hs = self.host(w);
        let ho = other.host(w);
        lemma_div_pow2_twice(other.bits as int, ho, (hs - ho) as nat);
        lemma_div_pow2_twice(x, ho, (hs - ho) as nat);
        assert forall|y: int| other.has(w, y) implies self.has(w, y) by {
            lemma_block_coarsen(y, other.bits as int, ho, hs);
            lemma_block_coarsen(x, other.bits as int, ho, hs);
        }
    }

    /// A shorter prefix covers a longer one when the longer one's bits fall in it.
    pub proof fn lemma_covers_when(self, w: u8, inner: Prefix)
        requires
            self.wf(w),
            inner.wf(w),
            self.len <= inner.len,
            self.has(w, inner.bits as int),
        ensures
            self.covers(w, inner),
    {
        inner.lemma_has_bits(w);
        self.lemma_nested_or_disjoint(w, inner, inner.bits as int);
    }

    /// A prefix holds its own bits and its network address.
    pub proof fn lemma_has_bits(self, w: u8)
        requires
            self.wf(w),
        ensures
            self.has(w, self.bits as int),
            self.has(w, self.net(w)),
            0 <= self.net(w) <= self.bits,
            self.net(w) + self.size(w) <= pow2(w as nat),
            self.size(w) > 0,
    {
        lemma_net_bounds(self.bits as int, self.host(w));
        lemma_block_range(self.net(w), self.block(w), self.host(w));
        lemma_net_fits(self.bits as int, self.host(w), w as nat);
        lemma_pow2_pos(self.host(w));
    }

    /// Membership as an address range.
    pub proof fn lemma_has_range(self, w: u8, x: int)
        requires
            self.wf(w),
        ensures
            self.has(w, x) <==> (self.net(w) <= x < self.net(w) + self.size(w)),
    {
        self.lemma_has_bits(w);
        if 0 <= x {
            lemma_block_range(x, self.block(w), self.host(w));
        }
    }

    /// Covering as an inclusion of address ranges.
    pub proof fn lemma_covers_range(self, w: u8, inner: Prefix)
        requires
            self.wf(w),
            inner.wf(w),
        ensures
            self.covers(w, inner) <==> (self.net(w) <= inner.net(w) && inner.net(w) + inner.size(w) <= self.net(w) + self.size(w)),
    {
        inner.lemma_has_bits(w);
        self.lemma_has_bits(w);
        inner.lemma_has_range(w, inner.net(w));
        inner.lemma_has_range(w, inner.net(w) + inner.size(w) - 1);
        self.lemma_has_range(w, inner.net(w));
        self.lemma_has_range(w, inner.net(w) + inner.size(w) - 1);
        if self.net(w) <= inner.net(w) && inner.net(w) + inner.size(w) <= self.net(w) + self.size(w) {
            assert forall|y: int| inner.has(w, y) implies self.has(w, y) by {
                inner.lemma_has_range(w, y);
                self.lemma_has_range(w, y);
            }
        }
    }

    /// Disjointness as separated address ranges.
    pub proof fn lemma_disjoint_range(self, w: u8, other: Prefix)
        requires
            self.wf(w),
            other.wf(w),
        ensures
            self.disjoint(w, other) <==> (self.net(w) + self.size(w) <= other.net(w) || other.net(w) + other.size(w) <= self.net(w)),
    {
        self.lemma_has_bits(w);
        other.lemma_has_bits(w);
        if self.net(w) + self.size(w) <= other.net(w) || other.net(w) + other.size(w) <= self.net(w) {
            assert forall|x: int| !(self.has(w, x) && other.has(w, x)) by {
                self.lemma_has_range(w, x);
                other.lemma_has_range(w, x);
            }
        } else {
            let x = if self.net(w) <= other.net(w) { other.net(w) } else { self.net(w) };
            self.lemma_has_range(w, x);
            other.lemma_has_range(w, x);
        }
    }
}

// ---------------------------------------------------------------------------
// Executable prefix arithmetic
// ---------------------------------------------------------------------------

/// `2^h` as a u128.
pub fn pow2_u128(h: u8) -> (r: u128)
    requires
        h < 128,
    ensures
        r as nat == pow2(h as nat),
        r > 0,
{
    proof {
        lemma_u128_one_shl(h as u128);
        lemma_pow2_pos(h as nat);
    }
    1u128 << h
}

/// The address of a prefix with its host bits cleared (the network address).
pub fn network(p: Prefix, w: u8) -> (r: u128)
    requires
        p.wf(w),
    ensures
        r as int == p.net(w),
        p.has(w, r as int),
{
    proof {
        p.lemma_has_bits(w);
    }
    let h = w - p.len;
    if h >= 128 {
        proof {
            lemma_pow2_128();
            lemma_div_pow2_small(p.bits as int, w as nat, 128);
        }
        0
    } else {
        let d = pow2_u128(h);
        proof {
            lemma_net_bounds(p.bits as int, h as nat);
        }
        p.bits - p.bits % d
    }
}

/// The canonical form of a prefix (`trunc` in ipnet): the same prefix length
/// with the host bits cleared.
pub fn trunc(p: Prefix, w: u8) -> (r: Prefix)
    requires
        p.wf(w),
    ensures
        r.canonical(w),
        r.len == p.len,
        r.bits as int == p.net(w),
        r.block(w) == p.block(w),
        forall|x: int| r.has(w, x) <==> p.has(w, x),
{
    let n = network(p, w);
    let r = Prefix { bits: n, len: p.len };
    proof {
        p.lemma_has_bits(w);
        assert(r.wf(w));
        assert forall|x: int| r.has(w, x) <==> p.has(w, x) by {
            if 0 <= x {
                lemma_net_bounds(p.bits as int, p.host(w));
                lemma_block_range(n as int, p.block(w), p.host(w));
            }
        }
        lemma_block_range(n as int, p.block(w), p.host(w));
        r.lemma_has_bits(w);
        lemma_net_bounds(p.bits as int, p.host(w));
        lemma_pow2_pos(p.host(w));
        lemma_div_multiples_vanish(p.block(w), pow2(p.host(w)) as int);
        lemma_mul_is_commutative(p.block(w), pow2(p.host(w)) as int);
    }
    r
}

/// The capacity the library reports for a prefix length (see `capacity_spec`).
pub fn capacity_of(len: u8, w: u8) -> (r: u128)
    requires
        valid_width(w),
        len <= w,
    ensures
        r as int == capacity_spec(w, len),
        r >= 1,
{
    let h = w - len;
    if h >= 128 {
        u128::MAX
    } else {
        let r = pow2_u128(h);
        proof {
            lemma_pow2_pos(h as nat);
        }
        r
    }
}

/// The last address of a prefix (the broadcast address).
pub fn last_address(p: Prefix, w: u8) -> (r: u128)
    requires
        p.wf(w),
    ensures
        r as int == p.net(w) + p.size(w) - 1,
        p.has(w, r as int),
{
    proof {
        p.lemma_has_bits(w);
        p.lemma_has_range(w, p.net(w) + p.size(w) - 1);
        lemma_pow2_le(w as nat, 128);
        lemma_pow2_128();
    }
    let n = network(p, w);
    let h = w - p.len;
    if h >= 128 {
        proof {
            lemma_pow2_128();
        }
        u128::MAX
    } else {
        let d = pow2_u128(h);
        n + (d - 1)
    }
}

/// Whether `outer` covers `inner`: `outer` is no longer than `inner` and
/// `inner`'s addresses share `outer`'s network bits.
pub fn prefix_contains(outer: Prefix, inner: Prefix, w: u8) -> (r: bool)
    requires
        outer.wf(w),
        inner.wf(w),
    ensures
        r == (outer.len <= inner.len && outer.covers(w, inner)),
{
    proof {
        inner.lemma_has_bits(w);
    }
    if outer.len > inner.len {
        return false;
    }
    let h = w - outer.len;
    if h >= 128 {
        proof {
            lemma_pow2_128();
            assert forall|x: int| inner.has(w, x) implies outer.has(w, x) by {
                inner.lemma_has_range(w, x);
                lemma_div_pow2_small(x, 128, 128);
                lemma_div_pow2_small(outer.bits as int, w as nat, 128);
            }
        }
        true
    } else {
        let d = pow2_u128(h);
        let r = outer.bits / d == inner.bits / d;
        proof {
            if r {
                outer.lemma_covers_when(w, inner);
            } else {
                inner.lemma_has_bits(w);
            }
        }
        r
    }
}

/// Whether two prefixes of equal length are the two halves of one prefix one
/// bit shorter.
pub fn are_siblings(a: Prefix, b: Prefix, w: u8) -> (r: bool)
    requires
        a.wf(w),
        b.wf(w),
    ensures
        r == (a.len == b.len && a.len != 0 && a.block(w) != b.block(w) && a.block(w) / 2 == b.block(w) / 2),
{
    if a.len != b.len || a.len == 0 {
        return false;
    }
    let h = w - a.len;
    let d = pow2_u128(h);
    if a.bits / d == b.bits / d {
        return false;
    }
    proof {
        lemma_block_halves(a.bits as int, h as nat);
        lemma_block_halves(b.bits as int, h as nat);
    }
    if h + 1 >= 128 {
        proof {
            lemma_pow2_128();
            lemma_div_pow2_small(a.bits as int, w as nat, 128);
            lemma_div_pow2_small(b.bits as int, w as nat, 128);
        }
        true
    } else {
        let d2 = pow2_u128(h + 1);
        a.bits / d2 == b.bits / d2
    }
}

/// The prefix one bit shorter that holds `p`.
pub fn parent_prefix(p: Prefix, w: u8) -> (r: Prefix)
    requires
        p.wf(w),
        p.len > 0,
    ensures
        r.canonical(w),
        r.len == p.len - 1,
        r.block(w) == p.block(w) / 2,
        forall|x: int| #[trigger] r.has(w, x) <==> (0 <= x && blk(x, p.host(w)) / 2 == p.block(w) / 2),
{
    let q = Prefix { bits: p.bits, len: p.len - 1 };
    proof {
        lemma_block_halves(p.bits as int, p.host(w));
        assert forall|x: int| 0 <= x implies #[trigger] blk(x, q.host(w)) == blk(x, p.host(w)) / 2 by {
            lemma_block_halves(x, p.host(w));
        }
    }
    let r = trunc(q, w);
    r
}

} // verus!
