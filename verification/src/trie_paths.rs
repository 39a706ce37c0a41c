//! Paths through the trie and the prefixes they spell: the top bits of an
//! insertion key, how a node's path extends its ancestors', and which inserted
//! prefixes a trie holds under a reachable leaf.
use vstd::prelude::*;
use vstd::arithmetic::power2::{pow2, lemma_pow2_pos, lemma_pow2_adds, lemma_pow2_unfold};
use crate::prefix::{Prefix, lemma_u128_one_shl, lemma_div_pow2_twice, lemma_net_bounds};
use crate::lossless::within;
use crate::trie_insert::{key_bit, path_bit, same_links};
use crate::trie::{BinaryTrie, TrieNode, NodeIdx, INVALID, same_shape};
use crate::optimizer::collapsed_from;

verus! {

/// The top `n` bits of a key, as a number of `n` bits.
pub open spec fn key_top(key: u128, n: int) -> int {
    key as int / pow2((128 - n) as nat) as int
}

/// One more top bit of a key.
pub proof fn lemma_key_top_step(key: u128, t: int)
    requires
        0 <= t < 128,
    ensures
        key_top(key, t + 1) == key_top(key, t) * 2 + key_bit(key, t),
{
    let h = (127 - t) as nat;
    let y = key >> ((127 - t) as u128);
    vstd::bits::lemma_u128_shr_is_div(key, (127 - t) as u128);
    assert(y & 1 == y % 2) by (bit_vector);
    lemma_div_pow2_twice(key as int, h, 1);
    assert((128 - t) as nat == h + 1);
    lemma_pow2_pos(1);
    vstd::arithmetic::power2::lemma2_to64();
    vstd::arithmetic::div_mod::lemma_fundamental_div_mod(y as int, 2);
}

/// The top `d + m` bits of a key whose bits from `d` on agree with the first
/// `m` bits of the `s`-bit path `sb`.
pub proof fn lemma_key_top_path(key: u128, d: int, s: int, sb: u128, m: int)
    requires
        0 <= d,
        0 <= m <= s,
        d + s <= 128,
        sb < pow2(s as nat),
        forall|o: int| 0 <= o < m ==> #[trigger] key_bit(key, d + o) == path_bit(sb, s, o),
    ensures
        key_top(key, d + m) == key_top(key, d) * pow2(m as nat) + sb as int / pow2((s - m) as nat) as int,
    decreases m,
{
    lemma_pow2_pos((s - m) as nat);
    if m == 0 {
        vstd::arithmetic::div_mod::lemma_basic_div(sb as int, pow2(s as nat) as int);
        assert(pow2(0) == 1) by {
            vstd::arithmetic::power2::lemma2_to64();
        }
        assert(key_top(key, d) * 1 == key_top(key, d));
    } else {
        lemma_key_top_path(key, d, s, sb, m - 1);
        lemma_key_top_step(key, d + m - 1);
        assert(key_bit(key, d + (m - 1)) == path_bit(sb, s, m - 1));
        let h = (s - m) as nat;
        let z = sb >> (h as u128);
        vstd::bits::lemma_u128_shr_is_div(sb, h as u128);
        assert(path_bit(sb, s, m - 1) == z & 1);
        assert(z & 1 == z % 2) by (bit_vector);
        lemma_div_pow2_twice(sb as int, h, 1);
        assert((s - (m - 1)) as nat == h + 1);
        vstd::arithmetic::power2::lemma2_to64();
        vstd::arithmetic::div_mod::lemma_fundamental_div_mod(z as int, 2);
        lemma_pow2_unfold(m as nat);
        let a = key_top(key, d);
        let p = pow2((m - 1) as nat) as int;
        let zz = z as int;
        assert(sb as int / pow2(h + 1) as int == zz / 2);
        assert(key_top(key, d + m - 1) == a * p + zz / 2);
        assert(key_top(key, d + m) == (a * p + zz / 2) * 2 + zz % 2);
        assert((a * p + zz / 2) * 2 + zz % 2 == a * (2 * p) + zz) by (nonlinear_arith)
            requires zz == 2 * (zz / 2) + zz % 2;
        assert(pow2(m as nat) as int == 2 * p);
    }
}

/// The bits of a key from `b` on, taken as the low `r` bits of the key
/// shifted right by `128 - b - r`, agree bit by bit with the key.
pub proof fn lemma_key_low_bits(key: u128, b: int, r: int, o: int)
    requires
        0 <= b,
        0 < r,
        b + r <= 128,
        r < 128,
        0 <= o < r,
    ensures
        key_bit(key, b + o) == path_bit(((key >> ((128 - b - r) as u128)) & (((1u128 << (r as u128)) - 1) as u128)), r, o),
{
    let a = (128 - b - r) as u128;
    let ru = r as u128;
    let k = (r - 1 - o) as u128;
    assert(((((key >> a) & (((1u128 << ru) - 1) as u128)) >> k) & 1) == ((key >> ((a + k) as u128)) & 1)) by (bit_vector)
        requires
            k < ru,
            ru < 128,
            a + ru <= 128,
    ;
    assert((127 - (b + o)) as u128 == (a + k) as u128);
}

/// The top `b + r` bits of a key: the top `b` bits followed by the low `r`
/// bits of the key shifted right by `128 - b - r`.
pub proof fn lemma_key_top_low(key: u128, b: int, r: int)
    requires
        0 <= b,
        0 < r,
        b + r <= 128,
        r < 128,
    ensures
        key_top(key, b + r) == key_top(key, b) * pow2(r as nat)
            + ((key >> ((128 - b - r) as u128)) & (((1u128 << (r as u128)) - 1) as u128)) as int,
{
    let sb = (key >> ((128 - b - r) as u128)) & (((1u128 << (r as u128)) - 1) as u128);
    let ru = r as u128;
    let y = key >> ((128 - b - r) as u128);
    assert(sb == y & (((1u128 << ru) - 1) as u128));
    assert((y & (((1u128 << ru) - 1) as u128)) < (1u128 << ru)) by (bit_vector)
        requires
            ru < 128,
    ;
    lemma_u128_one_shl(ru);
    assert forall|o: int| 0 <= o < r implies #[trigger] key_bit(key, b + o) == path_bit(sb, r, o) by {
        lemma_key_low_bits(key, b, r, o);
    }
    lemma_key_top_path(key, b, r, sb, r);
    assert(pow2(0) == 1) by {
        vstd::arithmetic::power2::lemma2_to64();
    }
    assert((r - r) as nat == 0);
    assert(sb as int / pow2(0) as int == sb as int);
}

impl BinaryTrie {
    /// Node `j` is a leaf reached from the root whose path spells the top
    /// bits of `key`, with a prefix length of at most `len`.
    pub open spec fn holds_key_at(self, j: int, key: u128, len: int) -> bool {
        &&& self.valid(j)
        &&& self.reach(self.root as int, j)
        &&& self.node(j).is_leaf
        &&& self.plen(j) <= len
        &&& self.path_value(j) == key_top(key, self.plen(j))
    }

    /// Some leaf reached from the root holds the first `len` bits of `key`.
    pub open spec fn holds_key(self, key: u128, len: int) -> bool {
        exists|j: int| #[trigger] self.holds_key_at(j, key, len)
    }

    /// The path of a child extends its parent's.
    pub proof fn lemma_child_path(self, c: int)
        requires
            self.wf(),
            self.valid(c),
            c != self.root,
        ensures
            self.plen(self.node(c).parent as int) < self.plen(c),
            self.path_value(c) / pow2((self.plen(c) - self.plen(self.node(c).parent as int)) as nat) as int
                == self.path_value(self.node(c).parent as int),
    {
        assert(self.arena@[c] == self.node(c));
        let x = self.node(c).parent as int;
        assert(self.arena@[x] == self.node(x));
        let n = self.node(c);
        let s = n.skip_len as nat;
        let b: int = if self.node(x).children[1] == c as NodeIdx { 1 } else { 0 };
        let v = self.path_value(x);
        self.lemma_path_value_bound(x);
        assert(self.path_value(c) == (v * 2 + b) * pow2(s) + n.skip_bits);
        lemma_pow2_pos(s);
        lemma_pow2_adds(1, s);
        vstd::arithmetic::power2::lemma2_to64();
        assert(self.plen(c) - self.plen(x) == 1 + s);
        let q = pow2(s) as int;
        assert((v * 2 + b) * q + n.skip_bits == v * (2 * q) + (b * q + n.skip_bits)) by (nonlinear_arith);
        assert(0 <= b * q + n.skip_bits < 2 * q) by (nonlinear_arith)
            requires 0 <= b <= 1, 0 <= n.skip_bits < q;
        vstd::arithmetic::div_mod::lemma_fundamental_div_mod_converse(self.path_value(c), 2 * q, v, b * q + n.skip_bits);
    }

    /// The path of a node reached from `x` extends the path of `x`.
    pub proof fn lemma_reach_path(self, x: int, j: int)
        requires
            self.wf(),
            self.valid(x),
            self.reach(x, j),
        ensures
            self.valid(j),
            self.plen(x) <= self.plen(j),
            self.path_value(j) / pow2((self.plen(j) - self.plen(x)) as nat) as int == self.path_value(x),
        decreases 256 - self.node(x).depth,
    {
        assert(self.arena@[x] == self.node(x));
        if x == j {
            assert(pow2(0) == 1) by {
                vstd::arithmetic::power2::lemma2_to64();
            }
            assert((self.plen(j) - self.plen(x)) as nat == 0);
            assert(self.path_value(j) / 1 == self.path_value(j));
        } else {
            let c0 = self.node(x).children[0];
            let c1 = self.node(x).children[1];
            let c: int = if c0 != INVALID && self.valid(c0 as int) && self.node(c0 as int).depth > self.node(x).depth
                && self.reach(c0 as int, j) { c0 as int } else { c1 as int };
            assert(self.arena@[c] == self.node(c));
            assert(self.reach(c, j));
            assert(c != self.root);
            self.lemma_reach_path(c, j);
            self.lemma_child_path(c);
            assert(self.node(c).parent as int == x);
            self.lemma_path_value_bound(j);
            lemma_div_pow2_twice(self.path_value(j), (self.plen(j) - self.plen(c)) as nat, (self.plen(c) - self.plen(x)) as nat);
            assert((self.plen(j) - self.plen(x)) as nat == (self.plen(j) - self.plen(c)) as nat + (self.plen(c) - self.plen(x)) as nat);
        }
    }
}

impl BinaryTrie {
    /// A node reached from `x` other than `x` has its parent reached from
    /// `x`, and that parent is an inner node.
    pub proof fn lemma_reach_parent(self, x: int, j: int)
        requires
            self.wf(),
            self.valid(x),
            self.reach(x, j),
            j != x,
        ensures
            self.valid(j),
            j != self.root,
            self.reach(x, self.node(j).parent as int),
            !self.node(self.node(j).parent as int).is_leaf,
        decreases 256 - self.node(x).depth,
    {
        assert(self.arena@[x] == self.node(x));
        let c0 = self.node(x).children[0];
        let c1 = self.node(x).children[1];
        let c: int = if c0 != INVALID && self.valid(c0 as int) && self.node(c0 as int).depth > self.node(x).depth
            && self.reach(c0 as int, j) { c0 as int } else { c1 as int };
        assert(self.arena@[c] == self.node(c));
        assert(self.reach(c, j));
        assert(self.node(c).parent as int == x);
        if c == j {
            assert(self.reach(x, x));
        } else {
            self.lemma_reach_parent(c, j);
            let p = self.node(j).parent as int;
            assert(self.arena@[p] == self.node(p));
            assert(self.reach(x, p));
        }
    }
}

/// Collapses keep, for a leaf reached from `x`, a leaf reached from `x` at or
/// above it.
pub proof fn lemma_collapsed_reach(o: BinaryTrie, t: BinaryTrie, x: int, l: int) -> (a: int)
    requires
        o.wf(),
        t.wf(),
        collapsed_from(o, t),
        o.valid(x),
        o.reach(x, l),
        o.node(l).is_leaf,
    ensures
        t.valid(a),
        t.reach(x, a),
        t.node(a).is_leaf,
        o.reach(a, l),
    decreases 256 - o.node(x).depth,
{
    assert(o.arena@[x] == o.node(x));
    assert(t.arena@[x] == t.node(x));
    if x == l {
        assert(t.reach(x, x));
        x
    } else if t.node(x).is_leaf {
        assert(t.reach(x, x));
        x
    } else {
        let c0 = o.node(x).children[0];
        let c1 = o.node(x).children[1];
        let c: int = if c0 != INVALID && o.valid(c0 as int) && o.node(c0 as int).depth > o.node(x).depth
            && o.reach(c0 as int, l) { c0 as int } else { c1 as int };
        assert(o.reach(c, l));
        assert(o.arena@[c] == o.node(c));
        assert(t.arena@[c] == t.node(c));
        assert(t.node(x).children == o.node(x).children);
        let a = lemma_collapsed_reach(o, t, c, l);
        assert(t.reach(x, a));
        a
    }
}

/// Collapses keep the path of every node reached from the root.
pub proof fn lemma_collapsed_path(o: BinaryTrie, t: BinaryTrie, a: int)
    requires
        o.wf(),
        t.wf(),
        collapsed_from(o, t),
        t.valid(a),
        t.reach(t.root as int, a),
    ensures
        t.path_value(a) == o.path_value(a),
        t.plen(a) == o.plen(a),
    decreases t.node(a).depth,
{
    assert(o.arena@[a] == o.node(a));
    assert(t.arena@[a] == t.node(a));
    if a != t.root {
        t.lemma_reach_parent(t.root as int, a);
        let p = t.node(a).parent as int;
        assert(t.arena@[p] == t.node(p));
        assert(o.arena@[p] == o.node(p));
        lemma_collapsed_path(o, t, p);
        assert(t.node(p).children == o.node(p).children);
    }
}

/// The greedy optimizer's collapses keep every key prefix that the trie
/// holds under a leaf reached from the root held.
pub proof fn lemma_collapsed_holds(o: BinaryTrie, t: BinaryTrie, key: u128, len: int)
    requires
        o.wf(),
        t.wf(),
        collapsed_from(o, t),
        o.holds_key(key, len),
    ensures
        t.holds_key(key, len),
{
    let l = choose|j: int| #[trigger] o.holds_key_at(j, key, len);
    assert(o.arena@[o.root as int] == o.node(o.root as int));
    let a = lemma_collapsed_reach(o, t, o.root as int, l);
    o.lemma_reach_path(a, l);
    assert(o.arena@[l] == o.node(l));
    assert(o.plen(l) <= o.addr_bits);
    lemma_key_top_shorter(key, o.plen(a), o.plen(l));
    lemma_collapsed_path(o, t, a);
    assert(t.holds_key_at(a, key, len));
}

/// Tries of the same shape have the same paths.
pub proof fn lemma_shape_path(a: BinaryTrie, b: BinaryTrie, i: int)
    requires
        same_shape(a.arena@, b.arena@),
        a.root == b.root,
        a.addr_bits == b.addr_bits,
        a.valid(i),
    ensures
        b.path_value(i) == a.path_value(i),
        b.plen(i) == a.plen(i),
    decreases a.node(i).depth,
{
    assert(b.arena@[i].depth == a.arena@[i].depth);
    let p = a.node(i).parent as int;
    if i != a.root && a.valid(p) && a.node(p).depth < a.node(i).depth {
        assert(b.arena@[p].depth == a.arena@[p].depth);
        assert(b.arena@[p].children == a.arena@[p].children);
        lemma_shape_path(a, b, p);
    }
}

/// Tries of the same shape hold the same key prefixes.
pub proof fn lemma_shape_holds(a: BinaryTrie, b: BinaryTrie, key: u128, len: int)
    requires
        same_shape(a.arena@, b.arena@),
        a.root == b.root,
        a.addr_bits == b.addr_bits,
        a.holds_key(key, len),
    ensures
        b.holds_key(key, len),
{
    let l = choose|j: int| #[trigger] a.holds_key_at(j, key, len);
    BinaryTrie::lemma_shape_reach(a, b, a.root as int, l);
    lemma_shape_path(a, b, l);
    assert(b.arena@[l].is_leaf == a.arena@[l].is_leaf);
    assert(b.holds_key_at(l, key, len));
}

/// The insertion key of a prefix of a `w`-bit family: its network address
/// in the top bits of a u128.
pub open spec fn key_of(p: Prefix, w: u8) -> u128 {
    (p.net(w) * pow2((128 - w) as nat)) as u128
}

impl BinaryTrie {
    /// A leaf reached from node `i` is among the leaves listed below `i`.
    pub proof fn lemma_reach_leaf_listed(self, i: int, j: int)
        requires
            self.wf(),
            self.valid(i),
            self.reach(i, j),
            self.node(j).is_leaf,
        ensures
            self.leaves_of(i).contains(j as NodeIdx),
        decreases 256 - self.node(i).depth,
    {
        assert(self.arena@[i] == self.node(i));
        if i == j {
            assert(self.leaves_of(i)[0] == j as NodeIdx);
        } else {
            let n = self.node(i);
            let c0 = n.children[0];
            let c1 = n.children[1];
            let l = if c0 != INVALID && self.valid(c0 as int) && self.node(c0 as int).depth > n.depth {
                self.leaves_of(c0 as int)
            } else {
                Seq::empty()
            };
            let r = if c1 != INVALID && self.valid(c1 as int) && self.node(c1 as int).depth > n.depth {
                self.leaves_of(c1 as int)
            } else {
                Seq::empty()
            };
            assert(self.leaves_of(i) == l + r);
            if c0 != INVALID && self.valid(c0 as int) && self.node(c0 as int).depth > n.depth && self.reach(c0 as int, j) {
                self.lemma_reach_leaf_listed(c0 as int, j);
                let k = choose|k: int| 0 <= k < l.len() && l[k] == j as NodeIdx;
                assert((l + r)[k] == j as NodeIdx);
            } else {
                self.lemma_reach_leaf_listed(c1 as int, j);
                let k = choose|k: int| 0 <= k < r.len() && r[k] == j as NodeIdx;
                assert((l + r)[l.len() + k] == j as NodeIdx);
            }
        }
    }
}

/// An aligned block of `2^h` addresses around the network address of a
/// prefix of `2^hp` addresses (`hp <= h`) holds the prefix.
pub proof fn lemma_aligned_within(b: int, hp: nat, h: nat)
    requires
        0 <= b,
        hp <= h,
    ensures
        ({
            let net = b * pow2(hp) as int;
            let q = net / pow2(h) as int;
            &&& q * pow2(h) as int <= net
            &&& net + pow2(hp) as int <= q * pow2(h) as int + pow2(h) as int
        }),
{
    let net = b * pow2(hp) as int;
    let d = pow2(hp) as int;
    let e = pow2((h - hp) as nat) as int;
    lemma_pow2_pos(hp);
    lemma_pow2_pos((h - hp) as nat);
    lemma_pow2_adds(hp, (h - hp) as nat);
    assert(pow2(h) as int == d * e);
    vstd::arithmetic::mul::lemma_mul_nonnegative(b, d);
    lemma_net_bounds(net, h);
    let q = net / pow2(h) as int;
    // net and (q + 1) * 2^h are both multiples of d, and the first is smaller.
    assert(q * (d * e) + d * e == d * (q * e + e)) by (nonlinear_arith);
    assert(net < d * (q * e + e));
    assert(b < q * e + e) by (nonlinear_arith)
        requires net == b * d, net < d * (q * e + e), d > 0;
    assert(net + d <= d * (q * e + e)) by (nonlinear_arith)
        requires net == b * d, b + 1 <= q * e + e, d > 0;
}

/// The top bits of the key of a prefix are its network address's top bits.
pub proof fn lemma_key_of_top(p: Prefix, w: u8, n: int)
    requires
        p.wf(w),
        0 <= n <= w,
    ensures
        key_top(key_of(p, w), n) == p.net(w) / pow2((w - n) as nat) as int,
        key_of(p, w) as int == p.net(w) * pow2((128 - w) as nat),
{
    p.lemma_has_bits(w);
    crate::prefix::lemma_pow2_128();
    lemma_pow2_pos((128 - w) as nat);
    lemma_pow2_adds(w as nat, (128 - w) as nat);
    assert(p.net(w) * pow2((128 - w) as nat) < pow2(128)) by (nonlinear_arith)
        requires p.net(w) < pow2(w as nat), pow2(w as nat) * pow2((128 - w) as nat) == pow2(128), pow2((128 - w) as nat) > 0, 0 <= p.net(w);
    vstd::arithmetic::mul::lemma_mul_nonnegative(p.net(w), pow2((128 - w) as nat) as int);
    let k = p.net(w) * pow2((128 - w) as nat);
    lemma_div_pow2_twice(k, (128 - w) as nat, (w - n) as nat);
    assert((128 - n) as nat == (128 - w) as nat + (w - n) as nat);
    vstd::arithmetic::div_mod::lemma_div_by_multiple(p.net(w), pow2((128 - w) as nat) as int);
}

/// A leaf reached from the root whose path spells the top bits of the key of
/// prefix `p` holds `p`: the prefix it stands for contains `p`'s range.
pub proof fn lemma_leaf_holds_prefix(t: BinaryTrie, a: int, p: Prefix, q: Prefix)
    requires
        t.wf(),
        p.wf(t.addr_bits),
        t.holds_key_at(a, key_of(p, t.addr_bits), p.len as int),
        q.bits as int == t.path_value(a) * pow2((t.addr_bits - t.plen(a)) as nat),
        q.len as int == t.plen(a),
    ensures
        within(q, p, t.addr_bits),
{
    let w = t.addr_bits;
    assert(t.arena@[a] == t.node(a));
    let h = (w - t.plen(a)) as nat;
    let hp = (w - p.len) as nat;
    lemma_key_of_top(p, w, t.plen(a));
    lemma_pow2_pos(h);
    lemma_pow2_pos(hp);
    t.lemma_path_value_bound(a);
    vstd::arithmetic::div_mod::lemma_div_by_multiple(t.path_value(a), pow2(h) as int);
    assert(q.block(w) == t.path_value(a));
    p.lemma_has_bits(w);
    vstd::arithmetic::div_mod::lemma_div_pos_is_pos(p.bits as int, pow2(hp) as int);
    lemma_aligned_within(p.block(w), hp, h);
}

/// Masking the low `r` bits of a u128 is taking it modulo `2^r`.
pub proof fn lemma_mask_mod(x: u128, r: nat)
    requires
        r < 128,
    ensures
        (x & (((1u128 << (r as u128)) - 1) as u128)) as int == x as int % pow2(r) as int,
    decreases r,
{
    let ru = r as u128;
    if r == 0 {
        assert(x & (((1u128 << 0u128) - 1) as u128) == 0) by (bit_vector);
        assert(pow2(0) == 1) by {
            vstd::arithmetic::power2::lemma2_to64();
        }
    } else {
        let rm = (r - 1) as u128;
        assert((x & (((1u128 << ru) - 1) as u128)) == ((x >> 1u128) & (((1u128 << rm) - 1) as u128)) * 2 + (x & 1))
            by (bit_vector)
            requires
                1 <= ru < 128,
                rm == ru - 1,
        ;
        lemma_mask_mod(x >> 1u128, (r - 1) as nat);
        vstd::bits::lemma_u128_shr_is_div(x, 1u128);
        assert(x & 1 == x % 2) by (bit_vector);
        vstd::arithmetic::power2::lemma2_to64();
        lemma_pow2_unfold(r);
        lemma_pow2_pos((r - 1) as nat);
        vstd::arithmetic::div_mod::lemma_mod_breakdown(x as int, 2, pow2((r - 1) as nat) as int);
    }
}

/// Tries with the same links have the same paths.
pub proof fn lemma_links_path(a: BinaryTrie, b: BinaryTrie, i: int)
    requires
        same_links(a.arena@, b.arena@),
        a.root == b.root,
        a.addr_bits == b.addr_bits,
        a.valid(i),
    ensures
        b.path_value(i) == a.path_value(i),
        b.plen(i) == a.plen(i),
    decreases a.node(i).depth,
{
    assert(b.arena@[i].depth == a.arena@[i].depth);
    let p = a.node(i).parent as int;
    if i != a.root && a.valid(p) && a.node(p).depth < a.node(i).depth {
        assert(b.arena@[p].depth == a.arena@[p].depth);
        assert(b.arena@[p].children == a.arena@[p].children);
        lemma_links_path(a, b, p);
    }
}

/// Turning node `c` into a leaf, links kept: what was reached from `x` is
/// still reached, or `c` is reached and was above it.
pub proof fn lemma_mark_reach(a: BinaryTrie, b: BinaryTrie, c: int, x: int, l: int)
    requires
        a.wf(),
        same_links(a.arena@, b.arena@),
        a.root == b.root,
        forall|j: int| 0 <= j < a.arena@.len() && j != c ==> (#[trigger] b.arena@[j]).is_leaf == a.arena@[j].is_leaf,
        a.valid(x),
        a.reach(x, l),
    ensures
        b.reach(x, l) || (b.reach(x, c) && a.reach(c, l)),
    decreases 256 - a.node(x).depth,
{
    assert(a.arena@[x] == a.node(x));
    if x != l && x != c {
        let c0 = a.node(x).children[0];
        let c1 = a.node(x).children[1];
        let y: int = if c0 != INVALID && a.valid(c0 as int) && a.node(c0 as int).depth > a.node(x).depth
            && a.reach(c0 as int, l) { c0 as int } else { c1 as int };
        assert(a.reach(y, l));
        assert(a.arena@[y] == a.node(y));
        assert(b.arena@[x].children == a.arena@[x].children);
        assert(b.arena@[y].depth == a.arena@[y].depth);
        assert(b.arena@[x].depth == a.arena@[x].depth);
        lemma_mark_reach(a, b, c, y, l);
    } else if x == c {
        assert(b.reach(x, x));
    }
}

/// Turning node `c` into a leaf, links kept, keeps every held key prefix held.
pub proof fn lemma_mark_holds(a: BinaryTrie, b: BinaryTrie, c: int, key: u128, len: int)
    requires
        a.wf(),
        same_links(a.arena@, b.arena@),
        a.root == b.root,
        a.addr_bits == b.addr_bits,
        a.valid(c),
        b.arena@[c].is_leaf,
        forall|j: int| 0 <= j < a.arena@.len() && j != c ==> (#[trigger] b.arena@[j]).is_leaf == a.arena@[j].is_leaf,
        a.holds_key(key, len),
    ensures
        b.holds_key(key, len),
{
    let l = choose|j: int| #[trigger] a.holds_key_at(j, key, len);
    assert(a.arena@[a.root as int] == a.node(a.root as int));
    lemma_mark_reach(a, b, c, a.root as int, l);
    assert(a.arena@[l] == a.node(l));
    if b.reach(b.root as int, l) {
        lemma_links_path(a, b, l);
        assert(b.arena@[l].is_leaf);
        assert(b.holds_key_at(l, key, len));
    } else {
        a.lemma_reach_path(c, l);
        lemma_key_top_shorter(key, a.plen(c), a.plen(l));
        lemma_links_path(a, b, c);
        assert(b.holds_key_at(c, key, len));
    }
}

/// `z` is `a` with a new node `n` hung in the empty child slot `b` of `cur`.
pub open spec fn hung(a: BinaryTrie, z: BinaryTrie, cur: int, b: int, n: TrieNode) -> bool {
    &&& a.valid(cur)
    &&& 0 <= b < 2
    &&& a.node(cur).children[b] == INVALID
    &&& z.root == a.root
    &&& z.addr_bits == a.addr_bits
    &&& n.parent == cur
    &&& n.depth == a.node(cur).depth + a.node(cur).skip_len + 1
    &&& z.arena@.len() == a.arena@.len() + 1
    &&& z.arena@[a.arena@.len() as int] == n
    &&& z.arena@[cur].children[b] == a.arena@.len() as NodeIdx
    &&& z.arena@[cur].children[1 - b] == a.arena@[cur].children[1 - b]
    &&& z.arena@[cur] == (TrieNode { children: z.arena@[cur].children, ..a.arena@[cur] })
    &&& forall|j: int| 0 <= j < a.arena@.len() && j != cur ==> #[trigger] z.arena@[j] == a.arena@[j]
}

/// Hanging a node keeps what was reached.
pub proof fn lemma_hang_reach(a: BinaryTrie, z: BinaryTrie, cur: int, b: int, n: TrieNode, x: int, l: int)
    requires
        a.wf(),
        hung(a, z, cur, b, n),
        a.valid(x),
        a.reach(x, l),
    ensures
        z.reach(x, l),
    decreases 256 - a.node(x).depth,
{
    assert(a.arena@[x] == a.node(x));
    if x != l {
        let c0 = a.node(x).children[0];
        let c1 = a.node(x).children[1];
        let bb: int = if c0 != INVALID && a.valid(c0 as int) && a.node(c0 as int).depth > a.node(x).depth
            && a.reach(c0 as int, l) { 0 } else { 1 };
        let y = a.node(x).children[bb] as int;
        assert(a.reach(y, l));
        assert(a.arena@[y] == a.node(y));
        assert(y != cur ==> z.arena@[y] == a.arena@[y]);
        assert(z.arena@[y].depth == a.arena@[y].depth);
        assert(z.arena@[x].depth == a.arena@[x].depth);
        assert(z.arena@[x].is_leaf == a.arena@[x].is_leaf);
        assert(z.arena@[x].children[bb] == y as NodeIdx);
        lemma_hang_reach(a, z, cur, b, n, y, l);
    }
}

/// Hanging a node keeps the paths of the old nodes.
pub proof fn lemma_hang_path(a: BinaryTrie, z: BinaryTrie, cur: int, b: int, n: TrieNode, j: int)
    requires
        a.wf(),
        hung(a, z, cur, b, n),
        a.valid(j),
    ensures
        z.path_value(j) == a.path_value(j),
        z.plen(j) == a.plen(j),
    decreases a.node(j).depth,
{
    assert(a.arena@[j] == a.node(j));
    assert(z.arena@[j].depth == a.arena@[j].depth);
    assert(z.arena@[j].parent == a.arena@[j].parent);
    assert(z.arena@[j].skip_len == a.arena@[j].skip_len);
    assert(z.arena@[j].skip_bits == a.arena@[j].skip_bits);
    if j != a.root {
        let p = a.node(j).parent as int;
        assert(a.arena@[p] == a.node(p));
        assert(z.arena@[p].depth == a.arena@[p].depth);
        lemma_hang_path(a, z, cur, b, n, p);
        if p == cur {
            assert(j < a.arena@.len());
            assert((z.node(p).children[1] == j as NodeIdx) == (a.node(p).children[1] == j as NodeIdx));
        } else {
            assert(z.arena@[p] == a.arena@[p]);
        }
    }
}

/// Hanging a node keeps every held key prefix held.
pub proof fn lemma_hang_holds(a: BinaryTrie, z: BinaryTrie, cur: int, b: int, n: TrieNode, key: u128, len: int)
    requires
        a.wf(),
        hung(a, z, cur, b, n),
        a.holds_key(key, len),
    ensures
        z.holds_key(key, len),
{
    let l = choose|j: int| #[trigger] a.holds_key_at(j, key, len);
    assert(a.arena@[a.root as int] == a.node(a.root as int));
    lemma_hang_reach(a, z, cur, b, n, a.root as int, l);
    lemma_hang_path(a, z, cur, b, n, l);
    assert(z.arena@[l].is_leaf == a.arena@[l].is_leaf);
    assert(z.holds_key_at(l, key, len));
}

/// The path of the hung node, and that it is reached from the root when its
/// parent is an inner node reached from the root.
pub proof fn lemma_hang_new(a: BinaryTrie, z: BinaryTrie, cur: int, b: int, n: TrieNode)
    requires
        a.wf(),
        z.wf(),
        hung(a, z, cur, b, n),
        a.arena@.len() < u32::MAX,
    ensures
        z.path_value(a.arena@.len() as int) == (a.path_value(cur) * 2 + b) * pow2(n.skip_len as nat) + n.skip_bits,
        z.plen(a.arena@.len() as int) == n.depth + n.skip_len,
        a.reach(a.root as int, cur) && !a.node(cur).is_leaf ==> z.reach(z.root as int, a.arena@.len() as int),
{
    let ni = a.arena@.len() as int;
    assert(z.arena@[ni] == n);
    assert(a.arena@[cur] == a.node(cur));
    lemma_hang_path(a, z, cur, b, n, cur);
    assert(z.arena@[cur].depth == a.arena@[cur].depth);
    assert(z.arena@[cur].skip_len == a.arena@[cur].skip_len);
    if b == 0 {
        let o = a.node(cur).children[1];
        if o != INVALID {
            assert(a.arena@[cur] == a.node(cur));
        }
        assert(z.node(cur).children[1] != ni as NodeIdx);
    }
    if a.reach(a.root as int, cur) && !a.node(cur).is_leaf {
        assert(a.arena@[a.root as int] == a.node(a.root as int));
        lemma_hang_reach(a, z, cur, b, n, a.root as int, cur);
        assert(z.arena@[cur].is_leaf == a.arena@[cur].is_leaf);
        z.lemma_reach_child(z.root as int, cur, b);
    }
}

/// The arithmetic of splitting an `s`-bit compressed path `sb` after `m`
/// bits, below a path `a`: the node keeps the top `m` bits, the branch bit
/// follows, and the remainder keeps the low `s - m - 1` bits.
pub proof fn lemma_split_arith(a: int, sb: int, s: nat, m: nat)
    requires
        a >= 0,
        0 <= sb < pow2(s),
        m < s,
    ensures
        ({
            let p = a * pow2(s) as int + sb;
            let r = (s - m - 1) as nat;
            let q = p / pow2((s - m) as nat) as int;
            &&& q == a * pow2(m) as int + sb / pow2((s - m) as nat) as int
            &&& (q * 2 + (sb / pow2(r) as int) % 2) * pow2(r) as int + sb % pow2(r) as int == p
        }),
{
    let r = (s - m - 1) as nat;
    let d = pow2((s - m) as nat) as int;
    let e = pow2(r) as int;
    let pm = pow2(m) as int;
    lemma_pow2_pos((s - m) as nat);
    lemma_pow2_pos(r);
    lemma_pow2_pos(m);
    lemma_pow2_adds(m, (s - m) as nat);
    assert(m + (s - m) as nat == s);
    assert(a * pow2(s) as int == (a * pm) * d) by (nonlinear_arith)
        requires pow2(s) as int == pm * d;
    vstd::arithmetic::div_mod::lemma_hoist_over_denominator(sb, a * pm, d as nat);
    let q = (a * pow2(s) as int + sb) / d;
    assert(q == a * pm + sb / d);
    let t = sb / e;
    lemma_div_pow2_twice(sb, r, 1);
    assert((s - m) as nat == r + 1);
    vstd::arithmetic::power2::lemma2_to64();
    assert(sb / d == t / 2);
    vstd::arithmetic::div_mod::lemma_fundamental_div_mod(t, 2);
    vstd::arithmetic::div_mod::lemma_fundamental_div_mod(sb, e);
    lemma_pow2_adds(m + 1, r);
    lemma_pow2_unfold(m + 1);
    assert((m + 1) + r == s);
    assert(pow2(s) as int == pm * 2 * e);
    assert((q * 2 + t % 2) * e + sb % e == a * pow2(s) as int + sb) by (nonlinear_arith)
        requires
            q == a * pm + t / 2,
            t == 2 * (t / 2) + t % 2,
            sb == e * t + sb % e,
            pow2(s) as int == pm * 2 * e,
    ;
}

/// A path bit is 0 or 1.
pub proof fn lemma_path_bit_lt2(sb: u128, s: int, m: int)
    ensures
        path_bit(sb, s, m) < 2,
{
    let k = (s - 1 - m) as u128;
    assert(((sb >> k) & 1) < 2) by (bit_vector);
}

/// `z` is `a` with the compressed path of node `x` split after `m` bits: `x`
/// keeps the first `m` bits and has as its only child (in the slot of the
/// branch bit) the new node `rem`, which takes the rest of the path (less the
/// branch bit), the children and the leaf flag of `x`.
pub open spec fn split_at(a: BinaryTrie, z: BinaryTrie, x: int, m: int) -> bool {
    let o = a.node(x);
    let s = o.skip_len as int;
    let rem = a.arena@.len() as int;
    let bb = path_bit(o.skip_bits, s, m) as int;
    let r = s - m - 1;
    &&& a.valid(x)
    &&& 0 <= m < s
    &&& z.root == a.root
    &&& z.addr_bits == a.addr_bits
    &&& z.arena@.len() == rem + 1
    &&& z.node(x).depth == o.depth
    &&& z.node(x).parent == o.parent
    &&& z.node(x).skip_len == m
    &&& z.node(x).skip_bits as int == o.skip_bits as int / pow2((s - m) as nat) as int
    &&& z.node(x).children[bb] == rem as NodeIdx
    &&& z.node(x).children[1 - bb] == INVALID
    &&& !z.node(x).is_leaf
    &&& z.node(rem).depth == o.depth + m + 1
    &&& z.node(rem).skip_len == r
    &&& z.node(rem).skip_bits as int == o.skip_bits as int % pow2(r as nat) as int
    &&& z.node(rem).parent == x
    &&& z.node(rem).children == o.children
    &&& z.node(rem).is_leaf == o.is_leaf
    &&& forall|j: int| 0 <= j < rem && j != x ==> {
        &&& (#[trigger] z.arena@[j]).children == a.arena@[j].children
        &&& z.arena@[j].depth == a.arena@[j].depth
        &&& z.arena@[j].skip_len == a.arena@[j].skip_len
        &&& z.arena@[j].skip_bits == a.arena@[j].skip_bits
        &&& z.arena@[j].is_leaf == a.arena@[j].is_leaf
        &&& z.arena@[j].parent == if o.children[0] == j as NodeIdx || o.children[1] == j as NodeIdx {
            rem as NodeIdx
        } else {
            a.arena@[j].parent
        }
    }
}

/// After a split, the remainder's path is the old path of `x`, given that
/// `x` keeps the top bits of its old path.
proof fn lemma_split_rem(a: BinaryTrie, z: BinaryTrie, x: int, m: int)
    requires
        a.wf(),
        a.arena@.len() < u32::MAX,
        split_at(a, z, x, m),
        z.path_value(x) == a.path_value(x) / pow2((a.node(x).skip_len - m) as nat) as int,
        z.plen(x) == a.plen(x) - (a.node(x).skip_len - m),
    ensures
        z.path_value(a.arena@.len() as int) == a.path_value(x),
        z.plen(a.arena@.len() as int) == a.plen(x),
{
    let o = a.node(x);
    let rem = a.arena@.len() as int;
    assert(a.arena@[x] == a.node(x));
    assert(a.arena@[a.root as int] == a.node(a.root as int));
    assert(x != a.root);
    let bb = path_bit(o.skip_bits, o.skip_len as int, m) as int;
    let r = (o.skip_len - m - 1) as nat;
    let px = o.parent as int;
    assert(a.arena@[px] == a.node(px));
    let b: int = if a.node(px).children[1] == x as NodeIdx { 1 } else { 0 };
    let aa = a.path_value(px) * 2 + b;
    a.lemma_path_value_bound(px);
    assert(a.path_value(x) == aa * pow2(o.skip_len as nat) + o.skip_bits);
    lemma_split_arith(aa, o.skip_bits as int, o.skip_len as nat, m as nat);
    let sb = o.skip_bits;
    let ru: u128 = r as u128;
    vstd::bits::lemma_u128_shr_is_div(sb, ru);
    assert(bb == ((sb >> ru) & 1) as int);
    assert(((sb >> ru) & 1) == (sb >> ru) % 2) by (bit_vector);
    assert(z.node(x).children[1] == rem as NodeIdx <==> bb == 1);
    assert(z.node(rem).parent == x);
}

/// Splitting keeps the paths: `x` keeps the top bits of its old path, and
/// every other node keeps its own.
pub proof fn lemma_split_path(a: BinaryTrie, z: BinaryTrie, x: int, m: int, j: int)
    requires
        a.wf(),
        a.no_orphans(),
        a.arena@.len() < u32::MAX,
        split_at(a, z, x, m),
        a.valid(j),
    ensures
        j == x ==> z.path_value(j) == a.path_value(x) / pow2((a.node(x).skip_len - m) as nat) as int,
        j == x ==> z.plen(j) == a.plen(x) - (a.node(x).skip_len - m),
        j != x ==> z.path_value(j) == a.path_value(j),
        j != x ==> z.plen(j) == a.plen(j),
    decreases a.node(j).depth,
{
    let o = a.node(x);
    let rem = a.arena@.len() as int;
    assert(a.arena@[j] == a.node(j));
    assert(a.arena@[x] == a.node(x));
    assert(a.arena@[a.root as int] == a.node(a.root as int));
    assert(x != a.root);
    if j == x {
        let px = o.parent as int;
        assert(a.arena@[px] == a.node(px));
        lemma_split_path(a, z, x, m, px);
        assert(z.arena@[px] == z.node(px));
        assert(z.node(px).children == a.node(px).children);
        let b: int = if a.node(px).children[1] == x as NodeIdx { 1 } else { 0 };
        let aa = a.path_value(px) * 2 + b;
        a.lemma_path_value_bound(px);
        lemma_split_arith(aa, o.skip_bits as int, o.skip_len as nat, m as nat);
    } else if j == a.root {
        assert(z.arena@[j].skip_bits == a.arena@[j].skip_bits);
    } else {
        let p = a.node(j).parent as int;
        assert(a.arena@[p] == a.node(p));
        assert(a.node(p).children[0] == j as NodeIdx || a.node(p).children[1] == j as NodeIdx);
        if p == x {
            lemma_split_path(a, z, x, m, x);
            lemma_split_rem(a, z, x, m);
            assert(z.arena@[j].parent == rem as NodeIdx);
            assert(z.node(rem).children == o.children);
        } else {
            lemma_split_path(a, z, x, m, p);
            assert(z.arena@[p].children == a.arena@[p].children);
            assert(z.arena@[p].depth == a.arena@[p].depth);
        }
    }
}

/// Splitting keeps what was reached.
pub proof fn lemma_split_reach(a: BinaryTrie, z: BinaryTrie, x: int, m: int, y: int, l: int)
    requires
        a.wf(),
        a.arena@.len() < u32::MAX,
        split_at(a, z, x, m),
        a.valid(y),
        a.reach(y, l),
    ensures
        z.reach(y, l),
    decreases 256 - a.node(y).depth,
{
    let o = a.node(x);
    let rem = a.arena@.len() as int;
    assert(a.arena@[y] == a.node(y));
    assert(a.arena@[x] == a.node(x));
    if y != l {
        let c0 = a.node(y).children[0];
        let c1 = a.node(y).children[1];
        let bq: int = if c0 != INVALID && a.valid(c0 as int) && a.node(c0 as int).depth > a.node(y).depth
            && a.reach(c0 as int, l) { 0 } else { 1 };
        let c = a.node(y).children[bq] as int;
        assert(a.reach(c, l));
        assert(a.arena@[c] == a.node(c));
        lemma_split_reach(a, z, x, m, c, l);
        assert(z.node(c).depth == a.node(c).depth) by {
            if c != x {
                assert(z.arena@[c].depth == a.arena@[c].depth);
            }
        }
        assert(c < rem);
        if y != x {
            assert(z.arena@[y].children == a.arena@[y].children);
            assert(z.arena@[y].depth == a.arena@[y].depth);
            assert(z.arena@[y].is_leaf == a.arena@[y].is_leaf);
            assert(z.node(y).children[bq] == c as NodeIdx);
            assert(z.valid(c));
            assert(z.node(c).depth > z.node(y).depth);
            assert(z.reach(y, l));
        } else {
            let bb = path_bit(o.skip_bits, o.skip_len as int, m) as int;
            lemma_path_bit_lt2(o.skip_bits, o.skip_len as int, m);
            assert(z.node(rem).children[bq] == c as NodeIdx);
            assert(!z.node(rem).is_leaf);
            assert(z.valid(c));
            assert(z.node(c).depth > z.node(rem).depth);
            assert(z.reach(rem, l));
            assert(z.node(x).children[bb] == rem as NodeIdx);
            assert(z.valid(rem));
            assert(z.node(rem).depth > z.node(x).depth);
            assert(z.reach(x, l));
        }
    }
}

/// Splitting keeps every held key prefix held.
#[verifier::rlimit(30)]
pub proof fn lemma_split_holds(a: BinaryTrie, z: BinaryTrie, x: int, m: int, key: u128, len: int)
    requires
        a.wf(),
        a.no_orphans(),
        a.arena@.len() < u32::MAX,
        split_at(a, z, x, m),
        a.holds_key(key, len),
    ensures
        z.holds_key(key, len),
{
    let l = choose|j: int| #[trigger] a.holds_key_at(j, key, len);
    let rem = a.arena@.len() as int;
    assert(a.arena@[a.root as int] == a.node(a.root as int));
    lemma_split_reach(a, z, x, m, a.root as int, l);
    if l == x {
        lemma_split_path(a, z, x, m, x);
        lemma_split_rem(a, z, x, m);
        let o = a.node(x);
        let bb = path_bit(o.skip_bits, o.skip_len as int, m) as int;
        lemma_path_bit_lt2(o.skip_bits, o.skip_len as int, m);
        assert(z.reach(x, rem)) by {
            assert(z.node(x).children[bb] == rem as NodeIdx);
            assert(z.reach(rem, rem));
        }
        lemma_reach_trans(z, z.root as int, x, rem);
        assert(z.holds_key_at(rem, key, len));
    } else {
        lemma_split_path(a, z, x, m, l);
        assert(a.arena@[l] == a.node(l));
        assert(z.arena@[l].is_leaf == a.arena@[l].is_leaf);
        assert(z.holds_key_at(l, key, len));
    }
}

/// What is reached from a node reached from `x` is reached from `x`.
pub proof fn lemma_reach_trans(t: BinaryTrie, x: int, y: int, l: int)
    requires
        t.reach(x, y),
        t.reach(y, l),
    ensures
        t.reach(x, l),
    decreases 256 - t.node(x).depth,
{
    if x != y {
        let c0 = t.node(x).children[0];
        let c1 = t.node(x).children[1];
        if c0 != INVALID && t.valid(c0 as int) && t.node(c0 as int).depth > t.node(x).depth && t.reach(c0 as int, y) {
            lemma_reach_trans(t, c0 as int, y, l);
        } else {
            lemma_reach_trans(t, c1 as int, y, l);
        }
    }
}

impl BinaryTrie {
    /// The path bits above node `i`'s compressed path: its parent's path and
    /// the branch bit to `i` (nothing at the root).
    pub open spec fn path_above(self, i: int) -> int {
        let n = self.node(i);
        if i != self.root && self.valid(n.parent as int) && self.node(n.parent as int).depth < n.depth {
            let p = n.parent as int;
            self.path_value(p) * 2 + (if self.node(p).children[1] == i as NodeIdx { 1int } else { 0int })
        } else {
            0
        }
    }

    /// A node's path is the path above it followed by its compressed path.
    pub proof fn lemma_path_above(self, i: int)
        requires
            self.wf(),
            self.valid(i),
        ensures
            self.path_value(i) == self.path_above(i) * pow2(self.node(i).skip_len as nat) as int + self.node(i).skip_bits,
            self.path_above(i) >= 0,
            self.plen(i) == self.node(i).depth + self.node(i).skip_len,
    {
        assert(self.arena@[i] == self.node(i));
        if i == self.root {
            assert(self.arena@[self.root as int] == self.node(self.root as int));
            assert(pow2(0) == 1) by {
                vstd::arithmetic::power2::lemma2_to64();
            }
        } else {
            let p = self.node(i).parent as int;
            assert(self.arena@[p] == self.node(p));
            self.lemma_path_value_bound(p);
        }
    }
}

/// The walk of an insertion of the first `len` bits of `key` stands at node
/// `cur` of `t` having matched `bp` bits: the path of `cur` spells them,
/// `cur` is reached from the root unless the key's prefix is already held,
/// and `t` holds every key prefix that `a` held.
pub open spec fn walk_ok(a: BinaryTrie, t: BinaryTrie, cur: int, key: u128, bp: int, len: int) -> bool {
    &&& t.valid(cur)
    &&& t.plen(cur) == bp
    &&& t.path_value(cur) == key_top(key, bp)
    &&& (t.reach(t.root as int, cur) || t.holds_key(key, len))
    &&& forall|k2: u128, l2: int| #[trigger] a.holds_key(k2, l2) ==> t.holds_key(k2, l2)
}

/// Matching the whole compressed path of `cur`.
pub proof fn lemma_walk_match(a: BinaryTrie, cur: int, key: u128, bp: int, len: int)
    requires
        a.wf(),
        a.valid(cur),
        a.node(cur).depth == bp,
        bp + a.node(cur).skip_len <= 128,
        a.path_above(cur) == key_top(key, bp),
        a.reach(a.root as int, cur) || a.holds_key(key, len),
        forall|o: int| 0 <= o < a.node(cur).skip_len ==> #[trigger] key_bit(key, bp + o)
            == path_bit(a.node(cur).skip_bits, a.node(cur).skip_len as int, o),
    ensures
        walk_ok(a, a, cur, key, bp + a.node(cur).skip_len, len),
{
    assert(a.arena@[cur] == a.node(cur));
    let n = a.node(cur);
    a.lemma_path_above(cur);
    lemma_key_top_path(key, bp, n.skip_len as int, n.skip_bits, n.skip_len as int);
    assert(pow2(0) == 1) by {
        vstd::arithmetic::power2::lemma2_to64();
    }
    assert((n.skip_len - n.skip_len) as nat == 0);
    assert(n.skip_bits as int / 1 == n.skip_bits as int);
}

/// Splitting `cur` after the `m` bits that matched.
pub proof fn lemma_walk_split(a: BinaryTrie, z: BinaryTrie, cur: int, m: int, key: u128, bp: int, len: int)
    requires
        a.wf(),
        a.no_orphans(),
        a.arena@.len() < u32::MAX,
        z.wf(),
        split_at(a, z, cur, m),
        a.node(cur).depth == bp,
        bp + a.node(cur).skip_len <= 128,
        a.path_above(cur) == key_top(key, bp),
        a.reach(a.root as int, cur) || a.holds_key(key, len),
        forall|o: int| 0 <= o < m ==> #[trigger] key_bit(key, bp + o)
            == path_bit(a.node(cur).skip_bits, a.node(cur).skip_len as int, o),
    ensures
        walk_ok(a, z, cur, key, bp + m, len),
{
    assert(a.arena@[cur] == a.node(cur));
    let n = a.node(cur);
    a.lemma_path_above(cur);
    lemma_split_path(a, z, cur, m, cur);
    lemma_key_top_path(key, bp, n.skip_len as int, n.skip_bits, m);
    lemma_split_arith(a.path_above(cur), n.skip_bits as int, n.skip_len as nat, m as nat);
    assert(z.path_value(cur) == key_top(key, bp + m));
    if a.reach(a.root as int, cur) {
        lemma_split_reach(a, z, cur, m, a.root as int, cur);
    } else {
        lemma_split_holds(a, z, cur, m, key, len);
    }
    assert forall|k2: u128, l2: int| #[trigger] a.holds_key(k2, l2) implies z.holds_key(k2, l2) by {
        lemma_split_holds(a, z, cur, m, k2, l2);
    }
}

/// Stepping from `cur` down to its child along the next key bit.
pub proof fn lemma_walk_down(a: BinaryTrie, cur: int, kb: int, key: u128, len: int)
    requires
        a.wf(),
        walk_ok(a, a, cur, key, a.plen(cur), len),
        a.plen(cur) < len <= 128,
        kb == key_bit(key, a.plen(cur)) as int,
        0 <= kb < 2,
        a.node(cur).children[kb] != INVALID,
    ensures
        a.path_above(a.node(cur).children[kb] as int) == key_top(key, a.plen(cur) + 1),
        a.reach(a.root as int, a.node(cur).children[kb] as int) || a.holds_key(key, len),
        a.node(a.node(cur).children[kb] as int).depth == a.plen(cur) + 1,
{
    assert(a.arena@[cur] == a.node(cur));
    let c = a.node(cur).children[kb] as int;
    assert(a.arena@[c] == a.node(c));
    lemma_key_top_step(key, a.plen(cur));
    assert(a.node(c).parent == cur);
    if kb == 0 {
        assert(a.node(cur).children[1] != c as NodeIdx);
    }
    if a.reach(a.root as int, cur) {
        if a.node(cur).is_leaf {
            assert(a.holds_key_at(cur, key, len));
        } else {
            a.lemma_reach_child(a.root as int, cur, kb);
        }
    }
}

/// Ending the walk at `cur`, which becomes a leaf.
pub proof fn lemma_walk_mark(a: BinaryTrie, pre: BinaryTrie, post: BinaryTrie, cur: int, key: u128, len: int)
    requires
        pre.wf(),
        walk_ok(a, pre, cur, key, len, len),
        same_links(pre.arena@, post.arena@),
        pre.root == post.root,
        pre.addr_bits == post.addr_bits,
        post.arena@[cur].is_leaf,
        forall|j: int| 0 <= j < pre.arena@.len() && j != cur ==> (#[trigger] post.arena@[j]).is_leaf == pre.arena@[j].is_leaf,
    ensures
        post.holds_key(key, len),
        forall|k2: u128, l2: int| #[trigger] a.holds_key(k2, l2) ==> post.holds_key(k2, l2),
{
    assert forall|k2: u128, l2: int| #[trigger] a.holds_key(k2, l2) implies post.holds_key(k2, l2) by {
        assert(pre.holds_key(k2, l2));
        lemma_mark_holds(pre, post, cur, k2, l2);
    }
    if pre.reach(pre.root as int, cur) {
        lemma_mark_reach(pre, post, cur, pre.root as int, cur);
        lemma_links_path(pre, post, cur);
        assert(post.holds_key_at(cur, key, len));
    } else {
        lemma_mark_holds(pre, post, cur, key, len);
    }
}

/// Ending the walk by hanging a new leaf below `cur` that holds the rest of the key.
pub proof fn lemma_walk_hang(a: BinaryTrie, pre: BinaryTrie, post: BinaryTrie, cur: int, kb: int, n: TrieNode, key: u128, len: int)
    requires
        pre.wf(),
        post.wf(),
        walk_ok(a, pre, cur, key, pre.plen(cur), len),
        pre.plen(cur) < len <= 128,
        hung(pre, post, cur, kb, n),
        pre.arena@.len() < u32::MAX,
        kb == key_bit(key, pre.plen(cur)) as int,
        n.is_leaf,
        n.depth + n.skip_len == len,
        n.skip_len > 0 && n.skip_len < 128 ==> n.skip_bits
            == (key >> ((128 - n.depth - n.skip_len) as u128)) & (((1u128 << (n.skip_len as u128)) - 1) as u128),
        !(n.skip_len > 0 && n.skip_len < 128) ==> n.skip_bits == 0,
    ensures
        post.holds_key(key, len),
        forall|k2: u128, l2: int| #[trigger] a.holds_key(k2, l2) ==> post.holds_key(k2, l2),
{
    assert forall|k2: u128, l2: int| #[trigger] a.holds_key(k2, l2) implies post.holds_key(k2, l2) by {
        assert(pre.holds_key(k2, l2));
        lemma_hang_holds(pre, post, cur, kb, n, k2, l2);
    }
    assert(pre.arena@[cur] == pre.node(cur));
    let ni = pre.arena@.len() as int;
    lemma_hang_new(pre, post, cur, kb, n);
    let bp = pre.plen(cur);
    lemma_key_top_step(key, bp);
    assert(n.depth == bp + 1);
    let r = n.skip_len as int;
    assert(post.path_value(ni) == (key_top(key, bp) * 2 + kb) * pow2(r as nat) + n.skip_bits);
    assert(key_top(key, bp) * 2 + kb == key_top(key, bp + 1));
    if r > 0 {
        assert(r < 128);
        lemma_key_top_low(key, bp + 1, r);
        assert(n.skip_bits == (key >> ((128 - (bp + 1) - r) as u128)) & (((1u128 << (r as u128)) - 1) as u128));
        assert(bp + 1 + r == len);
        let kk = key_top(key, bp + 1);
        let pp = pow2(r as nat) as int;
        assert(post.path_value(ni) == kk * pp + n.skip_bits);
        assert(key_top(key, bp + 1 + r) == kk * pp + n.skip_bits);
        assert(key_top(key, bp + 1 + r) == key_top(key, len));
        assert(post.path_value(ni) == key_top(key, len));
    } else {
        assert(pow2(0) == 1) by {
            vstd::arithmetic::power2::lemma2_to64();
        }
        assert(n.skip_bits == 0);
        assert(bp + 1 == len);
        assert(pow2(r as nat) == 1);
        let kk = key_top(key, bp + 1);
        vstd::arithmetic::mul::lemma_mul_basics(kk);
        assert(post.path_value(ni) == kk * 1 + 0);
        assert(kk * 1 + 0 == kk);
        assert(key_top(key, bp + 1) == key_top(key, len));
        assert(post.path_value(ni) == key_top(key, len));
    }
    assert(post.path_value(ni) == key_top(key, len));
    if pre.reach(pre.root as int, cur) && !pre.node(cur).is_leaf {
        assert(post.arena@[ni] == n);
        assert(post.holds_key_at(ni, key, len));
    } else if pre.reach(pre.root as int, cur) {
        assert(pre.holds_key_at(cur, key, len));
        lemma_hang_holds(pre, post, cur, kb, n, key, len);
    } else {
        lemma_hang_holds(pre, post, cur, kb, n, key, len);
    }
}

/// The arena update that hangs a new node in an empty child slot.
pub proof fn lemma_hung_from_update(a: BinaryTrie, z: BinaryTrie, cur: int, b: int, n: TrieNode, ch: [NodeIdx; 2])
    requires
        a.valid(cur),
        0 <= b < 2,
        a.node(cur).children[b] == INVALID,
        z.root == a.root,
        z.addr_bits == a.addr_bits,
        n.parent == cur,
        n.depth == a.node(cur).depth + a.node(cur).skip_len + 1,
        ch[b] == a.arena@.len() as NodeIdx,
        ch[1 - b] == a.node(cur).children[1 - b],
        z.arena@ == a.arena@.update(cur, TrieNode { children: ch, ..a.node(cur) }).push(n),
    ensures
        hung(a, z, cur, b, n),
{
    assert(z.arena@[a.arena@.len() as int] == n);
}

/// The top bits of a key, cut shorter.
pub proof fn lemma_key_top_shorter(key: u128, m: int, n: int)
    requires
        0 <= m <= n <= 128,
    ensures
        key_top(key, n) / pow2((n - m) as nat) as int == key_top(key, m),
{
    lemma_div_pow2_twice(key as int, (128 - n) as nat, (n - m) as nat);
    assert((128 - m) as nat == (128 - n) as nat + (n - m) as nat);
}

} // verus!
