//! Lossless aggregation: merge overlapping and adjacent prefixes into an
//! equivalent set of disjoint prefixes, keeping track of which inputs each
//! output prefix came from.
use vstd::prelude::*;
use vstd::arithmetic::power2::{pow2, lemma_pow2_unfold, lemma_pow2_pos};
use crate::prefix::{Prefix, valid_width, capacity_spec, capacity_of, network, lemma_pow2_128, lemma_pow2_le, prefix_contains, are_siblings, parent_prefix, blk, trunc};
use crate::sort::{SortKey, key_le, sort_keys, numbered, lemma_sorted_numbered_is_order, listed, apply_order};

verus! {

/// A prefix with source-map tracking and coverage information.
pub struct SourceMapPrefix {
    pub prefix: Prefix,
    pub source_indices: Vec<usize>,
    /// Number of addresses actually covered by original inputs within this prefix.
    /// For lossless entries, equals the prefix capacity (zero over-coverage).
    pub coverage: u128,
    /// Number of preferred addresses overlapping the covered part of this prefix.
    /// Set by the trie during lossy optimization; 0 for lossless-only entries.
    pub preferred_overlap_in_coverage: u128,
}

/// Some entry of `s` holds address `x`.
pub open spec fn covered(s: Seq<SourceMapPrefix>, w: u8, x: int) -> bool {
    exists|i: int| 0 <= i < s.len() && (#[trigger] s[i]).prefix.has(w, x)
}

/// Every entry is a well-formed prefix of the family.
pub open spec fn all_wf(s: Seq<SourceMapPrefix>, w: u8) -> bool {
    forall|i: int| 0 <= i < s.len() ==> (#[trigger] s[i]).prefix.wf(w)
}

/// Every entry's prefix is in canonical form (no host bits set).
pub open spec fn all_canonical(s: Seq<SourceMapPrefix>, w: u8) -> bool {
    forall|i: int| 0 <= i < s.len() ==> (#[trigger] s[i]).prefix.canonical(w)
}

/// Every input prefix is in canonical form.
pub open spec fn inputs_canonical(input: Seq<(usize, Prefix)>, w: u8) -> bool {
    forall|i: int| 0 <= i < input.len() ==> (#[trigger] input[i]).1.canonical(w)
}

/// No two entries share an address.
pub open spec fn pairwise_disjoint(s: Seq<SourceMapPrefix>, w: u8) -> bool {
    forall|i: int, j: int|
        0 <= i < s.len() && 0 <= j < s.len() && i != j ==> (#[trigger] s[i]).prefix.disjoint(w, (#[trigger] s[j]).prefix)
}

/// Each entry reports its full capacity as coverage.
pub open spec fn full_coverage(s: Seq<SourceMapPrefix>, w: u8) -> bool {
    forall|i: int| 0 <= i < s.len() ==> (#[trigger] s[i]).coverage as int == capacity_spec(w, s[i].prefix.len)
}

/// Source index `v` occurs in some entry of `s`.
pub open spec fn indexed(s: Seq<SourceMapPrefix>, v: usize) -> bool {
    exists|i: int| 0 <= i < s.len() && (#[trigger] s[i]).source_indices@.contains(v)
}

proof fn lemma_indexed_push(s: Seq<SourceMapPrefix>, e: SourceMapPrefix, v: usize)
    ensures
        indexed(s.push(e), v) <==> (indexed(s, v) || e.source_indices@.contains(v)),
{
    if indexed(s, v) {
        let i = choose|i: int| 0 <= i < s.len() && (#[trigger] s[i]).source_indices@.contains(v);
        assert(s.push(e)[i] == s[i]);
    }
    if e.source_indices@.contains(v) {
        assert(s.push(e)[s.len() as int] == e);
    }
    if indexed(s.push(e), v) {
        let i = choose|i: int| 0 <= i < s.push(e).len() && (#[trigger] s.push(e)[i]).source_indices@.contains(v);
        if i < s.len() {
            assert(s.push(e)[i] == s[i]);
        }
    }
}

/// Every entry's prefix length is at most `b`.
pub open spec fn lens_at_most(s: Seq<SourceMapPrefix>, b: u8) -> bool {
    forall|i: int| 0 <= i < s.len() ==> (#[trigger] s[i]).prefix.len <= b
}

/// Entries are ordered by network address, and by prefix length among equal
/// network addresses.
pub open spec fn sorted_by_net(s: Seq<SourceMapPrefix>, w: u8) -> bool {
    forall|i: int, j: int| 0 <= i < j < s.len() ==>
        (#[trigger] s[i]).prefix.net(w) < (#[trigger] s[j]).prefix.net(w)
        || (s[i].prefix.net(w) == s[j].prefix.net(w) && s[i].prefix.len <= s[j].prefix.len)
}

/// Entries lie in increasing, non-overlapping address ranges.
pub open spec fn ascending_ranges(s: Seq<SourceMapPrefix>, w: u8) -> bool {
    forall|i: int, j: int| 0 <= i < j < s.len() ==>
        (#[trigger] s[i]).prefix.net(w) + s[i].prefix.size(w) <= (#[trigger] s[j]).prefix.net(w)
}

/// The optional entry as a sequence of zero or one entries.
pub open spec fn opt_seq(o: Option<SourceMapPrefix>) -> Seq<SourceMapPrefix> {
    match o {
        Some(e) => seq![e],
        None => Seq::empty(),
    }
}

proof fn lemma_ascending_disjoint(s: Seq<SourceMapPrefix>, w: u8)
    requires
        all_wf(s, w),
        ascending_ranges(s, w),
    ensures
        pairwise_disjoint(s, w),
{
    assert forall|i: int, j: int| 0 <= i < s.len() && 0 <= j < s.len() && i != j
        implies (#[trigger] s[i]).prefix.disjoint(w, (#[trigger] s[j]).prefix) by {
        s[i].prefix.lemma_disjoint_range(w, s[j].prefix);
    }
}

/// The address range of `outer` holds that of `inner`.
pub open spec fn within(outer: Prefix, inner: Prefix, w: u8) -> bool {
    outer.net(w) <= inner.net(w) && inner.net(w) + inner.size(w) <= outer.net(w) + outer.size(w)
}

/// Every entry of `a` lies within some entry of `b`.
pub open spec fn lies_within(a: Seq<SourceMapPrefix>, b: Seq<SourceMapPrefix>, w: u8) -> bool {
    forall|i: int| 0 <= i < a.len() ==> #[trigger] within_some(b, a[i].prefix, w)
}

/// Some entry of `b` holds the range of `p`.
pub open spec fn within_some(b: Seq<SourceMapPrefix>, p: Prefix, w: u8) -> bool {
    exists|j: int| 0 <= j < b.len() && within((#[trigger] b[j]).prefix, p, w)
}

/// Every input, cut to `max_len` bits, lies within some entry of `r`.
pub open spec fn inputs_within(input: Seq<(usize, Prefix)>, r: Seq<SourceMapPrefix>, max_len: u8, w: u8) -> bool {
    forall|i: int| 0 <= i < input.len() ==> #[trigger] within_some(r, clamp(input[i].1, max_len, w), w)
}

/// What lies within some entry of `b` lies within some entry of `c`, when
/// every entry of `b` does.
proof fn lemma_within_some_trans(b: Seq<SourceMapPrefix>, c: Seq<SourceMapPrefix>, p: Prefix, w: u8)
    requires
        within_some(b, p, w),
        lies_within(b, c, w),
    ensures
        within_some(c, p, w),
{
    let j = choose|j: int| 0 <= j < b.len() && within((#[trigger] b[j]).prefix, p, w);
    assert(within_some(c, b[j].prefix, w));
    let k = choose|k: int| 0 <= k < c.len() && within((#[trigger] c[k]).prefix, b[j].prefix, w);
    assert(within(c[k].prefix, p, w));
}

proof fn lemma_lies_within_trans(a: Seq<SourceMapPrefix>, b: Seq<SourceMapPrefix>, c: Seq<SourceMapPrefix>, w: u8)
    requires
        lies_within(a, b, w),
        lies_within(b, c, w),
    ensures
        lies_within(a, c, w),
{
    assert forall|i: int| 0 <= i < a.len() implies #[trigger] within_some(c, a[i].prefix, w) by {
        assert(within_some(b, a[i].prefix, w));
        lemma_within_some_trans(b, c, a[i].prefix, w);
    }
}

/// Every entry of `a` appears in `b`.
pub(crate) proof fn lemma_lies_within_contains(a: Seq<SourceMapPrefix>, b: Seq<SourceMapPrefix>, w: u8)
    requires
        forall|k: int| 0 <= k < a.len() ==> b.contains(#[trigger] a[k]),
    ensures
        lies_within(a, b, w),
{
    assert forall|i: int| 0 <= i < a.len() implies #[trigger] within_some(b, a[i].prefix, w) by {
        assert(b.contains(a[i]));
        let j = choose|j: int| 0 <= j < b.len() && b[j] == a[i];
        assert(within(b[j].prefix, a[i].prefix, w));
    }
}

/// Extending `b` with more entries, keeping the prefixes of the first ones.
proof fn lemma_within_some_grow(b: Seq<SourceMapPrefix>, c: Seq<SourceMapPrefix>, p: Prefix, w: u8)
    requires
        within_some(b, p, w),
        b.len() <= c.len(),
        forall|j: int| 0 <= j < b.len() ==> (#[trigger] c[j]).prefix == b[j].prefix,
    ensures
        within_some(c, p, w),
{
    let j = choose|j: int| 0 <= j < b.len() && within((#[trigger] b[j]).prefix, p, w);
    assert(c[j].prefix == b[j].prefix);
}

/// The prefix that an input stands for after prefix lengths longer than
/// `max_len` are cut to `max_len` (only when `max_len` is below the family's
/// width), host bits cleared.
pub open spec fn clamp(p: Prefix, max_len: u8, w: u8) -> Prefix {
    if max_len < w && p.len > max_len {
        Prefix { bits: Prefix { bits: p.bits, len: max_len }.net(w) as u128, len: max_len }
    } else {
        p
    }
}

/// The cut prefix is well-formed and holds the range of the prefix it was cut from.
pub proof fn lemma_clamp_within(p: Prefix, max_len: u8, w: u8)
    requires
        p.wf(w),
    ensures
        clamp(p, max_len, w).wf(w),
        within(clamp(p, max_len, w), p, w),
{
    if max_len < w && p.len > max_len {
        let q = Prefix { bits: p.bits, len: max_len };
        let c = clamp(p, max_len, w);
        q.lemma_has_bits(w);
        q.lemma_covers_when(w, p);
        q.lemma_covers_range(w, p);
        lemma_pow2_pos(q.host(w));
        vstd::arithmetic::div_mod::lemma_div_by_multiple(q.block(w), pow2(q.host(w)) as int);
        assert(c.bits as int == q.net(w));
        assert(c.block(w) == q.block(w));
    }
}

/// Some (clamped) input holds address `x`.
pub open spec fn input_covered(input: Seq<(usize, Prefix)>, max_len: u8, w: u8, x: int) -> bool {
    exists|i: int| 0 <= i < input.len() && clamp((#[trigger] input[i]).1, max_len, w).has(w, x)
}

pub open spec fn inputs_wf(input: Seq<(usize, Prefix)>, w: u8) -> bool {
    forall|i: int| 0 <= i < input.len() ==> (#[trigger] input[i]).1.wf(w)
}

/// Source index `v` is the index of some input.
pub open spec fn input_indexed(input: Seq<(usize, Prefix)>, v: usize) -> bool {
    exists|i: int| 0 <= i < input.len() && (#[trigger] input[i]).0 == v
}

/// Reverse a vector, so that popping gives the elements in their original order.
pub fn reversed<T>(v: Vec<T>) -> (r: Vec<T>)
    ensures
        r@.len() == v@.len(),
        forall|k: int| 0 <= k < v@.len() ==> #[trigger] r@[k] == v@[v@.len() - 1 - k],
{
    let ghost orig = v@;
    let mut v = v;
    let mut r: Vec<T> = Vec::new();
    while v.len() > 0
        invariant
            v@.len() + r@.len() == orig.len(),
            forall|k: int| 0 <= k < v@.len() ==> v@[k] == orig[k],
            forall|k: int| 0 <= k < r@.len() ==> #[trigger] r@[k] == orig[orig.len() - 1 - k],
        decreases v.len(),
    {
        let x = v.pop().unwrap();
        r.push(x);
    }
    r
}

/// Entries for the inputs, with prefix lengths above `max_prefix_len` cut.
fn make_entries(input: Vec<(usize, Prefix)>, max_prefix_len: u8, w: u8) -> (r: Vec<SourceMapPrefix>)
    requires
        valid_width(w),
        inputs_wf(input@, w),
    ensures
        r@.len() == input@.len(),
        forall|i: int| 0 <= i < r@.len() ==> (#[trigger] r@[i]).prefix == clamp(input@[i].1, max_prefix_len, w)
            && r@[i].source_indices@ == seq![input@[i].0],
        all_wf(r@, w),
        full_coverage(r@, w),
        inputs_canonical(input@, w) ==> all_canonical(r@, w),
{
    let mut r: Vec<SourceMapPrefix> = Vec::new();
    let mut i: usize = 0;
    while i < input.len()
        invariant
            valid_width(w),
            inputs_wf(input@, w),
            i <= input.len(),
            r@.len() == i,
            forall|k: int| 0 <= k < i ==> (#[trigger] r@[k]).prefix == clamp(input@[k].1, max_prefix_len, w)
                && r@[k].source_indices@ == seq![input@[k].0],
            all_wf(r@, w),
            full_coverage(r@, w),
            inputs_canonical(input@, w) ==> all_canonical(r@, w),
        decreases input.len() - i,
    {
        let (idx, p) = input[i];
        let q = if max_prefix_len < w && p.len > max_prefix_len {
            trunc(Prefix { bits: p.bits, len: max_prefix_len }, w)
        } else {
            p
        };
        let cov = capacity_of(q.len, w);
        let mut ids: Vec<usize> = Vec::new();
        ids.push(idx);
        r.push(SourceMapPrefix { prefix: q, source_indices: ids, coverage: cov, preferred_overlap_in_coverage: 0 });
        i = i + 1;
    }
    r
}

/// Sort entries by (network address, prefix length), keeping the input order
/// of equal keys: the result is a reordering of the entries (`kept_order`).
pub(crate) fn sort_by_network(entries: Vec<SourceMapPrefix>, w: u8) -> (r: Vec<SourceMapPrefix>)
    requires
        valid_width(w),
        all_wf(entries@, w),
    ensures
        r@.len() == entries@.len(),
        sorted_by_net(r@, w),
        forall|j: int| 0 <= j < r@.len() ==> entries@.contains(#[trigger] r@[j]),
        forall|k: int| 0 <= k < entries@.len() ==> r@.contains(#[trigger] entries@[k]),
        all_canonical(entries@, w) ==> all_canonical(r@, w),
        r@.to_multiset() == entries@.to_multiset(),
        exists|pos: Seq<int>| #[trigger] kept_order(r@, entries@, pos, w),
{
    let mut keys: Vec<SortKey> = Vec::new();
    let mut i: usize = 0;
    while i < entries.len()
        invariant
            valid_width(w),
            all_wf(entries@, w),
            i <= entries.len(),
            keys@.len() == i,
            forall|k: int| 0 <= k < i ==> #[trigger] keys@[k] == (entries@[k].prefix.net(w) as u128, entries@[k].prefix.len as u128, k as usize),
        decreases entries.len() - i,
    {
        let n = network(entries[i].prefix, w);
        keys.push((n, entries[i].prefix.len as u128, i));
        i = i + 1;
    }
    let sorted = sort_keys(&keys);
    proof {
        assert(numbered(keys@));
        lemma_sorted_numbered_is_order(keys@, sorted@);
    }
    let ghost orig = entries@;
    let r = apply_order(entries, &sorted);
    proof {
        assert forall|i: int, j: int| 0 <= i < j < r@.len() implies
            (#[trigger] r@[i]).prefix.net(w) < (#[trigger] r@[j]).prefix.net(w)
            || (r@[i].prefix.net(w) == r@[j].prefix.net(w) && r@[i].prefix.len <= r@[j].prefix.len) by {
            assert(key_le(sorted@[i], sorted@[j]));
            assert(sorted@[i] == keys@[sorted@[i].2 as int]);
            assert(sorted@[j] == keys@[sorted@[j].2 as int]);
            orig[sorted@[i].2 as int].prefix.lemma_has_bits(w);
            orig[sorted@[j].2 as int].prefix.lemma_has_bits(w);
            lemma_pow2_128();
            lemma_pow2_le(w as nat, 128);
        }
        assert forall|j: int| 0 <= j < r@.len() implies orig.contains(#[trigger] r@[j]) by {
            assert(r@[j] == orig[sorted@[j].2 as int]);
        }
        assert forall|k: int| 0 <= k < orig.len() implies r@.contains(#[trigger] orig[k]) by {
            assert(listed(sorted@, k));
            let j = choose|j: int| 0 <= j < sorted@.len() && sorted@[j].2 == k;
            assert(r@[j] == orig[k]);
        }
        if all_canonical(orig, w) {
            assert forall|j: int| 0 <= j < r@.len() implies (#[trigger] r@[j]).prefix.canonical(w) by {
                assert(r@[j] == orig[sorted@[j].2 as int]);
            }
        }
        let f = |k: SortKey| orig[k.2 as int];
        assert(r@ =~= sorted@.map_values(f));
        assert(orig =~= keys@.map_values(f));
        crate::sort::lemma_map_multiset(sorted@, keys@, f);
        let pos = Seq::new(r@.len(), |j: int| sorted@[j].2 as int);
        assert forall|i: int, j: int| 0 <= i < j < r@.len() && (#[trigger] r@[i]).prefix.net(w) == (#[trigger] r@[j]).prefix.net(w)
            && r@[i].prefix.len == r@[j].prefix.len implies pos[i] < pos[j] by {
            assert(key_le(sorted@[i], sorted@[j]));
            assert(sorted@[i] == keys@[sorted@[i].2 as int]);
            assert(sorted@[j] == keys@[sorted@[j].2 as int]);
            orig[sorted@[i].2 as int].prefix.lemma_has_bits(w);
            orig[sorted@[j].2 as int].prefix.lemma_has_bits(w);
            lemma_pow2_128();
            lemma_pow2_le(w as nat, 128);
        }
        assert(kept_order(r@, orig, pos, w));
    }
    r
}

/// `r` holds the records of `s` at the positions `pos` (each position once),
/// records with equal network address and length in their order in `s`.
pub open spec fn kept_order(r: Seq<SourceMapPrefix>, s: Seq<SourceMapPrefix>, pos: Seq<int>, w: u8) -> bool {
    &&& pos.len() == r.len()
    &&& r.len() == s.len()
    &&& forall|j: int| 0 <= j < r.len() ==> 0 <= #[trigger] pos[j] < s.len() && r[j] == s[pos[j]]
    &&& forall|i: int, j: int| 0 <= i < r.len() && 0 <= j < r.len() && i != j ==> #[trigger] pos[i] != #[trigger] pos[j]
    &&& forall|i: int, j: int| 0 <= i < j < r.len() && (#[trigger] r[i]).prefix.net(w) == (#[trigger] r[j]).prefix.net(w)
        && r[i].prefix.len == r[j].prefix.len ==> pos[i] < pos[j]
}

/// Drop entries that a preceding entry covers, adding their source indices to
/// the covering entry. With entries sorted by network address, what remains
/// lies in increasing, non-overlapping address ranges.
fn redundancy_eliminate(entries: Vec<SourceMapPrefix>, w: u8) -> (r: Vec<SourceMapPrefix>)
    requires
        valid_width(w),
        all_wf(entries@, w),
        full_coverage(entries@, w),
        sorted_by_net(entries@, w),
    ensures
        all_wf(r@, w),
        full_coverage(r@, w),
        ascending_ranges(r@, w),
        pairwise_disjoint(r@, w),
        forall|x: int| covered(r@, w, x) <==> covered(entries@, w, x),
        forall|v: usize| indexed(r@, v) <==> indexed(entries@, v),
        forall|b: u8| lens_at_most(entries@, b) ==> lens_at_most(r@, b),
        all_canonical(entries@, w) ==> all_canonical(r@, w),
        lies_within(entries@, r@, w),
        r@.len() <= entries@.len(),
{
    let n = entries.len();
    let ghost orig = entries@;
    let mut rest = reversed(entries);
    let mut out: Vec<SourceMapPrefix> = Vec::new();
    let mut cur: Option<SourceMapPrefix> = None;
    let ghost mut c: int = 0;
    let mut k: usize = 0;
    while rest.len() > 0
        invariant
            valid_width(w),
            orig.len() == n,
            all_wf(orig, w),
            full_coverage(orig, w),
            sorted_by_net(orig, w),
            k <= n,
            rest@.len() == n - k,
            forall|m: int| 0 <= m < rest@.len() ==> #[trigger] rest@[m] == orig[n - 1 - m],
            cur is None <==> k == 0,
            cur is Some ==> 0 <= c < k && cur->0.prefix == orig[c].prefix && cur->0.coverage == orig[c].coverage,
            forall|a: int| 0 <= a < out@.len() ==> exists|m: int| 0 <= m < k && (#[trigger] out@[a]).prefix == orig[m].prefix
                && out@[a].coverage == orig[m].coverage,
            ascending_ranges(out@, w),
            cur is Some ==> forall|a: int| 0 <= a < out@.len() ==>
                (#[trigger] out@[a]).prefix.net(w) + out@[a].prefix.size(w) <= cur->0.prefix.net(w),
            forall|m: int, x: int| 0 <= m < k && (#[trigger] orig[m]).prefix.has(w, x) ==> #[trigger] covered(out@ + opt_seq(cur), w, x),
            forall|v: usize| indexed(out@ + opt_seq(cur), v) <==> indexed(orig.take(k as int), v),
            forall|m: int| 0 <= m < k ==> #[trigger] within_some(out@ + opt_seq(cur), orig[m].prefix, w),
            (out@ + opt_seq(cur)).len() <= k,
        decreases rest.len(),
    {
        let e = rest.pop().unwrap();
        proof {
            assert(e == orig[k as int]);
        }
        let ghost old_all = out@ + opt_seq(cur);
        let ghost old_out = out@;
        let ghost old_cur = cur;
        let ghost old_last = if cur is Some { cur->0 } else { e };
        if cur.is_none() {
            cur = Some(e);
            proof {
                c = k as int;
            }
        } else {
            let mut ce = cur.unwrap();
            if prefix_contains(ce.prefix, e.prefix, w) {
                let ghost ce_old = ce;
                let mut ids = e.source_indices;
                ce.source_indices.append(&mut ids);
                cur = Some(ce);
                proof {
                    assert forall|v: usize| ce.source_indices@.contains(v) <==>
                        (ce_old.source_indices@.contains(v) || e.source_indices@.contains(v)) by {
                        if ce_old.source_indices@.contains(v) {
                            let i = choose|i: int| 0 <= i < ce_old.source_indices@.len() && ce_old.source_indices@[i] == v;
                            assert(ce.source_indices@[i] == v);
                        }
                        if e.source_indices@.contains(v) {
                            let i = choose|i: int| 0 <= i < e.source_indices@.len() && e.source_indices@[i] == v;
                            assert(ce.source_indices@[ce_old.source_indices@.len() + i] == v);
                        }
                    }
                }
            } else {
                proof {
                    let p = ce.prefix;
                    let q = e.prefix;
                    p.lemma_has_bits(w);
                    q.lemma_has_bits(w);
                    assert(p.net(w) <= q.net(w));
                    if q.net(w) < p.net(w) + p.size(w) {
                        p.lemma_has_range(w, q.net(w));
                        if p.len <= q.len {
                            p.lemma_nested_or_disjoint(w, q, q.net(w));
                        } else {
                            q.lemma_nested_or_disjoint(w, p, q.net(w));
                            q.lemma_covers_range(w, p);
                        }
                    }
                    assert(p.net(w) + p.size(w) <= q.net(w));
                }
                out.push(ce);
                cur = Some(e);
                proof {
                    c = k as int;
                }
            }
        }
        proof {
            let new_all = out@ + opt_seq(cur);
            assert forall|j: int| 0 <= j < old_all.len() implies (#[trigger] new_all[j]).prefix == old_all[j].prefix by {
                if j < old_out.len() {
                    assert(new_all[j] == old_all[j]);
                }
            }
            assert forall|m: int| 0 <= m < k + 1 implies #[trigger] within_some(new_all, orig[m].prefix, w) by {
                if m < k {
                    lemma_within_some_grow(old_all, new_all, orig[m].prefix, w);
                } else {
                    let last = new_all.len() - 1;
                    assert(new_all[last] == cur->0);
                    e.prefix.lemma_has_bits(w);
                    cur->0.prefix.lemma_covers_range(w, e.prefix);
                    assert(within(new_all[last].prefix, e.prefix, w));
                }
            }
            // coverage of the processed inputs
            assert forall|m: int, x: int| 0 <= m < k + 1 && (#[trigger] orig[m]).prefix.has(w, x)
                implies #[trigger] covered(out@ + opt_seq(cur), w, x) by {
                if m < k {
                    assert(covered(old_all, w, x));
                    let i = choose|i: int| 0 <= i < old_all.len() && (#[trigger] old_all[i]).prefix.has(w, x);
                    if i < old_all.len() - 1 || cur->0.prefix == old_all[i].prefix {
                        if i < out@.len() {
                            assert(new_all[i] == old_all[i]);
                        } else {
                            assert(new_all[new_all.len() - 1].prefix.has(w, x) || new_all[i].prefix.has(w, x));
                        }
                    } else {
                        // the old container is now the last output, or still the container
                        assert(new_all[i].prefix == old_all[i].prefix || new_all[new_all.len() - 1].prefix.has(w, x));
                    }
                } else {
                    assert(new_all[new_all.len() - 1] == cur->0);
                    assert(cur->0.prefix.covers(w, e.prefix) || cur->0 == e);
                }
            }
            assert(orig.take(k + 1) =~= orig.take(k as int).push(e));
            assert forall|v: usize| indexed(out@ + opt_seq(cur), v) <==> indexed(orig.take(k + 1), v) by {
                lemma_indexed_push(orig.take(k as int), e, v);
                lemma_indexed_push(old_out, old_last, v);
                lemma_indexed_push(old_out, new_all.last(), v);
                if old_cur is None {
                    assert(old_all =~= old_out);
                    assert(new_all =~= old_out.push(e));
                } else if new_all.len() == old_all.len() {
                    assert(old_all =~= old_out.push(old_last));
                    assert(new_all =~= old_out.push(new_all.last()));
                } else {
                    assert(new_all =~= old_all.push(e));
                    lemma_indexed_push(old_all, e, v);
                    assert(old_all =~= old_out.push(old_last));
                }
            }
        }
        k = k + 1;
    }
    let ghost last_all = out@ + opt_seq(cur);
    let ghost before = out@;
    if cur.is_some() {
        let ce = cur.unwrap();
        out.push(ce);
    }
    proof {
        assert(out@ =~= last_all);
        assert(orig.take(n as int) =~= orig);
        assert forall|a: int| 0 <= a < out@.len() implies exists|m: int| 0 <= m < n && (#[trigger] out@[a]).prefix == orig[m].prefix
            && out@[a].coverage == orig[m].coverage by {
            if a < before.len() {
                assert(out@[a] == before[a]);
            } else {
                assert(out@[a].prefix == orig[c].prefix);
            }
        }
        assert(all_wf(out@, w));
        assert(full_coverage(out@, w));
        lemma_ascending_disjoint(out@, w);
        assert forall|m: int| 0 <= m < orig.len() implies #[trigger] within_some(out@, orig[m].prefix, w) by {
            assert(within_some(last_all, orig[m].prefix, w));
        }
        assert forall|b: u8| lens_at_most(orig, b) implies lens_at_most(out@, b) by {
            assert forall|a: int| 0 <= a < out@.len() implies (#[trigger] out@[a]).prefix.len <= b by {
                let m = choose|m: int| 0 <= m < n && (#[trigger] out@[a]).prefix == orig[m].prefix && out@[a].coverage == orig[m].coverage;
                assert(orig[m].prefix.len <= b);
            }
        }
        assert forall|x: int| covered(out@, w, x) <==> covered(orig, w, x) by {
            if covered(orig, w, x) {
                let m = choose|m: int| 0 <= m < orig.len() && (#[trigger] orig[m]).prefix.has(w, x);
            }
            if covered(out@, w, x) {
                let a = choose|a: int| 0 <= a < out@.len() && (#[trigger] out@[a]).prefix.has(w, x);
                let m = choose|m: int| 0 <= m < n && (#[trigger] out@[a]).prefix == orig[m].prefix && out@[a].coverage == orig[m].coverage;
                assert(orig[m].prefix.has(w, x));
            }
        }
        if all_canonical(orig, w) {
            assert forall|a: int| 0 <= a < out@.len() implies (#[trigger] out@[a]).prefix.canonical(w) by {
                let m = choose|m: int| 0 <= m < n && (#[trigger] out@[a]).prefix == orig[m].prefix && out@[a].coverage == orig[m].coverage;
            }
        }
    }
    out
}

proof fn lemma_covered_concat(a: Seq<SourceMapPrefix>, b: Seq<SourceMapPrefix>, w: u8, x: int)
    ensures
        covered(a + b, w, x) <==> (covered(a, w, x) || covered(b, w, x)),
{
    if covered(a, w, x) {
        let i = choose|i: int| 0 <= i < a.len() && (#[trigger] a[i]).prefix.has(w, x);
        assert((a + b)[i] == a[i]);
    }
    if covered(b, w, x) {
        let i = choose|i: int| 0 <= i < b.len() && (#[trigger] b[i]).prefix.has(w, x);
        assert((a + b)[a.len() + i] == b[i]);
    }
    if covered(a + b, w, x) {
        let i = choose|i: int| 0 <= i < (a + b).len() && (#[trigger] (a + b)[i]).prefix.has(w, x);
        if i < a.len() {
            assert((a + b)[i] == a[i]);
        } else {
            assert((a + b)[i] == b[i - a.len()]);
        }
    }
}

proof fn lemma_indexed_concat(a: Seq<SourceMapPrefix>, b: Seq<SourceMapPrefix>, v: usize)
    ensures
        indexed(a + b, v) <==> (indexed(a, v) || indexed(b, v)),
{
    if indexed(a, v) {
        let i = choose|i: int| 0 <= i < a.len() && (#[trigger] a[i]).source_indices@.contains(v);
        assert((a + b)[i] == a[i]);
    }
    if indexed(b, v) {
        let i = choose|i: int| 0 <= i < b.len() && (#[trigger] b[i]).source_indices@.contains(v);
        assert((a + b)[a.len() + i] == b[i]);
    }
    if indexed(a + b, v) {
        let i = choose|i: int| 0 <= i < (a + b).len() && (#[trigger] (a + b)[i]).source_indices@.contains(v);
        if i < a.len() {
            assert((a + b)[i] == a[i]);
        } else {
            assert((a + b)[i] == b[i - a.len()]);
        }
    }
}

proof fn lemma_contains_concat(a: Seq<usize>, b: Seq<usize>, v: usize)
    ensures
        (a + b).contains(v) <==> (a.contains(v) || b.contains(v)),
{
    if a.contains(v) {
        let i = choose|i: int| 0 <= i < a.len() && a[i] == v;
        assert((a + b)[i] == v);
    }
    if b.contains(v) {
        let i = choose|i: int| 0 <= i < b.len() && b[i] == v;
        assert((a + b)[a.len() + i] == v);
    }
    if (a + b).contains(v) {
        let i = choose|i: int| 0 <= i < (a + b).len() && (a + b)[i] == v;
        if i < a.len() {
            assert((a + b)[i] == a[i]);
        } else {
            assert((a + b)[i] == b[i - a.len()]);
        }
    }
}

/// The entry merging two sibling entries: their parent prefix, their source
/// indices in order, and their coverage added (saturating).
fn merge_siblings(left: SourceMapPrefix, right: SourceMapPrefix, w: u8) -> (r: SourceMapPrefix)
    requires
        valid_width(w),
        left.prefix.wf(w),
        right.prefix.wf(w),
        left.prefix.len == right.prefix.len,
        left.prefix.len != 0,
        left.prefix.block(w) != right.prefix.block(w),
        left.prefix.block(w) / 2 == right.prefix.block(w) / 2,
        left.coverage as int == capacity_spec(w, left.prefix.len),
        right.coverage as int == capacity_spec(w, right.prefix.len),
    ensures
        r.prefix.canonical(w),
        r.prefix.len == left.prefix.len - 1,
        forall|x: int| r.prefix.has(w, x) <==> (left.prefix.has(w, x) || right.prefix.has(w, x)),
        r.coverage as int == capacity_spec(w, r.prefix.len),
        r.source_indices@ == left.source_indices@ + right.source_indices@,
        r.preferred_overlap_in_coverage == 0,
{
    let parent = parent_prefix(left.prefix, w);
    let cov = left.coverage.saturating_add(right.coverage);
    let mut ids = left.source_indices;
    let mut more = right.source_indices;
    ids.append(&mut more);
    proof {
        let h = left.prefix.host(w);
        assert(h < 128);
        lemma_pow2_unfold(h + 1);
        lemma_pow2_128();
        if h + 1 < 128 {
            lemma_pow2_le(h + 1, 127);
            vstd::arithmetic::power2::lemma_pow2_strictly_increases(127, 128);
        }
        assert forall|x: int| parent.has(w, x) <==> (left.prefix.has(w, x) || right.prefix.has(w, x)) by {
        }
    }
    SourceMapPrefix { prefix: parent, source_indices: ids, coverage: cov, preferred_overlap_in_coverage: 0 }
}

/// `a` and `b` are the two halves of one prefix one bit shorter.
pub open spec fn siblings(a: Prefix, b: Prefix, w: u8) -> bool {
    a.len == b.len && a.len != 0 && a.block(w) != b.block(w) && a.block(w) / 2 == b.block(w) / 2
}

/// No entry is the sibling of the entry right after it.
pub open spec fn no_adjacent_siblings(s: Seq<SourceMapPrefix>, w: u8) -> bool {
    forall|i: int, j: int| 0 <= i && j == i + 1 && j < s.len() ==> !siblings(#[trigger] s[i].prefix, #[trigger] s[j].prefix, w)
}

/// No two entries are siblings.
pub open spec fn no_siblings(s: Seq<SourceMapPrefix>, w: u8) -> bool {
    forall|i: int, j: int| 0 <= i < s.len() && 0 <= j < s.len() && i != j
        ==> !siblings(#[trigger] s[i].prefix, #[trigger] s[j].prefix, w)
}

/// Siblings leave no room between them for another prefix.
proof fn lemma_no_room_between_siblings(a: Prefix, b: Prefix, c: Prefix, w: u8)
    requires
        valid_width(w),
        a.wf(w),
        b.wf(w),
        c.wf(w),
        siblings(a, b, w),
    ensures
        !(a.net(w) + a.size(w) <= c.net(w) && c.net(w) + c.size(w) <= b.net(w)),
{
    if a.net(w) + a.size(w) <= c.net(w) && c.net(w) + c.size(w) <= b.net(w) {
    let s = a.size(w);
    let ba = a.block(w);
    let bb = b.block(w);
    vstd::arithmetic::power2::lemma_pow2_pos(a.host(w));
    vstd::arithmetic::power2::lemma_pow2_pos(c.host(w));
    assert(b.size(w) == s);
    assert(ba >= 0 && bb >= 0) by {
        vstd::arithmetic::div_mod::lemma_div_pos_is_pos(a.bits as int, pow2(a.host(w)) as int);
        vstd::arithmetic::div_mod::lemma_div_pos_is_pos(b.bits as int, pow2(b.host(w)) as int);
    }
    assert(ba * s + s < bb * s);
    assert(ba + 1 < bb) by (nonlinear_arith)
        requires
            ba * s + s < bb * s,
            s > 0;
    }
}

/// Entries in ascending address ranges, no one the sibling of the next, have
/// no siblings at all.
proof fn lemma_no_siblings(s: Seq<SourceMapPrefix>, w: u8)
    requires
        valid_width(w),
        all_wf(s, w),
        ascending_ranges(s, w),
        no_adjacent_siblings(s, w),
    ensures
        no_siblings(s, w),
{
    assert forall|i: int, j: int| 0 <= i < s.len() && 0 <= j < s.len() && i != j
        implies !siblings(#[trigger] s[i].prefix, #[trigger] s[j].prefix, w) by {
        let lo = if i < j { i } else { j };
        let hi = if i < j { j } else { i };
        if siblings(s[lo].prefix, s[hi].prefix, w) {
            if hi == lo + 1 {
                assert(!siblings(s[lo].prefix, s[hi].prefix, w));
            } else {
                let k = lo + 1;
                assert(s[lo].prefix.net(w) + s[lo].prefix.size(w) <= s[k].prefix.net(w));
                assert(s[k].prefix.net(w) + s[k].prefix.size(w) <= s[hi].prefix.net(w));
                lemma_no_room_between_siblings(s[lo].prefix, s[hi].prefix, s[k].prefix, w);
            }
        }
    }
}

/// Merge sibling prefixes into their parent, repeatedly: entries are taken in
/// address order, and each new entry is merged with the entry before it on a
/// stack while the two are siblings. The result is in ascending address
/// order and holds no two siblings.
fn sibling_merge(entries: Vec<SourceMapPrefix>, w: u8) -> (r: Vec<SourceMapPrefix>)
    requires
        valid_width(w),
        all_wf(entries@, w),
        full_coverage(entries@, w),
        pairwise_disjoint(entries@, w),
        ascending_ranges(entries@, w),
    ensures
        all_wf(r@, w),
        full_coverage(r@, w),
        pairwise_disjoint(r@, w),
        forall|x: int| covered(r@, w, x) <==> covered(entries@, w, x),
        forall|v: usize| indexed(r@, v) <==> indexed(entries@, v),
        forall|b: u8| lens_at_most(entries@, b) ==> lens_at_most(r@, b),
        all_canonical(entries@, w) ==> all_canonical(r@, w),
        lies_within(entries@, r@, w),
        r@.len() <= entries@.len(),
        no_adjacent_siblings(r@, w),
        ascending_ranges(r@, w),
        no_siblings(r@, w),
{
    if entries.len() <= 1 {
        proof {
            lemma_lies_within_contains(entries@, entries@, w);
        }
        return entries;
    }
    let ghost orig = entries@;
    let sorted = entries;
    let ghost srt = sorted@;
    let n = sorted.len();
    let mut rest = reversed(sorted);
    let mut stack: Vec<SourceMapPrefix> = Vec::new();
    let mut k: usize = 0;
    proof {
        assert(stack@ + srt.skip(0) =~= srt);
        lemma_lies_within_contains(orig, srt, w);
        lemma_lies_within_contains(srt, srt, w);
    }
    while rest.len() > 0
        invariant
            valid_width(w),
            srt.len() == n,
            k <= n,
            rest@.len() == n - k,
            forall|m: int| 0 <= m < rest@.len() ==> #[trigger] rest@[m] == srt[n - 1 - m],
            all_wf(srt, w),
            all_wf(stack@, w),
            all_wf(stack@ + srt.skip(k as int), w),
            full_coverage(stack@ + srt.skip(k as int), w),
            pairwise_disjoint(stack@ + srt.skip(k as int), w),
            forall|x: int| covered(stack@ + srt.skip(k as int), w, x) <==> covered(srt, w, x),
            forall|v: usize| indexed(stack@ + srt.skip(k as int), v) <==> indexed(srt, v),
            forall|b: u8| lens_at_most(srt, b) ==> lens_at_most(stack@ + srt.skip(k as int), b),
            all_canonical(orig, w) ==> all_canonical(srt, w),
            all_canonical(srt, w) ==> all_canonical(stack@ + srt.skip(k as int), w),
            lies_within(srt, stack@ + srt.skip(k as int), w),
            (stack@ + srt.skip(k as int)).len() <= n,
            no_adjacent_siblings(stack@, w),
            ascending_ranges(stack@ + srt.skip(k as int), w),
        decreases rest.len(),
    {
        let e = rest.pop().unwrap();
        proof {
            assert(e == srt[k as int]);
            assert(stack@.push(e) + srt.skip(k + 1) =~= stack@ + srt.skip(k as int));
        }
        let ghost before_push = stack@;
        stack.push(e);
        k = k + 1;
        proof {
            assert(stack@.drop_last() =~= before_push);
        }
        while stack.len() >= 2 && are_siblings(stack[stack.len() - 2].prefix, stack[stack.len() - 1].prefix, w)
            invariant
                valid_width(w),
                srt.len() == n,
                k <= n,
                all_wf(stack@, w),
                all_wf(stack@ + srt.skip(k as int), w),
                full_coverage(stack@ + srt.skip(k as int), w),
                pairwise_disjoint(stack@ + srt.skip(k as int), w),
                forall|x: int| covered(stack@ + srt.skip(k as int), w, x) <==> covered(srt, w, x),
                forall|v: usize| indexed(stack@ + srt.skip(k as int), v) <==> indexed(srt, v),
                forall|b: u8| lens_at_most(srt, b) ==> lens_at_most(stack@ + srt.skip(k as int), b),
                all_canonical(srt, w) ==> all_canonical(stack@ + srt.skip(k as int), w),
                lies_within(srt, stack@ + srt.skip(k as int), w),
                (stack@ + srt.skip(k as int)).len() <= n,
                stack@.len() >= 1,
                no_adjacent_siblings(stack@.drop_last(), w),
                ascending_ranges(stack@ + srt.skip(k as int), w),
            decreases stack.len(),
        {
            let ghost old_all = stack@ + srt.skip(k as int);
            let ghost os = stack@;
            let ghost base = stack@.subrange(0, stack@.len() - 2);
            let ghost t = srt.skip(k as int);
            proof {
                let l = stack@.len() - 2;
                assert(old_all[l] == stack@[l]);
                assert(old_all[l + 1] == stack@[l + 1]);
            }
            let right = stack.pop().unwrap();
            let left = stack.pop().unwrap();
            proof {
                assert(stack@ == base);
                assert(old_all =~= base + seq![left, right] + t);
            }
            let m = merge_siblings(left, right, w);
            stack.push(m);
            proof {
                assert(stack@.drop_last() =~= base);
                assert(no_adjacent_siblings(base, w)) by {
                    assert forall|i: int, j: int| 0 <= i && j == i + 1 && j < base.len()
                        implies !siblings(#[trigger] base[i].prefix, #[trigger] base[j].prefix, w) by {
                        assert(base[i] == os.drop_last()[i]);
                        assert(base[j] == os.drop_last()[j]);
                    }
                }
                let new_all = stack@ + t;
                let l = base.len() as int;
                assert(new_all =~= base + seq![m] + t);
                assert(new_all.len() == old_all.len() - 1);
                assert forall|i: int| 0 <= i < new_all.len() && i != l implies
                    #[trigger] new_all[i] == old_all[if i < l { i } else { i + 1 }] by {
                }
                assert(new_all[l] == m);
                assert(old_all[l] == left);
                assert(old_all[l + 1] == right);
                assert(ascending_ranges(new_all, w)) by {
                    let ls = left.prefix.size(w);
                    m.prefix.lemma_covers_range(w, left.prefix);
                    m.prefix.lemma_covers_range(w, right.prefix);
                    assert(m.prefix.covers(w, left.prefix));
                    assert(m.prefix.covers(w, right.prefix));
                    assert(m.prefix.host(w) == left.prefix.host(w) + 1);
                    vstd::arithmetic::power2::lemma_pow2_unfold(m.prefix.host(w));
                    assert(m.prefix.size(w) == 2 * ls);
                    assert(right.prefix.size(w) == ls);
                    assert(left.prefix.net(w) + ls <= right.prefix.net(w));
                    assert(m.prefix.net(w) == left.prefix.net(w));
                    assert(m.prefix.net(w) + m.prefix.size(w) <= right.prefix.net(w) + right.prefix.size(w));
                    assert forall|i: int, j: int| 0 <= i < j < new_all.len() implies
                        (#[trigger] new_all[i]).prefix.net(w) + new_all[i].prefix.size(w) <= (#[trigger] new_all[j]).prefix.net(w) by {
                        let oi = if i < l { i } else { i + 1 };
                        let oj = if j < l { j } else { j + 1 };
                        if i == l {
                            assert(new_all[j] == old_all[oj]);
                            assert(old_all[l + 1].prefix.net(w) + old_all[l + 1].prefix.size(w) <= old_all[oj].prefix.net(w));
                        } else if j == l {
                            assert(new_all[i] == old_all[oi]);
                            assert(old_all[oi].prefix.net(w) + old_all[oi].prefix.size(w) <= old_all[l].prefix.net(w));
                        } else {
                            assert(new_all[i] == old_all[oi]);
                            assert(new_all[j] == old_all[oj]);
                        }
                    }
                }
                assert(lies_within(old_all, new_all, w)) by {
                    assert forall|i: int| 0 <= i < old_all.len() implies #[trigger] within_some(new_all, old_all[i].prefix, w) by {
                        if i < l {
                            assert(new_all[i] == old_all[i]);
                        } else if i == l || i == l + 1 {
                            m.prefix.lemma_covers_range(w, old_all[i].prefix);
                            assert(within(new_all[l].prefix, old_all[i].prefix, w));
                        } else {
                            assert(new_all[i - 1] == old_all[i]);
                        }
                    }
                }
                lemma_lies_within_trans(srt, old_all, new_all, w);
                assert(all_wf(new_all, w)) by {
                    assert forall|i: int| 0 <= i < new_all.len() implies (#[trigger] new_all[i]).prefix.wf(w) by {
                        if i != l {
                            assert(new_all[i] == old_all[if i < l { i } else { i + 1 }]);
                        }
                    }
                }
                assert(full_coverage(new_all, w)) by {
                    assert forall|i: int| 0 <= i < new_all.len() implies (#[trigger] new_all[i]).coverage as int == capacity_spec(w, new_all[i].prefix.len) by {
                        if i != l {
                            assert(new_all[i] == old_all[if i < l { i } else { i + 1 }]);
                        }
                    }
                }
                assert(pairwise_disjoint(new_all, w)) by {
                    assert forall|i: int, j: int| 0 <= i < new_all.len() && 0 <= j < new_all.len() && i != j
                        implies (#[trigger] new_all[i]).prefix.disjoint(w, (#[trigger] new_all[j]).prefix) by {
                        let oi = if i < l { i } else { i + 1 };
                        let oj = if j < l { j } else { j + 1 };
                        if i == l {
                            assert(new_all[j] == old_all[oj]);
                            assert(old_all[l].prefix.disjoint(w, old_all[oj].prefix));
                            assert(old_all[l + 1].prefix.disjoint(w, old_all[oj].prefix));
                        } else if j == l {
                            assert(new_all[i] == old_all[oi]);
                            assert(old_all[oi].prefix.disjoint(w, old_all[l].prefix));
                            assert(old_all[oi].prefix.disjoint(w, old_all[l + 1].prefix));
                        } else {
                            assert(new_all[i] == old_all[oi]);
                            assert(new_all[j] == old_all[oj]);
                        }
                    }
                }
                assert forall|x: int| covered(new_all, w, x) <==> covered(srt, w, x) by {
                    lemma_covered_concat(base + seq![m], t, w, x);
                    lemma_covered_concat(base, seq![m], w, x);
                    lemma_covered_concat(base + seq![left, right], t, w, x);
                    lemma_covered_concat(base, seq![left, right], w, x);
                    assert(covered(seq![m], w, x) <==> m.prefix.has(w, x)) by {
                        if m.prefix.has(w, x) {
                            assert(seq![m][0] == m);
                        }
                    }
                    assert(covered(seq![left, right], w, x) <==> (left.prefix.has(w, x) || right.prefix.has(w, x))) by {
                        if left.prefix.has(w, x) {
                            assert(seq![left, right][0] == left);
                        }
                        if right.prefix.has(w, x) {
                            assert(seq![left, right][1] == right);
                        }
                    }
                }
                if all_canonical(srt, w) {
                    assert forall|i: int| 0 <= i < new_all.len() implies (#[trigger] new_all[i]).prefix.canonical(w) by {
                        if i != l {
                            assert(new_all[i] == old_all[if i < l { i } else { i + 1 }]);
                        }
                    }
                }
                assert forall|b: u8| lens_at_most(srt, b) implies lens_at_most(new_all, b) by {
                    assert(lens_at_most(old_all, b));
                    assert forall|i: int| 0 <= i < new_all.len() implies (#[trigger] new_all[i]).prefix.len <= b by {
                        if i != l {
                            assert(new_all[i] == old_all[if i < l { i } else { i + 1 }]);
                        }
                    }
                }
                assert forall|v: usize| indexed(new_all, v) <==> indexed(srt, v) by {
                    lemma_indexed_concat(base + seq![m], t, v);
                    lemma_indexed_concat(base, seq![m], v);
                    lemma_indexed_concat(base + seq![left, right], t, v);
                    lemma_indexed_concat(base, seq![left, right], v);
                    lemma_contains_concat(left.source_indices@, right.source_indices@, v);
                    assert(indexed(seq![m], v) <==> m.source_indices@.contains(v)) by {
                        if m.source_indices@.contains(v) {
                            assert(seq![m][0] == m);
                        }
                    }
                    assert(indexed(seq![left, right], v) <==> (left.source_indices@.contains(v) || right.source_indices@.contains(v))) by {
                        if left.source_indices@.contains(v) {
                            assert(seq![left, right][0] == left);
                        }
                        if right.source_indices@.contains(v) {
                            assert(seq![left, right][1] == right);
                        }
                    }
                }
            }
        }
        proof {
            assert forall|i: int, j: int| 0 <= i && j == i + 1 && j < stack@.len()
                implies !siblings(#[trigger] stack@[i].prefix, #[trigger] stack@[j].prefix, w) by {
                if j < stack@.len() - 1 {
                    assert(stack@[i] == stack@.drop_last()[i]);
                    assert(stack@[j] == stack@.drop_last()[j]);
                }
            }
        }
    }
    proof {
        assert(srt.skip(n as int) =~= Seq::<SourceMapPrefix>::empty());
        assert(stack@ + srt.skip(n as int) =~= stack@);
        lemma_lies_within_trans(orig, srt, stack@, w);
        lemma_no_siblings(stack@, w);
    }
    stack
}

/// Lossless aggregation for one address family of `w` bits.
fn lossless_aggregate(input: Vec<(usize, Prefix)>, max_prefix_len: u8, w: u8) -> (r: Vec<SourceMapPrefix>)
    requires
        valid_width(w),
        inputs_wf(input@, w),
    ensures
        all_wf(r@, w),
        full_coverage(r@, w),
        pairwise_disjoint(r@, w),
        forall|x: int| covered(r@, w, x) <==> input_covered(input@, max_prefix_len, w, x),
        forall|v: usize| indexed(r@, v) <==> input_indexed(input@, v),
        max_prefix_len < w ==> lens_at_most(r@, max_prefix_len),
        input@.len() == 0 ==> r@.len() == 0,
        inputs_canonical(input@, w) ==> all_canonical(r@, w),
        inputs_within(input@, r@, max_prefix_len, w),
        r@.len() <= input@.len(),
        no_adjacent_siblings(r@, w),
        ascending_ranges(r@, w),
        no_siblings(r@, w),
{
    if input.len() == 0 {
        return Vec::new();
    }
    let ghost inp = input@;
    let entries = make_entries(input, max_prefix_len, w);
    proof {
        assert forall|x: int| covered(entries@, w, x) <==> input_covered(inp, max_prefix_len, w, x) by {
            if covered(entries@, w, x) {
                let i = choose|i: int| 0 <= i < entries@.len() && (#[trigger] entries@[i]).prefix.has(w, x);
                assert(clamp(inp[i].1, max_prefix_len, w).has(w, x));
            }
            if input_covered(inp, max_prefix_len, w, x) {
                let i = choose|i: int| 0 <= i < inp.len() && clamp((#[trigger] inp[i]).1, max_prefix_len, w).has(w, x);
                assert(entries@[i].prefix.has(w, x));
            }
        }
        assert forall|v: usize| indexed(entries@, v) <==> input_indexed(inp, v) by {
            if indexed(entries@, v) {
                let i = choose|i: int| 0 <= i < entries@.len() && (#[trigger] entries@[i]).source_indices@.contains(v);
                assert(entries@[i].source_indices@ == seq![inp[i].0]);
                let k = choose|k: int| 0 <= k < entries@[i].source_indices@.len() && entries@[i].source_indices@[k] == v;
                assert(inp[i].0 == v);
            }
            if input_indexed(inp, v) {
                let i = choose|i: int| 0 <= i < inp.len() && (#[trigger] inp[i]).0 == v;
                assert(entries@[i].source_indices@[0] == v);
                assert(entries@[i].source_indices@.contains(v));
            }
        }
        if max_prefix_len < w {
            assert(lens_at_most(entries@, max_prefix_len));
        }
    }
    let sorted = sort_by_network(entries, w);
    let ghost ent = entries@;
    proof {
        assert forall|x: int| covered(sorted@, w, x) <==> covered(ent, w, x) by {
            if covered(sorted@, w, x) {
                let i = choose|i: int| 0 <= i < sorted@.len() && (#[trigger] sorted@[i]).prefix.has(w, x);
                assert(ent.contains(sorted@[i]));
            }
            if covered(ent, w, x) {
                let i = choose|i: int| 0 <= i < ent.len() && (#[trigger] ent[i]).prefix.has(w, x);
                assert(sorted@.contains(ent[i]));
            }
        }
        assert forall|v: usize| indexed(sorted@, v) <==> indexed(ent, v) by {
            if indexed(sorted@, v) {
                let i = choose|i: int| 0 <= i < sorted@.len() && (#[trigger] sorted@[i]).source_indices@.contains(v);
                assert(ent.contains(sorted@[i]));
            }
            if indexed(ent, v) {
                let i = choose|i: int| 0 <= i < ent.len() && (#[trigger] ent[i]).source_indices@.contains(v);
                assert(sorted@.contains(ent[i]));
            }
        }
        assert(all_wf(sorted@, w)) by {
            assert forall|i: int| 0 <= i < sorted@.len() implies (#[trigger] sorted@[i]).prefix.wf(w) by {
                assert(ent.contains(sorted@[i]));
            }
        }
        assert(full_coverage(sorted@, w)) by {
            assert forall|i: int| 0 <= i < sorted@.len() implies (#[trigger] sorted@[i]).coverage as int == capacity_spec(w, sorted@[i].prefix.len) by {
                assert(ent.contains(sorted@[i]));
            }
        }
        assert forall|b: u8| lens_at_most(ent, b) implies lens_at_most(sorted@, b) by {
            assert forall|i: int| 0 <= i < sorted@.len() implies (#[trigger] sorted@[i]).prefix.len <= b by {
                assert(ent.contains(sorted@[i]));
            }
        }
    }
    let ghost srt = sorted@;
    let reduced = redundancy_eliminate(sorted, w);
    let ghost red = reduced@;
    let r = sibling_merge(reduced, w);
    proof {
        lemma_lies_within_contains(ent, srt, w);
        lemma_lies_within_trans(ent, srt, red, w);
        lemma_lies_within_trans(ent, red, r@, w);
        assert forall|i: int| 0 <= i < inp.len() implies #[trigger] within_some(r@, clamp(inp[i].1, max_prefix_len, w), w) by {
            assert(within(ent[i].prefix, ent[i].prefix, w));
            assert(within_some(ent, ent[i].prefix, w));
            lemma_within_some_trans(ent, r@, ent[i].prefix, w);
        }
    }
    r
}

/// Lossless aggregation for IPv4 prefixes.
///
/// Prefixes longer than `max_prefix_len` are first cut to that length (when it
/// is below 32); then covered prefixes are dropped and sibling prefixes merged.
/// The result covers exactly the addresses of the (cut) inputs, with pairwise
/// disjoint prefixes, each reporting its full capacity as coverage, and every
/// input index recorded in some output entry. Every (cut) input lies within
/// one output entry, and there are no more entries than inputs. The entries
/// are in ascending address order and no two are siblings (the minimal
/// equivalent set). Cut prefixes
/// and merged ones are in canonical form; so is every output prefix when the
/// inputs are.
pub fn lossless_aggregate_v4(input: Vec<(usize, Prefix)>, max_prefix_len: u8) -> (r: Vec<SourceMapPrefix>)
    requires
        inputs_wf(input@, 32),
    ensures
        all_wf(r@, 32),
        full_coverage(r@, 32),
        pairwise_disjoint(r@, 32),
        forall|x: int| covered(r@, 32, x) <==> input_covered(input@, max_prefix_len, 32, x),
        forall|v: usize| indexed(r@, v) <==> input_indexed(input@, v),
        max_prefix_len < 32 ==> lens_at_most(r@, max_prefix_len),
        input@.len() == 0 ==> r@.len() == 0,
        inputs_canonical(input@, 32) ==> all_canonical(r@, 32),
        inputs_within(input@, r@, max_prefix_len, 32),
        r@.len() <= input@.len(),
        no_adjacent_siblings(r@, 32),
        ascending_ranges(r@, 32),
        no_siblings(r@, 32),
{
    lossless_aggregate(input, max_prefix_len, 32)
}

/// Lossless aggregation for IPv6 prefixes (see `lossless_aggregate_v4`).
pub fn lossless_aggregate_v6(input: Vec<(usize, Prefix)>, max_prefix_len: u8) -> (r: Vec<SourceMapPrefix>)
    requires
        inputs_wf(input@, 128),
    ensures
        all_wf(r@, 128),
        full_coverage(r@, 128),
        pairwise_disjoint(r@, 128),
        forall|x: int| covered(r@, 128, x) <==> input_covered(input@, max_prefix_len, 128, x),
        forall|v: usize| indexed(r@, v) <==> input_indexed(input@, v),
        max_prefix_len < 128 ==> lens_at_most(r@, max_prefix_len),
        input@.len() == 0 ==> r@.len() == 0,
        inputs_canonical(input@, 128) ==> all_canonical(r@, 128),
        inputs_within(input@, r@, max_prefix_len, 128),
        r@.len() <= input@.len(),
        no_adjacent_siblings(r@, 128),
        ascending_ranges(r@, 128),
        no_siblings(r@, 128),
{
    lossless_aggregate(input, max_prefix_len, 128)
}

} // verus!
