//! Finite sums over sparse coefficient data.
//!
//! A sparse cochain is a finite map from basis indices to coefficients.
//! Executable code walks such a map in whatever order the hash map yields,
//! so the definitions here come in two flavours: sums over an explicit
//! sequence of `(index, coefficient)` pairs, and order-free sums over a map.
//! `lemma_seq_sum_matches_map_sum` ties the two together.
use vstd::prelude::*;

verus! {

/// The coefficient stored at `i`, or zero when `i` is absent.
pub open spec fn coeff(m: Map<usize, i32>, i: usize) -> int {
    if m.contains_key(i) {
        m[i] as int
    } else {
        0
    }
}

/// Whether `v` fits in an `i32`.
pub open spec fn in_i32(v: int) -> bool {
    i32::MIN <= v <= i32::MAX
}

/// The positive part of an integer.
pub open spec fn pos(v: int) -> int {
    if v > 0 {
        v
    } else {
        0
    }
}

/// The negative part of an integer.
pub open spec fn neg(v: int) -> int {
    if v < 0 {
        v
    } else {
        0
    }
}

/// The identity on integers, as a term transformer.
pub open spec fn identity() -> spec_fn(int) -> int {
    |v: int| v
}

/// Keeps the positive part of each term.
pub open spec fn positive() -> spec_fn(int) -> int {
    |v: int| pos(v)
}

/// Keeps the negative part of each term.
pub open spec fn negative() -> spec_fn(int) -> int {
    |v: int| neg(v)
}

/// Each entry's coefficient, as a summand.
pub open spec fn values() -> spec_fn(usize, i32) -> int {
    |k: usize, v: i32| v as int
}

/// Each entry's positive part, as a summand.
pub open spec fn positive_values() -> spec_fn(usize, i32) -> int {
    |k: usize, v: i32| pos(v as int)
}

/// Each entry's negative part, as a summand.
pub open spec fn negative_values() -> spec_fn(usize, i32) -> int {
    |k: usize, v: i32| neg(v as int)
}

/// Sum of `f` over a sequence of (index, coefficient) pairs, left to right.
pub open spec fn seq_sum(s: Seq<(usize, i32)>, f: spec_fn(usize, i32) -> int) -> int
    decreases s.len(),
{
    if s.len() == 0 {
        0
    } else {
        seq_sum(s.drop_last(), f) + f(s.last().0, s.last().1)
    }
}

/// Sum of `f` over the entries of `m` whose index is below `n`.
pub open spec fn sum_below(m: Map<usize, i32>, f: spec_fn(usize, i32) -> int, n: nat) -> int
    decreases n,
{
    if n == 0 {
        0
    } else {
        let k = n - 1;
        sum_below(m, f, (n - 1) as nat) + if k <= usize::MAX && m.contains_key(k as usize) {
            f(k as usize, m[k as usize])
        } else {
            0
        }
    }
}

/// Sum of `f` over all entries of `m`; it does not depend on any ordering.
pub open spec fn map_sum(m: Map<usize, i32>, f: spec_fn(usize, i32) -> int) -> int {
    sum_below(m, f, usize::MAX as nat + 1)
}

/// The map built from a sequence of pairs, later pairs overriding earlier ones.
pub open spec fn seq_map(s: Seq<(usize, i32)>) -> Map<usize, i32>
    decreases s.len(),
{
    if s.len() == 0 {
        Map::empty()
    } else {
        seq_map(s.drop_last()).insert(s.last().0, s.last().1)
    }
}

/// `s` lists every entry of `m` exactly once, in some order.
pub open spec fn lists_entries(s: Seq<(usize, i32)>, m: Map<usize, i32>) -> bool {
    &&& forall|i: int| 0 <= i < s.len() ==> #[trigger] m.contains_key(s[i].0) && m[s[i].0] == s[i].1
    &&& forall|i: int, j: int| 0 <= i < j < s.len() ==> s[i].0 != s[j].0
    &&& forall|k: usize| #[trigger] m.contains_key(k) ==> exists|i: int| 0 <= i < s.len() && s[i].0 == k
}

pub proof fn lemma_sum_below_remove(m: Map<usize, i32>, f: spec_fn(usize, i32) -> int, n: nat, k: usize)
    requires
        n <= usize::MAX as nat + 1,
    ensures
        sum_below(m, f, n) == sum_below(m.remove(k), f, n) + if k < n && m.contains_key(k) {
            f(k, m[k])
        } else {
            0
        },
    decreases n,
{
    if n > 0 {
        lemma_sum_below_remove(m, f, (n - 1) as nat, k);
    }
}

pub proof fn lemma_sum_below_empty(f: spec_fn(usize, i32) -> int, n: nat)
    ensures
        sum_below(Map::empty(), f, n) == 0,
    decreases n,
{
    if n > 0 {
        lemma_sum_below_empty(f, (n - 1) as nat);
    }
}

/// Removing one entry from a map takes its term out of the sum.
pub proof fn lemma_map_sum_remove(m: Map<usize, i32>, f: spec_fn(usize, i32) -> int, k: usize)
    requires
        m.contains_key(k),
    ensures
        map_sum(m, f) == map_sum(m.remove(k), f) + f(k, m[k]),
{
    lemma_sum_below_remove(m, f, usize::MAX as nat + 1, k);
}

pub proof fn lemma_map_sum_empty(f: spec_fn(usize, i32) -> int)
    ensures
        map_sum(Map::empty(), f) == 0,
{
    lemma_sum_below_empty(f, usize::MAX as nat + 1);
}

/// The sum of a one-entry map is its single term.
pub proof fn lemma_map_sum_single(f: spec_fn(usize, i32) -> int, k: usize, v: i32)
    ensures
        map_sum(Map::empty().insert(k, v), f) == f(k, v),
{
    let m = Map::<usize, i32>::empty().insert(k, v);
    lemma_map_sum_remove(m, f, k);
    assert(m.remove(k) =~= Map::empty());
    lemma_map_sum_empty(f);
}

/// Dropping the last pair of a listing lists the map without that entry.
pub proof fn lemma_lists_entries_drop_last(s: Seq<(usize, i32)>, m: Map<usize, i32>)
    requires
        lists_entries(s, m),
        s.len() > 0,
    ensures
        lists_entries(s.drop_last(), m.remove(s.last().0)),
        m.contains_key(s.last().0),
        m[s.last().0] == s.last().1,
{
    let k = s.last().0;
    let t = s.drop_last();
    let m2 = m.remove(k);
    assert(m.contains_key(s[s.len() - 1].0));
    assert forall|i: int| 0 <= i < t.len() implies #[trigger] m2.contains_key(t[i].0) && m2[t[i].0]
        == t[i].1 by {
        assert(m.contains_key(s[i].0));
        assert(s[i].0 != s[s.len() - 1].0);
    }
    assert forall|k2: usize| #[trigger] m2.contains_key(k2) implies exists|i: int|
        0 <= i < t.len() && t[i].0 == k2 by {
        assert(m.contains_key(k2));
        let i = choose|i: int| 0 <= i < s.len() && s[i].0 == k2;
        assert(i != s.len() - 1);
        assert(t[i].0 == k2);
    }
}

/// Summing along any listing of a map gives the map's sum.
pub proof fn lemma_seq_sum_matches_map_sum(s: Seq<(usize, i32)>, m: Map<usize, i32>, f: spec_fn(usize, i32) -> int)
    requires
        lists_entries(s, m),
    ensures
        seq_sum(s, f) == map_sum(m, f),
    decreases s.len(),
{
    if s.len() == 0 {
        assert forall|k: usize| !m.contains_key(k) by {
            if m.contains_key(k) {
                let i = choose|i: int| 0 <= i < s.len() && s[i].0 == k;
            }
        }
        assert(m =~= Map::empty());
        lemma_map_sum_empty(f);
    } else {
        lemma_lists_entries_drop_last(s, m);
        lemma_seq_sum_matches_map_sum(s.drop_last(), m.remove(s.last().0), f);
        lemma_map_sum_remove(m, f, s.last().0);
    }
}

/// The map built from a listing of `m` is `m` itself.
pub proof fn lemma_seq_map_of_listing(s: Seq<(usize, i32)>, m: Map<usize, i32>)
    requires
        lists_entries(s, m),
    ensures
        seq_map(s) == m,
    decreases s.len(),
{
    if s.len() == 0 {
        assert forall|k: usize| !m.contains_key(k) by {
            if m.contains_key(k) {
                let i = choose|i: int| 0 <= i < s.len() && s[i].0 == k;
            }
        }
        assert(m =~= Map::empty());
    } else {
        lemma_lists_entries_drop_last(s, m);
        lemma_seq_map_of_listing(s.drop_last(), m.remove(s.last().0));
        assert(m.remove(s.last().0).insert(s.last().0, s.last().1) =~= m);
    }
}

/// A key that no pair of `s` carries is absent from `seq_map(s)`.
pub proof fn lemma_seq_map_absent(s: Seq<(usize, i32)>, k: usize)
    requires
        forall|i: int| 0 <= i < s.len() ==> s[i].0 != k,
    ensures
        !seq_map(s).contains_key(k),
    decreases s.len(),
{
    if s.len() > 0 {
        assert(s[s.len() - 1].0 != k);
        lemma_seq_map_absent(s.drop_last(), k);
    }
}

/// Extending a prefix by one pair extends its sum and its map by that pair.
pub proof fn lemma_take_step(s: Seq<(usize, i32)>, f: spec_fn(usize, i32) -> int, j: int)
    requires
        0 <= j < s.len(),
    ensures
        seq_sum(s.take(j + 1), f) == seq_sum(s.take(j), f) + f(s[j].0, s[j].1),
        seq_map(s.take(j + 1)) == seq_map(s.take(j)).insert(s[j].0, s[j].1),
{
    assert(s.take(j + 1).drop_last() =~= s.take(j));
}

/// Within a listing with distinct keys, a prefix does not yet hold the next key.
pub proof fn lemma_prefix_lacks_next(s: Seq<(usize, i32)>, j: int)
    requires
        0 <= j < s.len(),
        forall|a: int, b: int| 0 <= a < b < s.len() ==> s[a].0 != s[b].0,
    ensures
        !seq_map(s.take(j)).contains_key(s[j].0),
{
    let t = s.take(j);
    assert forall|i: int| 0 <= i < t.len() implies t[i].0 != s[j].0 by {
        assert(t[i] == s[i]);
    }
    lemma_seq_map_absent(t, s[j].0);
}

/// A sum whose terms are pointwise the sum of two others splits accordingly.
pub proof fn lemma_seq_sum_split(
    s: Seq<(usize, i32)>,
    f: spec_fn(usize, i32) -> int,
    g: spec_fn(usize, i32) -> int,
    h: spec_fn(usize, i32) -> int,
)
    requires
        forall|k: usize, v: i32| #[trigger] f(k, v) == g(k, v) + h(k, v),
    ensures
        seq_sum(s, f) == seq_sum(s, g) + seq_sum(s, h),
    decreases s.len(),
{
    if s.len() > 0 {
        lemma_seq_sum_split(s.drop_last(), f, g, h);
        assert(f(s.last().0, s.last().1) == g(s.last().0, s.last().1) + h(s.last().0, s.last().1));
    }
}

/// With nonnegative terms, a prefix sum is at most the whole sum.
pub proof fn lemma_prefix_sum_le(s: Seq<(usize, i32)>, f: spec_fn(usize, i32) -> int, j: int)
    requires
        0 <= j <= s.len(),
        forall|i: int| 0 <= i < s.len() ==> #[trigger] f(s[i].0, s[i].1) >= 0,
    ensures
        0 <= seq_sum(s.take(j), f) <= seq_sum(s, f),
    decreases s.len() - j,
{
    let t = s.take(j);
    assert forall|i: int| 0 <= i < t.len() implies #[trigger] f(t[i].0, t[i].1) >= 0 by {
        assert(t[i] == s[i]);
    }
    lemma_seq_sum_nonneg(t, f);
    if j < s.len() {
        lemma_prefix_sum_le(s, f, j + 1);
        lemma_take_step(s, f, j);
        assert(f(s[j].0, s[j].1) >= 0);
    } else {
        assert(s.take(j) =~= s);
        lemma_seq_sum_nonneg(s, f);
    }
}

pub proof fn lemma_seq_sum_nonneg(s: Seq<(usize, i32)>, f: spec_fn(usize, i32) -> int)
    requires
        forall|i: int| 0 <= i < s.len() ==> #[trigger] f(s[i].0, s[i].1) >= 0,
    ensures
        seq_sum(s, f) >= 0,
    decreases s.len(),
{
    if s.len() > 0 {
        let t = s.drop_last();
        assert forall|i: int| 0 <= i < t.len() implies #[trigger] f(t[i].0, t[i].1) >= 0 by {
            assert(t[i] == s[i]);
        }
        lemma_seq_sum_nonneg(t, f);
        assert(f(s[s.len() - 1].0, s[s.len() - 1].1) >= 0);
    }
}

/// With nonpositive terms, a prefix sum is at least the whole sum.
pub proof fn lemma_prefix_sum_ge(s: Seq<(usize, i32)>, f: spec_fn(usize, i32) -> int, j: int)
    requires
        0 <= j <= s.len(),
        forall|i: int| 0 <= i < s.len() ==> #[trigger] f(s[i].0, s[i].1) <= 0,
    ensures
        seq_sum(s, f) <= seq_sum(s.take(j), f) <= 0,
    decreases s.len() - j,
{
    let t = s.take(j);
    assert forall|i: int| 0 <= i < t.len() implies #[trigger] f(t[i].0, t[i].1) <= 0 by {
        assert(t[i] == s[i]);
    }
    lemma_seq_sum_nonpos(t, f);
    if j < s.len() {
        lemma_prefix_sum_ge(s, f, j + 1);
        lemma_take_step(s, f, j);
        assert(f(s[j].0, s[j].1) <= 0);
    } else {
        assert(s.take(j) =~= s);
        lemma_seq_sum_nonpos(s, f);
    }
}

pub proof fn lemma_seq_sum_nonpos(s: Seq<(usize, i32)>, f: spec_fn(usize, i32) -> int)
    requires
        forall|i: int| 0 <= i < s.len() ==> #[trigger] f(s[i].0, s[i].1) <= 0,
    ensures
        seq_sum(s, f) <= 0,
    decreases s.len(),
{
    if s.len() > 0 {
        let t = s.drop_last();
        assert forall|i: int| 0 <= i < t.len() implies #[trigger] f(t[i].0, t[i].1) <= 0 by {
            assert(t[i] == s[i]);
        }
        lemma_seq_sum_nonpos(t, f);
        assert(f(s[s.len() - 1].0, s[s.len() - 1].1) <= 0);
    }
}

/// Two maps without zero values are equal when their coefficients agree.
pub proof fn lemma_eq_by_coeff(m1: Map<usize, i32>, m2: Map<usize, i32>)
    requires
        forall|i: usize| m1.contains_key(i) ==> m1[i] != 0,
        forall|i: usize| m2.contains_key(i) ==> m2[i] != 0,
        forall|i: usize| #[trigger] coeff(m1, i) == coeff(m2, i),
    ensures
        m1 == m2,
{
    assert forall|i: usize| m1.contains_key(i) <==> m2.contains_key(i) by {
        assert(coeff(m1, i) == coeff(m2, i));
    }
    assert forall|i: usize| m1.contains_key(i) implies m1[i] == m2[i] by {
        assert(coeff(m1, i) == coeff(m2, i));
    }
    assert(m1 =~= m2);
}

/// When every coefficient of `m1` is `lambda` times that of `m2`, so is the total.
pub proof fn lemma_sum_below_scaled(m1: Map<usize, i32>, m2: Map<usize, i32>, lambda: int, n: nat)
    requires
        forall|i: usize| #[trigger] coeff(m1, i) == lambda * coeff(m2, i),
    ensures
        sum_below(m1, values(), n) == lambda * sum_below(m2, values(), n),
    decreases n,
{
    if n > 0 {
        lemma_sum_below_scaled(m1, m2, lambda, (n - 1) as nat);
        let k = n - 1;
        let a = sum_below(m2, values(), (n - 1) as nat);
        let t = if k <= usize::MAX && m2.contains_key(k as usize) {
            m2[k as usize] as int
        } else {
            0
        };
        if k <= usize::MAX {
            assert(coeff(m1, k as usize) == lambda * coeff(m2, k as usize));
        }
        assert(lambda * a + lambda * t == lambda * (a + t)) by (nonlinear_arith);
    }
}

/// When every coefficient of `m1` is `lambda` times that of `m2`, so is the total.
pub proof fn lemma_map_sum_scaled(m1: Map<usize, i32>, m2: Map<usize, i32>, lambda: int)
    requires
        forall|i: usize| #[trigger] coeff(m1, i) == lambda * coeff(m2, i),
    ensures
        map_sum(m1, values()) == lambda * map_sum(m2, values()),
{
    lemma_sum_below_scaled(m1, m2, lambda, usize::MAX as nat + 1);
}

/// A sum of terms that are all zero is zero.
pub proof fn lemma_map_sum_zero_terms(m: Map<usize, i32>, f: spec_fn(usize, i32) -> int)
    requires
        forall|k: usize, v: i32| #[trigger] f(k, v) == 0,
    ensures
        map_sum(m, f) == 0,
{
    lemma_sum_below_zero_terms(m, f, usize::MAX as nat + 1);
}

proof fn lemma_sum_below_zero_terms(m: Map<usize, i32>, f: spec_fn(usize, i32) -> int, n: nat)
    requires
        forall|k: usize, v: i32| #[trigger] f(k, v) == 0,
    ensures
        sum_below(m, f, n) == 0,
    decreases n,
{
    if n > 0 {
        lemma_sum_below_zero_terms(m, f, (n - 1) as nat);
        let k = n - 1;
        if k <= usize::MAX && m.contains_key(k as usize) {
            assert(f(k as usize, m[k as usize]) == 0);
        }
    }
}

/// The total of a map with at most the one index `i` is its coefficient at `i`.
pub proof fn lemma_map_sum_at_most_one(m: Map<usize, i32>, i: usize)
    requires
        forall|k: usize| m.contains_key(k) ==> k == i,
    ensures
        map_sum(m, values()) == coeff(m, i),
{
    if m.contains_key(i) {
        assert(m =~= Map::empty().insert(i, m[i]));
        lemma_map_sum_single(values(), i, m[i]);
    } else {
        assert(m =~= Map::empty());
        lemma_map_sum_empty(values());
    }
}

/// A map sum whose terms are pointwise the sum of two others splits accordingly.
pub proof fn lemma_map_sum_split(
    m: Map<usize, i32>,
    f: spec_fn(usize, i32) -> int,
    g: spec_fn(usize, i32) -> int,
    h: spec_fn(usize, i32) -> int,
)
    requires
        forall|k: usize, v: i32| #[trigger] f(k, v) == g(k, v) + h(k, v),
    ensures
        map_sum(m, f) == map_sum(m, g) + map_sum(m, h),
{
    lemma_sum_below_split(m, f, g, h, usize::MAX as nat + 1);
}

proof fn lemma_sum_below_split(
    m: Map<usize, i32>,
    f: spec_fn(usize, i32) -> int,
    g: spec_fn(usize, i32) -> int,
    h: spec_fn(usize, i32) -> int,
    n: nat,
)
    requires
        forall|k: usize, v: i32| #[trigger] f(k, v) == g(k, v) + h(k, v),
    ensures
        sum_below(m, f, n) == sum_below(m, g, n) + sum_below(m, h, n),
    decreases n,
{
    if n > 0 {
        lemma_sum_below_split(m, f, g, h, (n - 1) as nat);
        let k = n - 1;
        if k <= usize::MAX && m.contains_key(k as usize) {
            assert(f(k as usize, m[k as usize]) == g(k as usize, m[k as usize]) + h(k as usize, m[k as usize]));
        }
    }
}

/// A map sum of nonnegative terms is nonnegative, and of nonpositive terms nonpositive.
pub proof fn lemma_map_sum_sign(m: Map<usize, i32>, f: spec_fn(usize, i32) -> int, nonneg: bool)
    requires
        forall|k: usize, v: i32| if nonneg { #[trigger] f(k, v) >= 0 } else { f(k, v) <= 0 },
    ensures
        if nonneg { map_sum(m, f) >= 0 } else { map_sum(m, f) <= 0 },
{
    lemma_sum_below_sign(m, f, nonneg, usize::MAX as nat + 1);
}

proof fn lemma_sum_below_sign(m: Map<usize, i32>, f: spec_fn(usize, i32) -> int, nonneg: bool, n: nat)
    requires
        forall|k: usize, v: i32| if nonneg { #[trigger] f(k, v) >= 0 } else { f(k, v) <= 0 },
    ensures
        if nonneg { sum_below(m, f, n) >= 0 } else { sum_below(m, f, n) <= 0 },
    decreases n,
{
    if n > 0 {
        lemma_sum_below_sign(m, f, nonneg, (n - 1) as nat);
        let k = n - 1;
        if k <= usize::MAX && m.contains_key(k as usize) {
            let t = f(k as usize, m[k as usize]);
        }
    }
}

/// The sum f(0) + f(1) + ... + f(n - 1).
pub open spec fn range_sum(f: spec_fn(int) -> int, n: nat) -> int
    decreases n,
{
    if n == 0 {
        0
    } else {
        range_sum(f, (n - 1) as nat) + f(n - 1)
    }
}

/// The terms of `sum_below(m, f, _)`, indexed by integers.
pub open spec fn map_terms(m: Map<usize, i32>, f: spec_fn(usize, i32) -> int) -> spec_fn(int) -> int {
    |s: int|
        if 0 <= s <= usize::MAX && m.contains_key(s as usize) {
            f(s as usize, m[s as usize])
        } else {
            0
        }
}

/// A sum over the indices of a map is a range sum of its terms.
pub proof fn lemma_sum_below_as_range(m: Map<usize, i32>, f: spec_fn(usize, i32) -> int, n: nat)
    ensures
        sum_below(m, f, n) == range_sum(map_terms(m, f), n),
    decreases n,
{
    if n > 0 {
        lemma_sum_below_as_range(m, f, (n - 1) as nat);
    }
}

/// Range sums of pointwise equal terms are equal.
pub proof fn lemma_range_sum_ext(f: spec_fn(int) -> int, g: spec_fn(int) -> int, n: nat)
    requires
        forall|i: int| 0 <= i < n ==> #[trigger] f(i) == g(i),
    ensures
        range_sum(f, n) == range_sum(g, n),
    decreases n,
{
    if n > 0 {
        lemma_range_sum_ext(f, g, (n - 1) as nat);
        assert(f(n - 1) == g(n - 1));
    }
}

/// Range sums are additive in their terms.
pub proof fn lemma_range_sum_add(f: spec_fn(int) -> int, g: spec_fn(int) -> int, h: spec_fn(int) -> int, n: nat)
    requires
        forall|i: int| 0 <= i < n ==> #[trigger] f(i) == g(i) + h(i),
    ensures
        range_sum(f, n) == range_sum(g, n) + range_sum(h, n),
    decreases n,
{
    if n > 0 {
        lemma_range_sum_add(f, g, h, (n - 1) as nat);
        assert(f(n - 1) == g(n - 1) + h(n - 1));
    }
}

/// A constant factor comes out of a range sum.
pub proof fn lemma_range_sum_scale(f: spec_fn(int) -> int, g: spec_fn(int) -> int, c: int, n: nat)
    requires
        forall|i: int| 0 <= i < n ==> #[trigger] f(i) == g(i) * c,
    ensures
        range_sum(f, n) == range_sum(g, n) * c,
    decreases n,
{
    if n > 0 {
        lemma_range_sum_scale(f, g, c, (n - 1) as nat);
        let a = range_sum(g, (n - 1) as nat);
        let b = g(n - 1);
        assert(f(n - 1) == b * c);
        assert(a * c + b * c == (a + b) * c) by (nonlinear_arith);
    }
}

/// The order of two nested range sums can be exchanged.
pub proof fn lemma_range_sum_swap(f: spec_fn(int, int) -> int, n: nat, m: nat)
    ensures
        range_sum(|s: int| range_sum(|b: int| f(b, s), m), n) == range_sum(
            |b: int| range_sum(|s: int| f(b, s), n),
            m,
        ),
    decreases n,
{
    let lhs_terms = |s: int| range_sum(|b: int| f(b, s), m);
    let outer = |b: int| range_sum(|s: int| f(b, s), n);
    if n == 0 {
        lemma_range_sum_scale(outer, outer, 0, m);
    } else {
        lemma_range_sum_swap(f, (n - 1) as nat, m);
        let outer_prev = |b: int| range_sum(|s: int| f(b, s), (n - 1) as nat);
        let last = |b: int| f(b, n - 1);
        assert forall|b: int| 0 <= b < m implies #[trigger] outer(b) == outer_prev(b) + last(b) by {}
        lemma_range_sum_add(outer, outer_prev, last, m);
        assert(lhs_terms(n - 1) == range_sum(last, m)) by {
            assert((|b: int| f(b, n - 1)) =~= last);
        }
        assert(range_sum(lhs_terms, n) == range_sum(lhs_terms, (n - 1) as nat) + lhs_terms(n - 1));
    }
}

/// A range sum of even terms is even.
pub proof fn lemma_range_sum_even(f: spec_fn(int) -> int, n: nat)
    requires
        forall|i: int| 0 <= i < n ==> #[trigger] f(i) % 2 == 0,
    ensures
        range_sum(f, n) % 2 == 0,
    decreases n,
{
    if n > 0 {
        lemma_range_sum_even(f, (n - 1) as nat);
        assert(f(n - 1) % 2 == 0);
    }
}

/// Range sums of terms with equal parities have equal parities.
pub proof fn lemma_range_sum_parity(f: spec_fn(int) -> int, g: spec_fn(int) -> int, n: nat)
    requires
        forall|i: int| 0 <= i < n ==> #[trigger] f(i) % 2 == g(i) % 2,
    ensures
        range_sum(f, n) % 2 == range_sum(g, n) % 2,
    decreases n,
{
    if n > 0 {
        lemma_range_sum_parity(f, g, (n - 1) as nat);
        assert(f(n - 1) % 2 == g(n - 1) % 2);
    }
}

/// Indices at or above `n1` that the map lacks add nothing to its sum.
pub proof fn lemma_sum_below_no_keys_above(m: Map<usize, i32>, f: spec_fn(usize, i32) -> int, n1: nat, n2: nat)
    requires
        n1 <= n2,
        forall|k: usize| #[trigger] m.contains_key(k) ==> k < n1,
    ensures
        sum_below(m, f, n2) == sum_below(m, f, n1),
    decreases n2,
{
    if n2 > n1 {
        lemma_sum_below_no_keys_above(m, f, n1, (n2 - 1) as nat);
    }
}

/// A sum whose terms vanish on every entry of the map is zero.
pub proof fn lemma_map_sum_zero_on_entries(m: Map<usize, i32>, f: spec_fn(usize, i32) -> int)
    requires
        forall|k: usize| #[trigger] m.contains_key(k) ==> f(k, m[k]) == 0,
    ensures
        map_sum(m, f) == 0,
{
    lemma_sum_below_zero_on_entries(m, f, usize::MAX as nat + 1);
}

proof fn lemma_sum_below_zero_on_entries(m: Map<usize, i32>, f: spec_fn(usize, i32) -> int, n: nat)
    requires
        forall|k: usize| #[trigger] m.contains_key(k) ==> f(k, m[k]) == 0,
    ensures
        sum_below(m, f, n) == 0,
    decreases n,
{
    if n > 0 {
        lemma_sum_below_zero_on_entries(m, f, (n - 1) as nat);
        let k = n - 1;
        if k <= usize::MAX && m.contains_key(k as usize) {
            assert(f(k as usize, m[k as usize]) == 0);
        }
    }
}

} // verus!
