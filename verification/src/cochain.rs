//! Sparse cochains: finite integer combinations of basis elements of one degree.
use std::collections::HashMap;
use vstd::prelude::*;
use vstd::std_specs::iter::IteratorSpec;

use crate::sums::{
    coeff, in_i32, lemma_eq_by_coeff, lemma_prefix_lacks_next, lemma_seq_map_of_listing,
    lemma_take_step, lists_entries, seq_map,
};

verus! {

broadcast use vstd::std_specs::hash::group_hash_axioms;

/// A cochain as a linear combination of basis elements.
/// Stored as a sparse vector: basis index to coefficient; zero coefficients are not stored.
#[derive(Debug, Clone)]
pub struct Cochain {
    /// Degree of this cochain.
    pub degree: usize,
    /// Sparse representation: basis element index to coefficient.
    pub(crate) coefficients: HashMap<usize, i32>,
}

impl View for Cochain {
    type V = Map<usize, i32>;

    /// The nonzero coefficients, by basis index.
    closed spec fn view(&self) -> Map<usize, i32> {
        self.coefficients@
    }
}

/// Pointwise sum of two coefficient maps, keeping only nonzero results.
pub open spec fn sum_map(a: Map<usize, i32>, b: Map<usize, i32>) -> Map<usize, i32> {
    Map::new(|i: usize| coeff(a, i) + coeff(b, i) != 0, |i: usize| (coeff(a, i) + coeff(b, i)) as i32)
}

/// Every coefficient multiplied by `s`, keeping only nonzero results.
pub open spec fn scaled_map(a: Map<usize, i32>, s: i32) -> Map<usize, i32> {
    Map::new(|i: usize| coeff(a, i) * s != 0, |i: usize| (coeff(a, i) * s) as i32)
}

/// Every pointwise sum of `a` and `b` fits in an `i32`.
pub open spec fn add_fits(a: Map<usize, i32>, b: Map<usize, i32>) -> bool {
    forall|i: usize| #[trigger] in_i32(coeff(a, i) + coeff(b, i))
}

/// Every coefficient of `a` times `s` fits in an `i32`.
pub open spec fn scale_fits(a: Map<usize, i32>, s: i32) -> bool {
    forall|i: usize| a.contains_key(i) ==> #[trigger] in_i32(a[i] * s)
}

/// A coefficient map that stores no zero coefficient.
pub open spec fn nonzero_values(m: Map<usize, i32>) -> bool {
    forall|i: usize| m.contains_key(i) ==> m[i] != 0
}

/// The degree that contracts see is the degree field.
pub(crate) proof fn lemma_degree_field(c: &Cochain)
    ensures
        c.deg() == c.degree,
{
}

impl Cochain {
    /// The degree of the cochain, as contracts see it.
    pub closed spec fn deg(&self) -> usize {
        self.degree
    }

    /// The cochain stores no zero coefficient.
    pub open spec fn wf(&self) -> bool {
        nonzero_values(self@)
    }

    /// Create a zero cochain of given degree.
    pub fn zero(degree: usize) -> (c: Cochain)
        ensures
            c.wf(),
            c.deg() == degree,
            c@ == Map::<usize, i32>::empty(),
    {
        Cochain { degree, coefficients: HashMap::new() }
    }

    /// Create a cochain with a single basis element.
    pub fn basis(degree: usize, index: usize, coeff: i32) -> (c: Cochain)
        ensures
            c.wf(),
            c.deg() == degree,
            c@ == if coeff == 0 {
                Map::<usize, i32>::empty()
            } else {
                Map::<usize, i32>::empty().insert(index, coeff)
            },
    {
        let mut c = Self::zero(degree);
        if coeff != 0 {
            c.coefficients.insert(index, coeff);
        }
        c
    }

    /// A copy with the same degree and coefficients.
    pub(crate) fn duplicate(&self) -> (c: Cochain)
        ensures
            c.deg() == self.deg(),
            c@ == self@,
    {
        Cochain { degree: self.degree, coefficients: self.coefficients.clone() }
    }

    /// Store `value` at `index`, or drop the index when `value` is zero.
    pub(crate) fn set_coeff(&mut self, index: usize, value: i32)
        ensures
            final(self).deg() == old(self).deg(),
            final(self)@ == if value == 0 {
                old(self)@.remove(index)
            } else {
                old(self)@.insert(index, value)
            },
    {
        if value == 0 {
            self.coefficients.remove(&index);
        } else {
            self.coefficients.insert(index, value);
        }
    }

    /// All stored (index, coefficient) pairs, each once, in the map's order.
    pub(crate) fn entry_list(&self) -> (v: Vec<(usize, i32)>)
        ensures
            lists_entries(v@, self@),
    {
        let mut v: Vec<(usize, i32)> = Vec::new();
        let ghost s = vstd::std_specs::hash::spec_hash_map_iter(&self.coefficients).remaining();
        for (k, c) in it: self.coefficients.iter()
            invariant
                v.len() == it.index(),
                it.seq() == s,
                forall|i: int| 0 <= i < v.len() ==> v@[i] == (*s[i].0, *s[i].1),
        {
            v.push((*k, *c));
        }
        proof {
            let m = self.coefficients@;
            assert forall|i: int| 0 <= i < v.len() implies #[trigger] m.contains_key(v@[i].0)
                && m[v@[i].0] == v@[i].1 by {
                assert(m.contains_key(*s[i].0));
            }
            assert forall|i: int, j: int| 0 <= i < j < v.len() implies v@[i].0 != v@[j].0 by {
                assert(m.contains_key(*s[i].0));
                assert(m.contains_key(*s[j].0));
                assert(s[i] != s[j]);
            }
            assert forall|k: usize| #[trigger] m.contains_key(k) implies exists|i: int|
                0 <= i < v.len() && v@[i].0 == k by {
                assert(s.contains((&k, &m[k])));
                let i = choose|i: int| 0 <= i < s.len() && s[i] == (&k, &m[k]);
                assert(v@[i].0 == k);
            }
        }
        v
    }

    /// Add two cochains (same degree).
    pub fn add(&self, other: &Cochain) -> (r: Cochain)
        requires
            self.wf(),
            other.wf(),
            self.deg() == other.deg(),
            add_fits(self@, other@),
        ensures
            r.wf(),
            r.deg() == self.deg(),
            r@ == sum_map(self@, other@),
    {
        let mut result = Cochain { degree: self.degree, coefficients: self.coefficients.clone() };
        let entries = other.entry_list();
        let ghost s = entries@;
        for j in 0..entries.len()
            invariant
                entries@ == s,
                lists_entries(s, other@),
                add_fits(self@, other@),
                result.deg() == self.deg(),
                result.wf(),
                forall|i: usize| #[trigger] coeff(result@, i) == coeff(self@, i) + coeff(seq_map(s.take(j as int)), i),
        {
            let (idx, c) = entries[j];
            proof {
                lemma_prefix_lacks_next(s, j as int);
                lemma_take_step(s, |k: usize, v: i32| 0, j as int);
                assert(other@.contains_key(s[j as int].0));
                assert(in_i32(coeff(self@, idx) + coeff(other@, idx)));
                assert(coeff(result@, idx) == coeff(self@, idx));
            }
            let ghost before = result@;
            let cur = result.get(idx);
            let updated = cur + c;
            result.set_coeff(idx, updated);
            proof {
                let p1 = seq_map(s.take(j + 1));
                assert forall|i: usize| #[trigger] coeff(result@, i) == coeff(self@, i) + coeff(p1, i) by {
                    if i != idx {
                        assert(coeff(result@, i) == coeff(before, i)) by {
                            assert(result@.contains_key(i) == before.contains_key(i));
                        }
                    }
                }
            }
        }
        proof {
            assert(s.take(s.len() as int) =~= s);
            lemma_seq_map_of_listing(s, other@);
            assert forall|i: usize| #[trigger] coeff(result@, i) == coeff(sum_map(self@, other@), i) by {
                assert(in_i32(coeff(self@, i) + coeff(other@, i)));
            }
            assert forall|i: usize| sum_map(self@, other@).contains_key(i) implies sum_map(self@, other@)[i] != 0 by {
                assert(in_i32(coeff(self@, i) + coeff(other@, i)));
            }
            lemma_eq_by_coeff(result@, sum_map(self@, other@));
        }
        result
    }

    /// Scale a cochain by a scalar.
    pub fn scale(&self, scalar: i32) -> (r: Cochain)
        requires
            self.wf(),
            scale_fits(self@, scalar),
        ensures
            r.wf(),
            r.deg() == self.deg(),
            r@ == scaled_map(self@, scalar),
    {
        let mut result = Cochain::zero(self.degree);
        let entries = self.entry_list();
        let ghost s = entries@;
        for j in 0..entries.len()
            invariant
                entries@ == s,
                lists_entries(s, self@),
                scale_fits(self@, scalar),
                result.deg() == self.deg(),
                result.wf(),
                forall|i: usize| #[trigger] coeff(result@, i) == coeff(seq_map(s.take(j as int)), i) * scalar,
        {
            let (idx, c) = entries[j];
            proof {
                lemma_prefix_lacks_next(s, j as int);
                lemma_take_step(s, |k: usize, v: i32| 0, j as int);
                assert(self@.contains_key(s[j as int].0));
                assert(in_i32(self@[idx] * scalar));
            }
            let ghost before = result@;
            let new_coeff = c * scalar;
            if new_coeff != 0 {
                result.coefficients.insert(idx, new_coeff);
            }
            proof {
                let p1 = seq_map(s.take(j + 1));
                assert(!before.contains_key(idx)) by {
                    assert(coeff(before, idx) == coeff(seq_map(s.take(j as int)), idx) * scalar);
                }
                assert forall|i: usize| #[trigger] coeff(result@, i) == coeff(p1, i) * scalar by {
                    if i != idx {
                        assert(coeff(result@, i) == coeff(before, i)) by {
                            assert(result@.contains_key(i) == before.contains_key(i));
                        }
                    }
                }
            }
        }
        proof {
            assert(s.take(s.len() as int) =~= s);
            lemma_seq_map_of_listing(s, self@);
            assert forall|i: usize| #[trigger] coeff(result@, i) == coeff(scaled_map(self@, scalar), i) by {
                if self@.contains_key(i) {
                    assert(in_i32(self@[i] * scalar));
                }
            }
            assert forall|i: usize| scaled_map(self@, scalar).contains_key(i) implies scaled_map(self@, scalar)[i] != 0 by {
                if self@.contains_key(i) {
                    assert(in_i32(self@[i] * scalar));
                }
            }
            lemma_eq_by_coeff(result@, scaled_map(self@, scalar));
        }
        result
    }

    /// Check if this cochain is zero.
    pub fn is_zero(&self) -> (b: bool)
        ensures
            b == (self@ == Map::<usize, i32>::empty()),
            self.wf() ==> (b <==> forall|i: usize| coeff(self@, i) == 0),
    {
        let b = self.coefficients.is_empty();
        proof {
            if b {
                assert(self@ =~= Map::<usize, i32>::empty());
            } else {
                assert(self@ != Map::<usize, i32>::empty()) by {
                    let k = self@.dom().choose();
                    assert(self@.dom().contains(k));
                }
            }
            if self.wf() && !b {
                let k = self@.dom().choose();
                assert(self@.dom().contains(k));
                assert(coeff(self@, k) != 0);
            }
        }
        b
    }

    /// Get the coefficient at a given basis index.
    pub fn get(&self, index: usize) -> (c: i32)
        ensures
            c as int == coeff(self@, index),
    {
        match self.coefficients.get(&index) {
            Some(v) => *v,
            None => 0,
        }
    }

    /// Get the non-zero entries.
    pub fn entries(&self) -> (m: &HashMap<usize, i32>)
        ensures
            m@ == self@,
            self.wf() ==> forall|i: usize| m@.contains_key(i) ==> m@[i] != 0,
    {
        &self.coefficients
    }
}

/// Addition of cochains is commutative.
pub proof fn lemma_add_commutative(a: Map<usize, i32>, b: Map<usize, i32>)
    ensures
        sum_map(a, b) == sum_map(b, a),
{
    assert(sum_map(a, b) =~= sum_map(b, a));
}

/// Addition of cochains is associative, when the partial sums fit.
pub proof fn lemma_add_associative(a: Map<usize, i32>, b: Map<usize, i32>, c: Map<usize, i32>)
    requires
        add_fits(a, b),
        add_fits(b, c),
    ensures
        sum_map(sum_map(a, b), c) == sum_map(a, sum_map(b, c)),
{
    assert forall|i: usize| #[trigger] coeff(sum_map(a, b), i) == coeff(a, i) + coeff(b, i) by {
        assert(in_i32(coeff(a, i) + coeff(b, i)));
    }
    assert forall|i: usize| #[trigger] coeff(sum_map(b, c), i) == coeff(b, i) + coeff(c, i) by {
        assert(in_i32(coeff(b, i) + coeff(c, i)));
    }
    assert(sum_map(sum_map(a, b), c) =~= sum_map(a, sum_map(b, c)));
}

/// The zero cochain is neutral for addition.
pub proof fn lemma_add_zero(a: Map<usize, i32>)
    requires
        nonzero_values(a),
    ensures
        sum_map(a, Map::empty()) == a,
{
    assert(sum_map(a, Map::empty()) =~= a);
}

/// A cochain plus its negation is zero.
pub proof fn lemma_add_negation(a: Map<usize, i32>)
    requires
        scale_fits(a, -1i32),
    ensures
        sum_map(a, scaled_map(a, -1i32)) == Map::<usize, i32>::empty(),
{
    assert forall|i: usize| #[trigger] coeff(scaled_map(a, -1i32), i) == -coeff(a, i) by {
        if a.contains_key(i) {
            assert(in_i32(a[i] * -1));
        }
    }
    assert(sum_map(a, scaled_map(a, -1i32)) =~= Map::<usize, i32>::empty());
}

} // verus!
