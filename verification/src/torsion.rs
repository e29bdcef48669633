//! The torsion of the cokernel of an integer matrix, read off its Smith normal form.
use vstd::prelude::*;

use crate::primes::{factorize, prime_powers};
use crate::rank::rows_view;
use crate::smith::{equivalent, int_entries, is_smith_form, smaller, smith_diagonal};

verus! {

/// The pairs as natural numbers.
pub open spec fn pairs_view(t: Seq<(usize, usize)>) -> Seq<(nat, nat)> {
    Seq::new(t.len(), |i: int| (t[i].0 as nat, t[i].1 as nat))
}

/// The torsion that the diagonal entries `ds` of a Smith normal form give: the
/// prime-power factors of each entry above one, entry by entry.
pub open spec fn torsion_of(ds: Seq<int>) -> Seq<(nat, nat)>
    decreases ds.len(),
{
    if ds.len() == 0 {
        Seq::empty()
    } else {
        torsion_of(ds.drop_last()) + if ds.last() > 1 {
            prime_powers(ds.last() as nat)
        } else {
            Seq::empty()
        }
    }
}

/// The first `k` diagonal entries of `d`.
pub open spec fn diagonal(d: Seq<Seq<int>>, k: int) -> Seq<int> {
    Seq::new(k as nat, |i: int| d[i][i])
}

/// `tors` is the torsion of the cokernel of `m` (`n` rows, `c` columns): the prime-power
/// factors of the invariant factors above one of a Smith normal form of `m`.
pub open spec fn is_cokernel_torsion(m: Seq<Seq<i32>>, n: int, c: int, tors: Seq<(nat, nat)>) -> bool {
    exists|d: Seq<Seq<int>>|
        #[trigger] is_smith_form(d, n, c) && equivalent(int_entries(m), d, n, c) && tors == torsion_of(
            diagonal(d, smaller(n, c)),
        )
}

/// The torsion of the cokernel of an integer matrix with rows of length `m`: `None`
/// where the Smith reduction would take an entry out of the `i64` range, or an
/// invariant factor out of the `usize` range.
pub fn cokernel_torsion(matrix: &Vec<Vec<i32>>, m: usize) -> (r: Option<Vec<(usize, usize)>>)
    requires
        forall|i: int| 0 <= i < matrix.len() ==> (#[trigger] matrix@[i])@.len() == m,
    ensures
        r matches Some(t) ==> is_cokernel_torsion(rows_view(matrix@), matrix.len() as int, m as int, pairs_view(t@)),
{
    let ds = match smith_diagonal(matrix, m) {
        Some(ds) => ds,
        None => {
            return None;
        },
    };
    let ghost d = choose|d: Seq<Seq<int>>|
        #[trigger] is_smith_form(d, matrix.len() as int, m as int) && equivalent(
            int_entries(rows_view(matrix@)),
            d,
            matrix.len() as int,
            m as int,
        ) && ds@.len() == smaller(matrix.len() as int, m as int) && forall|i: int|
            0 <= i < ds@.len() ==> ds@[i] as int == d[i][i];
    let ghost diag = diagonal(d, smaller(matrix.len() as int, m as int));
    let mut out: Vec<(usize, usize)> = Vec::new();
    for i in 0..ds.len()
        invariant
            diag.len() == ds@.len(),
            forall|k: int| 0 <= k < ds@.len() ==> ds@[k] as int == #[trigger] diag[k],
            pairs_view(out@) == torsion_of(diag.take(i as int)),
    {
        let x = ds[i];
        let ghost before = out@;
        proof {
            assert(diag.take(i + 1).drop_last() =~= diag.take(i as int));
        }
        if x > 1 {
            if x as u64 > usize::MAX as u64 {
                return None;
            }
            let xu = x as usize;
            assert(xu as nat == x as nat);
            let f = factorize(xu);
            for j in 0..f.len()
                invariant
                    pairs_view(out@) == pairs_view(before) + prime_powers(x as nat).take(j as int),
                    f@.len() == prime_powers(x as nat).len(),
                    forall|q: int|
                        0 <= q < f@.len() ==> (f@[q].0 as nat, f@[q].1 as nat) == #[trigger] prime_powers(
                            x as nat,
                        )[q],
            {
                let ghost mid = out@;
                out.push(f[j]);
                proof {
                    assert(pairs_view(out@) =~= pairs_view(mid).push((f@[j as int].0 as nat, f@[j as int].1 as nat)));
                    assert(prime_powers(x as nat).take(j + 1) =~= prime_powers(x as nat).take(j as int).push(
                        prime_powers(x as nat)[j as int],
                    ));
                    assert(pairs_view(out@) =~= pairs_view(before) + prime_powers(x as nat).take(j + 1));
                }
            }
            proof {
                assert(prime_powers(x as nat).take(f@.len() as int) =~= prime_powers(x as nat));
            }
        }
    }
    proof {
        assert(diag.take(ds@.len() as int) =~= diag);
    }
    Some(out)
}

} // verus!
