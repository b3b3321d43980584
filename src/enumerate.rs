use crate::orbits::{count_components_with_orientability, orbit_counts};
use crate::permutation::SignedPermutation;
use crate::transition::space_size;
use gcd::Gcd;
use rayon::iter::{IndexedParallelIterator, IntoParallelRefIterator, ParallelIterator};
use vstd::prelude::*;

verus! {

/// The greatest common divisor, by Euclid's recursion.
pub open spec fn gcd(a: nat, b: nat) -> nat
    decreases b,
{
    if b == 0 {
        a
    } else {
        gcd(b, a % b)
    }
}

/// `(m, n)` is enumerated under `complexity`: both are positive, `m + n`
/// is below the bound and coprime to `n`.
pub open spec fn is_enumerated(complexity: int, m: int, n: int) -> bool {
    &&& m >= 1
    &&& n >= 1
    &&& m + n < complexity
    &&& gcd((m + n) as nat, n as nat) == 1
}

/// The pair `(m, n)` occurs in the list.
pub open spec fn lists_pair(s: Seq<(usize, usize)>, m: int, n: int) -> bool {
    exists|i: int| 0 <= i < s.len() && s[i].0 == m && s[i].1 == n
}

/// The pair `(m, n)` occurs in the report.
pub open spec fn reports_pair(s: Seq<((usize, usize), (usize, usize))>, m: int, n: int) -> bool {
    exists|i: int| 0 <= i < s.len() && s[i].0.0 == m && s[i].0.1 == n
}

/// Relies on gcd's `Gcd::gcd_binary` for `usize`: it returns the greatest
/// common divisor of its two arguments.
#[verifier::external_body]
fn gcd_of(a: usize, b: usize) -> (r: usize)
    ensures
        r == gcd(a as nat, b as nat),
{
    a.gcd_binary(b)
}

/// Relies on rayon's `par_iter().map(..).collect_into_vec(..)`: the map runs
/// once for each pair and the results keep the pairs' order.
#[verifier::external_body]
fn count_each(perm: &SignedPermutation, pairs: &Vec<(usize, usize)>) -> (r: Vec<(usize, usize)>)
    requires
        perm.wf(),
        forall|i: int|
            0 <= i < pairs@.len() ==> space_size(*perm, pairs@[i].0 as int, pairs@[i].1 as int)
                <= usize::MAX,
    ensures
        r@.len() == pairs@.len(),
        forall|i: int|
            0 <= i < pairs@.len() ==> r@[i].0 == orbit_counts(
                *perm,
                pairs@[i].0 as int,
                pairs@[i].1 as int,
            ).0 && r@[i].1 == orbit_counts(*perm, pairs@[i].0 as int, pairs@[i].1 as int).1,
{
    let mut counts = Vec::new();
    pairs.par_iter().map(|&(m, n)| count_components_with_orientability(perm, m, n)).collect_into_vec(
        &mut counts,
    );
    counts
}

/// Every pair `(m, n)` with `m, n >= 1`, `m + n < complexity` and
/// `gcd(m + n, n) == 1`, each once.
pub fn coprime_pairs(complexity: usize) -> (r: Vec<(usize, usize)>)
    ensures
        forall|i: int| 0 <= i < r@.len() ==> is_enumerated(complexity as int, r@[i].0 as int, r@[i].1 as int),
        forall|m: int, n: int|
            is_enumerated(complexity as int, m, n) ==> #[trigger] lists_pair(r@, m, n),
        forall|i: int, j: int| 0 <= i < r@.len() && 0 <= j < r@.len() && i != j ==> r@[i] != r@[j],
{
    let mut pairs: Vec<(usize, usize)> = Vec::new();
    let mut k: usize = 2;
    while k < complexity
        invariant
            2 <= k,
            forall|i: int|
                0 <= i < pairs@.len() ==> is_enumerated(complexity as int, pairs@[i].0 as int, pairs@[i].1 as int)
                    && pairs@[i].0 + pairs@[i].1 < k,
            forall|m: int, n: int|
                is_enumerated(complexity as int, m, n) && m + n < k ==> #[trigger] lists_pair(
                    pairs@,
                    m,
                    n,
                ),
            forall|i: int, j: int|
                0 <= i < pairs@.len() && 0 <= j < pairs@.len() && i != j ==> pairs@[i] != pairs@[j],
        decreases complexity - k,
    {
        let mut n: usize = 1;
        while n < k
            invariant
                2 <= k < complexity,
                1 <= n <= k,
                forall|i: int|
                    0 <= i < pairs@.len() ==> is_enumerated(complexity as int, pairs@[i].0 as int, pairs@[i].1 as int)
                        && (pairs@[i].0 + pairs@[i].1 < k || (pairs@[i].0 + pairs@[i].1 == k
                        && pairs@[i].1 < n)),
                forall|a: int, b: int|
                    is_enumerated(complexity as int, a, b) && (a + b < k || (a + b == k && b < n))
                        ==> #[trigger] lists_pair(pairs@, a, b),
                forall|i: int, j: int|
                    0 <= i < pairs@.len() && 0 <= j < pairs@.len() && i != j ==> pairs@[i]
                        != pairs@[j],
            decreases k - n,
        {
            let g = gcd_of(k, n);
            let ghost prev = pairs@;
            if g == 1 {
                pairs.push((k - n, n));
                proof {
                    assert forall|a: int, b: int|
                        is_enumerated(complexity as int, a, b) && (a + b < k || (a + b == k && b
                            < n + 1)) implies #[trigger] lists_pair(pairs@, a, b) by {
                        if a + b == k && b == n {
                            assert(pairs@[prev.len() as int] == ((k - n) as usize, n));
                        } else {
                            assert(lists_pair(prev, a, b));
                            let i = choose|i: int|
                                0 <= i < prev.len() && prev[i].0 == a && prev[i].1 == b;
                            assert(pairs@[i] == prev[i]);
                        }
                    }
                }
            } else {
                proof {
                    assert forall|a: int, b: int|
                        is_enumerated(complexity as int, a, b) && (a + b < k || (a + b == k && b
                            < n + 1)) implies #[trigger] lists_pair(pairs@, a, b) by {
                        if a + b == k && b == n {
                            assert((a + b) as nat == k as nat);
                        }
                    }
                }
            }
            n = n + 1;
        }
        k = k + 1;
    }
    pairs
}

/// Among the first `upto` entries of the report, pair `p` has no one-sided
/// component.
spec fn two_sided_in(s: Seq<((usize, usize), (usize, usize))>, upto: int, p: (usize, usize)) -> bool {
    exists|u: int| 0 <= u < upto && #[trigger] s[u].0 == p && s[u].1.1 == 0
}

proof fn lemma_pair_fits(sp: SignedPermutation, m: int, n: int, complexity: int)
    requires
        0 <= m <= complexity,
        0 <= n <= complexity,
    ensures
        space_size(sp, m, n) <= space_size(sp, complexity, complexity),
{
    let len = sp.len_spec() as int;
    assert(len * m <= len * complexity) by (nonlinear_arith)
        requires
            0 <= m <= complexity,
            len >= 0,
    ;
}

/// For every enumerated pair `(m, n)` (see `coprime_pairs`), the numbers of
/// two-sided and of one-sided components, each pair once.
pub fn count_components_upto_complexity(perm: &SignedPermutation, complexity: usize) -> (r: Vec<
    ((usize, usize), (usize, usize)),
>)
    requires
        perm.wf(),
        space_size(*perm, complexity as int, complexity as int) <= usize::MAX,
    ensures
        forall|i: int|
            0 <= i < r@.len() ==> {
                &&& is_enumerated(complexity as int, r@[i].0.0 as int, r@[i].0.1 as int)
                &&& r@[i].1.0 == orbit_counts(*perm, r@[i].0.0 as int, r@[i].0.1 as int).0
                &&& r@[i].1.1 == orbit_counts(*perm, r@[i].0.0 as int, r@[i].0.1 as int).1
            },
        forall|m: int, n: int|
            is_enumerated(complexity as int, m, n) ==> #[trigger] reports_pair(r@, m, n),
        forall|i: int, j: int|
            0 <= i < r@.len() && 0 <= j < r@.len() && i != j ==> r@[i].0 != r@[j].0,
{
    let pairs = coprime_pairs(complexity);
    proof {
        assert forall|i: int| 0 <= i < pairs@.len() implies space_size(
            *perm,
            pairs@[i].0 as int,
            pairs@[i].1 as int,
        ) <= usize::MAX by {
            lemma_pair_fits(*perm, pairs@[i].0 as int, pairs@[i].1 as int, complexity as int);
        }
    }
    let counts = count_each(perm, &pairs);
    let mut report: Vec<((usize, usize), (usize, usize))> = Vec::new();
    let mut i: usize = 0;
    while i < pairs.len()
        invariant
            counts@.len() == pairs@.len(),
            0 <= i <= pairs@.len(),
            report@.len() == i,
            forall|t: int| 0 <= t < i ==> #[trigger] report@[t] == (pairs@[t], counts@[t]),
        decreases pairs@.len() - i,
    {
        report.push((pairs[i], counts[i]));
        i = i + 1;
    }
    proof {
        assert forall|m: int, n: int| is_enumerated(complexity as int, m, n) implies #[trigger] reports_pair(
            report@,
            m,
            n,
        ) by {
            assert(lists_pair(pairs@, m, n));
            let t = choose|t: int| 0 <= t < pairs@.len() && pairs@[t].0 == m && pairs@[t].1 == n;
            assert(report@[t] == (pairs@[t], counts@[t]));
        }
        assert forall|a: int, b: int|
            0 <= a < report@.len() && 0 <= b < report@.len() && a != b implies report@[a].0
            != report@[b].0 by {
            assert(report@[a] == (pairs@[a], counts@[a]));
            assert(report@[b] == (pairs@[b], counts@[b]));
        }
    }
    report
}

/// The enumerated pairs `(m, n)` (see `coprime_pairs`) whose multicurve has
/// no one-sided component, each pair once.
pub fn two_sided_multicurves_upto_complexity(perm: &SignedPermutation, complexity: usize) -> (r: Vec<
    (usize, usize),
>)
    requires
        perm.wf(),
        space_size(*perm, complexity as int, complexity as int) <= usize::MAX,
    ensures
        forall|i: int|
            0 <= i < r@.len() ==> is_enumerated(complexity as int, r@[i].0 as int, r@[i].1 as int)
                && orbit_counts(*perm, r@[i].0 as int, r@[i].1 as int).1 == 0,
        forall|m: int, n: int|
            is_enumerated(complexity as int, m, n) && orbit_counts(*perm, m, n).1 == 0
                ==> #[trigger] lists_pair(r@, m, n),
        forall|i: int, j: int| 0 <= i < r@.len() && 0 <= j < r@.len() && i != j ==> r@[i] != r@[j],
{
    let report = count_components_upto_complexity(perm, complexity);
    let mut two_sided: Vec<(usize, usize)> = Vec::new();
    let mut i: usize = 0;
    while i < report.len()
        invariant
            0 <= i <= report@.len(),
            forall|t: int|
                0 <= t < two_sided@.len() ==> two_sided_in(report@, i as int, #[trigger] two_sided@[t]),
            forall|u: int|
                0 <= u < i && report@[u].1.1 == 0 ==> #[trigger] lists_pair(
                    two_sided@,
                    report@[u].0.0 as int,
                    report@[u].0.1 as int,
                ),
            forall|a: int, b: int|
                0 <= a < two_sided@.len() && 0 <= b < two_sided@.len() && a != b ==> two_sided@[a]
                    != two_sided@[b],
            forall|a: int, b: int|
                0 <= a < report@.len() && 0 <= b < report@.len() && a != b ==> report@[a].0
                    != report@[b].0,
        decreases report@.len() - i,
    {
        let ghost prev = two_sided@;
        let (pair, counts) = report[i];
        if counts.1 == 0 {
            two_sided.push(pair);
            proof {
                assert forall|t: int| 0 <= t < two_sided@.len() implies two_sided_in(
                    report@,
                    i + 1,
                    #[trigger] two_sided@[t],
                ) by {
                    if t == prev.len() {
                        assert(report@[i as int].0 == two_sided@[t]);
                    } else {
                        assert(two_sided@[t] == prev[t]);
                        assert(two_sided_in(report@, i as int, prev[t]));
                    }
                }
                assert forall|u: int|
                    0 <= u < i + 1 && report@[u].1.1 == 0 implies #[trigger] lists_pair(
                    two_sided@,
                    report@[u].0.0 as int,
                    report@[u].0.1 as int,
                ) by {
                    if u == i {
                        assert(two_sided@[prev.len() as int] == pair);
                    } else {
                        assert(lists_pair(prev, report@[u].0.0 as int, report@[u].0.1 as int));
                        let t = choose|t: int|
                            0 <= t < prev.len() && prev[t].0 == report@[u].0.0 && prev[t].1
                                == report@[u].0.1;
                        assert(two_sided@[t] == prev[t]);
                    }
                }
                assert forall|a: int, b: int|
                    0 <= a < two_sided@.len() && 0 <= b < two_sided@.len() && a != b implies two_sided@[a]
                    != two_sided@[b] by {
                    if a == prev.len() || b == prev.len() {
                        let o = if a == prev.len() {
                            b
                        } else {
                            a
                        };
                        assert(two_sided_in(report@, i as int, prev[o]));
                        let u = choose|u: int|
                            0 <= u < i && #[trigger] report@[u].0 == prev[o] && report@[u].1.1 == 0;
                        assert(report@[u].0 != report@[i as int].0);
                    }
                }
            }
        }
        i = i + 1;
    }
    proof {
        assert forall|m: int, n: int|
            is_enumerated(complexity as int, m, n) && orbit_counts(*perm, m, n).1 == 0
                implies #[trigger] lists_pair(two_sided@, m, n) by {
            assert(reports_pair(report@, m, n));
            let u = choose|u: int| 0 <= u < report@.len() && report@[u].0.0 == m && report@[u].0.1 == n;
            assert(lists_pair(two_sided@, report@[u].0.0 as int, report@[u].0.1 as int));
        }
        assert forall|t: int| 0 <= t < two_sided@.len() implies is_enumerated(
            complexity as int,
            two_sided@[t].0 as int,
            two_sided@[t].1 as int,
        ) && orbit_counts(*perm, two_sided@[t].0 as int, two_sided@[t].1 as int).1 == 0 by {
            assert(two_sided_in(report@, i as int, two_sided@[t]));
            let u = choose|u: int|
                0 <= u < i && #[trigger] report@[u].0 == two_sided@[t] && report@[u].1.1 == 0;
        }
    }
    two_sided
}

} // verus!
