use crate::permutation::{PermutationError, SignedPermutation};
use vstd::arithmetic::div_mod::{
    lemma_fundamental_div_mod,
    lemma_fundamental_div_mod_converse,
    lemma_mod_bound,
};
use vstd::prelude::*;

verus! {

/// A strand of the surgered multicurve.
#[derive(Debug, PartialEq, Eq, Structural, Clone, Copy, Hash, PartialOrd, Ord)]
pub enum Strand {
    /// A free strand, not routed through the permutation.
    Transverse(usize),
    /// Copy `k` (second field) of the permutation's strand `j` (first field).
    PermutationDirection(usize, usize),
}

impl Strand {
    /// The strand exists for a permutation of length `len` with `m` copies
    /// and `n` transverse strands.
    pub open spec fn is_valid(self, len: int, m: int, n: int) -> bool {
        match self {
            Strand::Transverse(i) => i < n,
            Strand::PermutationDirection(j, k) => j < len && k < m,
        }
    }

    /// The place of the strand in the strand order: transverse strands first,
    /// then the permutation directions, lexicographically.
    pub open spec fn position(self, m: int, n: int) -> int {
        match self {
            Strand::Transverse(i) => i as int,
            Strand::PermutationDirection(j, k) => n + j * m + k,
        }
    }

    /// Builds a strand from a type tag: `'t'` gives `Transverse(a)`, `'p'`
    /// gives `PermutationDirection(a, b)`.
    pub fn new(type_of_strand: char, a: usize, b: usize) -> (r: Result<Strand, PermutationError>)
        ensures
            type_of_strand == 't' ==> r == Ok::<Strand, PermutationError>(Strand::Transverse(a)),
            type_of_strand == 'p' ==> r == Ok::<Strand, PermutationError>(
                Strand::PermutationDirection(a, b),
            ),
            type_of_strand != 't' && type_of_strand != 'p' ==> r == Err::<Strand, PermutationError>(
                PermutationError::InvalidStrandType,
            ),
    {
        match type_of_strand {
            't' => Ok(Strand::Transverse(a)),
            'p' => Ok(Strand::PermutationDirection(a, b)),
            _ => Err(PermutationError::InvalidStrandType),
        }
    }
}

/// The number of strands: L·m + n.
pub open spec fn space_size(sp: SignedPermutation, m: int, n: int) -> int {
    sp.len_spec() * m + n
}

/// The transition rule on positions. Position `x < n` is `Transverse(x)`;
/// position `n + a` is copy `a % m` of permutation strand `a / m`.
pub open spec fn step(sp: SignedPermutation, m: int, n: int, x: int) -> int {
    let lm = sp.len_spec() * m;
    if x < n {
        if x + lm < n {
            x + lm
        } else {
            n + (n - x - 1)
        }
    } else {
        let j = (x - n) / m;
        let k = (x - n) % m;
        let a = m * sp.image(j) + (if sp.flipped(j) {
            m - k - 1
        } else {
            k
        });
        if a + n < lm {
            n + (a + n)
        } else {
            lm - a - 1
        }
    }
}

/// The flip flag of the step that leaves position `x`.
pub open spec fn flip_bit(sp: SignedPermutation, m: int, n: int, x: int) -> int {
    if x >= n && sp.flipped((x - n) / m) {
        1
    } else {
        0
    }
}

/// The permutation direction that the signed permutation sends to the
/// copy region's offset `a`.
pub open spec fn unsign(sp: SignedPermutation, m: int, n: int, a: int) -> int {
    let j = sp.preimage(a / m);
    let k2 = a % m;
    n + j * m + (if sp.flipped(j) {
        m - k2 - 1
    } else {
        k2
    })
}

/// The predecessor of position `y` under the transition rule.
pub open spec fn step_back(sp: SignedPermutation, m: int, n: int, y: int) -> int {
    let lm = sp.len_spec() * m;
    if y < n {
        if y >= lm {
            y - lm
        } else {
            unsign(sp, m, n, lm - 1 - y)
        }
    } else if y - n >= n {
        unsign(sp, m, n, y - n - n)
    } else {
        n - 1 - (y - n)
    }
}

/// Some strand of the strand space steps to position `y`.
pub open spec fn has_predecessor(sp: SignedPermutation, m: int, n: int, y: int) -> bool {
    exists|x: int| 0 <= x < space_size(sp, m, n) && #[trigger] step(sp, m, n, x) == y
}

proof fn lemma_split(a: int, m: int, len: int)
    requires
        m > 0,
        0 <= a < len * m,
    ensures
        0 <= a / m < len,
        0 <= a % m < m,
        a == m * (a / m) + a % m,
        a == (a / m) * m + a % m,
{
    lemma_fundamental_div_mod(a, m);
    lemma_mod_bound(a, m);
    let q = a / m;
    let r = a % m;
    assert(0 <= q < len) by (nonlinear_arith)
        requires
            a == m * q + r,
            0 <= r < m,
            0 <= a < len * m,
            m > 0,
    ;
    assert(m * q == q * m) by (nonlinear_arith);
}

proof fn lemma_join(j: int, k: int, m: int, len: int)
    requires
        0 <= j < len,
        0 <= k < m,
    ensures
        0 <= m * j + k < len * m,
        (m * j + k) / m == j,
        (m * j + k) % m == k,
        j * m == m * j,
{
    assert(0 <= m * j + k < len * m) by (nonlinear_arith)
        requires
            0 <= j < len,
            0 <= k < m,
    ;
    assert(j * m == m * j) by (nonlinear_arith);
    lemma_fundamental_div_mod_converse(m * j + k, m, j, k);
}

/// The copy region holds positions `n + a` for `0 <= a < L·m`.
proof fn lemma_copy_region(sp: SignedPermutation, m: int, n: int, x: int)
    requires
        sp.wf(),
        m >= 0,
        n >= 0,
        n <= x < space_size(sp, m, n),
    ensures
        m > 0,
        0 <= (x - n) / m < sp.len_spec(),
        0 <= (x - n) % m < m,
        x - n == m * ((x - n) / m) + (x - n) % m,
        x - n == ((x - n) / m) * m + (x - n) % m,
{
    let len = sp.len_spec() as int;
    assert(m > 0) by (nonlinear_arith)
        requires
            m >= 0,
            len >= 0,
            len * m > 0,
    ;
    lemma_split(x - n, m, len);
}

/// The successor stays in the strand space and its predecessor is `x`.
pub proof fn lemma_step_back_after_step(sp: SignedPermutation, m: int, n: int, x: int)
    requires
        sp.wf(),
        m >= 0,
        n >= 0,
        0 <= x < space_size(sp, m, n),
    ensures
        0 <= step(sp, m, n, x) < space_size(sp, m, n),
        step_back(sp, m, n, step(sp, m, n, x)) == x,
{
    let len = sp.len_spec() as int;
    let lm = len * m;
    assert(len * m >= 0) by (nonlinear_arith)
        requires
            len >= 0,
            m >= 0,
    ;
    if x >= n {
        lemma_copy_region(sp, m, n, x);
        let j = (x - n) / m;
        let k = (x - n) % m;
        let k2 = if sp.flipped(j) {
            m - k - 1
        } else {
            k
        };
        let j2 = sp.image(j);
        lemma_join(j2, k2, m, len);
        lemma_join(j, k, m, len);
        let a = m * j2 + k2;
        assert(unsign(sp, m, n, a) == x);
    }
}

/// The predecessor stays in the strand space and its successor is `y`.
pub proof fn lemma_step_after_step_back(sp: SignedPermutation, m: int, n: int, y: int)
    requires
        sp.wf(),
        m >= 0,
        n >= 0,
        0 <= y < space_size(sp, m, n),
    ensures
        0 <= step_back(sp, m, n, y) < space_size(sp, m, n),
        step(sp, m, n, step_back(sp, m, n, y)) == y,
{
    let len = sp.len_spec() as int;
    let lm = len * m;
    assert(len * m >= 0) by (nonlinear_arith)
        requires
            len >= 0,
            m >= 0,
    ;
    let a = if y < n {
        lm - 1 - y
    } else {
        y - n - n
    };
    if (y < n && y < lm) || (y >= n && y - n >= n) {
        assert(m > 0) by (nonlinear_arith)
            requires
                m >= 0,
                len >= 0,
                len * m > 0,
        ;
        lemma_split(a, m, len);
        let j2 = a / m;
        let k2 = a % m;
        let j = sp.preimage(j2);
        let k = if sp.flipped(j) {
            m - k2 - 1
        } else {
            k2
        };
        lemma_join(j, k, m, len);
        assert(unsign(sp, m, n, a) == n + (m * j + k));
    }
}

/// The transition rule is a bijection of the strand space: every strand has
/// a successor in it, no two strands share a successor, and every strand is
/// the successor of one.
pub proof fn lemma_transition_bijective(sp: SignedPermutation, m: int, n: int)
    requires
        sp.wf(),
        m >= 1,
        n >= 1,
    ensures
        forall|x: int|
            0 <= x < space_size(sp, m, n) ==> 0 <= #[trigger] step(sp, m, n, x) < space_size(
                sp,
                m,
                n,
            ),
        forall|x1: int, x2: int|
            0 <= x1 < space_size(sp, m, n) && 0 <= x2 < space_size(sp, m, n) && #[trigger] step(
                sp,
                m,
                n,
                x1,
            ) == #[trigger] step(sp, m, n, x2) ==> x1 == x2,
        forall|y: int| 0 <= y < space_size(sp, m, n) ==> #[trigger] has_predecessor(sp, m, n, y),
{
    assert forall|x: int| 0 <= x < space_size(sp, m, n) implies 0 <= #[trigger] step(
        sp,
        m,
        n,
        x,
    ) < space_size(sp, m, n) by {
        lemma_step_back_after_step(sp, m, n, x);
    }
    assert forall|x1: int, x2: int|
        0 <= x1 < space_size(sp, m, n) && 0 <= x2 < space_size(sp, m, n) && #[trigger] step(
            sp,
            m,
            n,
            x1,
        ) == #[trigger] step(sp, m, n, x2) implies x1 == x2 by {
        lemma_step_back_after_step(sp, m, n, x1);
        lemma_step_back_after_step(sp, m, n, x2);
    }
    assert forall|y: int| 0 <= y < space_size(sp, m, n) implies #[trigger] has_predecessor(
        sp,
        m,
        n,
        y,
    ) by {
        lemma_step_after_step_back(sp, m, n, y);
        let x = step_back(sp, m, n, y);
        assert(0 <= x < space_size(sp, m, n) && step(sp, m, n, x) == y);
    }
}

/// The next strand under the transition rule, and 1 where the step flips
/// orientation, else 0.
pub fn get_next_major_strand(perm: &SignedPermutation, m: usize, n: usize, strand: Strand) -> (r: (
    Strand,
    usize,
))
    requires
        perm.wf(),
        strand.is_valid(perm.len_spec() as int, m as int, n as int),
        space_size(*perm, m as int, n as int) <= usize::MAX,
    ensures
        r.0.is_valid(perm.len_spec() as int, m as int, n as int),
        r.0.position(m as int, n as int) == step(*perm, m as int, n as int, strand.position(m as int, n as int)),
        r.1 == flip_bit(*perm, m as int, n as int, strand.position(m as int, n as int)),
{
    let length = perm.len();
    let lm = length * m;
    let ghost len = length as int;
    let ghost x = strand.position(m as int, n as int);
    let mut flipped: usize = 0;
    let out = match strand {
        Strand::PermutationDirection(perm_index, copy_index) => {
            proof {
                lemma_join(perm_index as int, copy_index as int, m as int, len);
            }
            let mut copy = copy_index;
            if perm.is_flipped(perm_index) {
                copy = m - copy_index - 1;
                flipped = 1;
            }
            let image = perm.image_of(perm_index);
            proof {
                lemma_join(image as int, copy as int, m as int, len);
            }
            let absolute = m * image + copy;
            if absolute + n < lm {
                let shifted = absolute + n;
                proof {
                    lemma_split(shifted as int, m as int, len);
                }
                Strand::PermutationDirection(shifted / m, shifted % m)
            } else {
                Strand::Transverse(lm - absolute - 1)
            }
        },
        Strand::Transverse(index) => {
            if index + lm < n {
                Strand::Transverse(index + lm)
            } else {
                let absolute = n - index - 1;
                proof {
                    assert(m > 0) by (nonlinear_arith)
                        requires
                            m >= 0,
                            len >= 0,
                            len * m > 0,
                    ;
                    lemma_split(absolute as int, m as int, len);
                }
                Strand::PermutationDirection(absolute / m, absolute % m)
            }
        },
    };
    (out, flipped)
}

/// The strand at position `x`.
pub fn strand_at(perm: &SignedPermutation, m: usize, n: usize, x: usize) -> (r: Strand)
    requires
        perm.wf(),
        x < space_size(*perm, m as int, n as int),
    ensures
        r.is_valid(perm.len_spec() as int, m as int, n as int),
        r.position(m as int, n as int) == x,
{
    if x < n {
        Strand::Transverse(x)
    } else {
        proof {
            lemma_copy_region(*perm, m as int, n as int, x as int);
        }
        Strand::PermutationDirection((x - n) / m, (x - n) % m)
    }
}

/// The position of a valid strand.
pub fn position_of(perm: &SignedPermutation, m: usize, n: usize, s: Strand) -> (r: usize)
    requires
        perm.wf(),
        s.is_valid(perm.len_spec() as int, m as int, n as int),
        space_size(*perm, m as int, n as int) <= usize::MAX,
    ensures
        r == s.position(m as int, n as int),
        r < space_size(*perm, m as int, n as int),
{
    match s {
        Strand::Transverse(i) => i,
        Strand::PermutationDirection(j, k) => {
            proof {
                lemma_join(j as int, k as int, m as int, perm.len_spec() as int);
            }
            n + m * j + k
        },
    }
}

} // verus!
