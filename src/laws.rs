use crate::orbits::{
    closes_at,
    count_orbits,
    flips_along,
    is_orbit_origin,
    iterate,
    lemma_iterate_add,
    lemma_iterate_in_range,
    lemma_orbit_length,
    lemma_step_injective,
    orbit_counts,
    orbit_length,
    orbit_parity,
};
use crate::permutation::SignedPermutation;
use crate::transition::{space_size, step};
use vstd::prelude::*;
use vstd::set_lib::{
    lemma_int_range,
    lemma_len_subset,
    lemma_set_disjoint_lens,
    lemma_subset_equality,
    set_int_range,
};

verus! {

/// `w` is one of the positions of the orbit of `x`.
spec fn in_orbit(sp: SignedPermutation, m: int, n: int, x: int, w: int) -> bool {
    exists|i: nat| i < orbit_length(sp, m, n, x) && #[trigger] iterate(sp, m, n, x, i) == w
}

/// The number of orbits whose origin lies below `hi`.
spec fn count_origins(sp: SignedPermutation, m: int, n: int, hi: int) -> nat
    decreases hi,
{
    if hi <= 0 {
        0
    } else {
        count_origins(sp, m, n, hi - 1) + (if is_orbit_origin(sp, m, n, hi - 1) {
            1nat
        } else {
            0nat
        })
    }
}

/// Two closing lengths of one walk are equal.
proof fn lemma_closes_unique(sp: SignedPermutation, m: int, n: int, x: int, p: nat, q: nat)
    requires
        closes_at(sp, m, n, x, p),
        closes_at(sp, m, n, x, q),
    ensures
        p == q,
{
    if p < q {
        assert(iterate(sp, m, n, x, p) != x);
    }
    if q < p {
        assert(iterate(sp, m, n, x, q) != x);
    }
}

/// One step along an orbit keeps its length and its number of flips.
proof fn lemma_step_keeps_orbit(sp: SignedPermutation, m: int, n: int, y: int)
    requires
        sp.wf(),
        m >= 0,
        n >= 0,
        0 <= y < space_size(sp, m, n),
    ensures
        orbit_length(sp, m, n, step(sp, m, n, y)) == orbit_length(sp, m, n, y),
        flips_along(sp, m, n, step(sp, m, n, y), orbit_length(sp, m, n, y)) == flips_along(
            sp,
            m,
            n,
            y,
            orbit_length(sp, m, n, y),
        ),
{
    let len = orbit_length(sp, m, n, y);
    let z = step(sp, m, n, y);
    lemma_orbit_length(sp, m, n, y);
    assert(iterate(sp, m, n, y, 1) == z) by {
        assert(iterate(sp, m, n, y, 0) == y);
    }
    lemma_iterate_add(sp, m, n, y, len, 1);
    lemma_iterate_add(sp, m, n, y, 1, len);
    assert(iterate(sp, m, n, y, len + 1) == z) by {
        assert(iterate(sp, m, n, y, 0) == y);
    }
    assert forall|i: nat| 0 < i < len implies #[trigger] iterate(sp, m, n, z, i) != z by {
        lemma_iterate_add(sp, m, n, y, 1, i);
        if iterate(sp, m, n, z, i) == z {
            assert(iterate(sp, m, n, y, 1 + i) == step(sp, m, n, iterate(sp, m, n, y, i)));
            lemma_iterate_in_range(sp, m, n, y, i);
            lemma_step_injective(sp, m, n, iterate(sp, m, n, y, i), y);
        }
    }
    assert(closes_at(sp, m, n, z, len));
    lemma_step_in_range(sp, m, n, y);
    lemma_orbit_length(sp, m, n, z);
    lemma_closes_unique(sp, m, n, z, len, orbit_length(sp, m, n, z));
    assert(flips_along(sp, m, n, y, 1) == flips_along(sp, m, n, iterate(sp, m, n, y, len), 1));
}

proof fn lemma_step_in_range(sp: SignedPermutation, m: int, n: int, y: int)
    requires
        sp.wf(),
        m >= 0,
        n >= 0,
        0 <= y < space_size(sp, m, n),
    ensures
        0 <= step(sp, m, n, y) < space_size(sp, m, n),
{
    lemma_iterate_in_range(sp, m, n, y, 1);
    assert(iterate(sp, m, n, y, 0) == y);
}

/// Orientability is a property of the orbit, not of the strand that the
/// walk starts from: every strand of an orbit gives the same orbit length
/// and the same parity.
pub proof fn lemma_parity_independent_of_start(
    sp: SignedPermutation,
    m: int,
    n: int,
    x: int,
    j: nat,
)
    requires
        sp.wf(),
        m >= 0,
        n >= 0,
        0 <= x < space_size(sp, m, n),
    ensures
        orbit_length(sp, m, n, iterate(sp, m, n, x, j)) == orbit_length(sp, m, n, x),
        orbit_parity(sp, m, n, iterate(sp, m, n, x, j)) == orbit_parity(sp, m, n, x),
    decreases j,
{
    if j > 0 {
        lemma_parity_independent_of_start(sp, m, n, x, (j - 1) as nat);
        lemma_iterate_in_range(sp, m, n, x, (j - 1) as nat);
        lemma_step_keeps_orbit(sp, m, n, iterate(sp, m, n, x, (j - 1) as nat));
    }
}

/// Every position of the walk from `y` lies in the orbit of `y`.
proof fn lemma_walk_in_orbit(sp: SignedPermutation, m: int, n: int, y: int, k: nat)
    requires
        sp.wf(),
        m >= 0,
        n >= 0,
        0 <= y < space_size(sp, m, n),
    ensures
        in_orbit(sp, m, n, y, iterate(sp, m, n, y, k)),
    decreases k,
{
    lemma_orbit_length(sp, m, n, y);
    if k == 0 {
        assert(iterate(sp, m, n, y, 0) == y);
    } else {
        lemma_walk_in_orbit(sp, m, n, y, (k - 1) as nat);
        let j = choose|j: nat|
            j < orbit_length(sp, m, n, y) && #[trigger] iterate(sp, m, n, y, j) == iterate(
                sp,
                m,
                n,
                y,
                (k - 1) as nat,
            );
        assert(iterate(sp, m, n, y, j + 1) == iterate(sp, m, n, y, k));
        if j + 1 == orbit_length(sp, m, n, y) {
            assert(iterate(sp, m, n, y, 0) == y);
        } else {
            assert(iterate(sp, m, n, y, (j + 1) as nat) == iterate(sp, m, n, y, k));
        }
    }
}

/// If `w` is reached from `x`, then `x` is in the orbit of `w`.
proof fn lemma_reached_back(sp: SignedPermutation, m: int, n: int, x: int, k: nat)
    requires
        sp.wf(),
        m >= 0,
        n >= 0,
        0 <= x < space_size(sp, m, n),
    ensures
        in_orbit(sp, m, n, iterate(sp, m, n, x, k), x),
{
    let w = iterate(sp, m, n, x, k);
    lemma_walk_in_orbit(sp, m, n, x, k);
    lemma_orbit_length(sp, m, n, x);
    let len = orbit_length(sp, m, n, x);
    let j = choose|j: nat| j < len && #[trigger] iterate(sp, m, n, x, j) == w;
    lemma_iterate_add(sp, m, n, x, j, (len - j) as nat);
    lemma_iterate_in_range(sp, m, n, x, k);
    lemma_walk_in_orbit(sp, m, n, w, (len - j) as nat);
}

/// The positions of an orbit are distinct.
proof fn lemma_orbit_distinct(sp: SignedPermutation, m: int, n: int, x: int, i: nat, j: nat)
    requires
        sp.wf(),
        m >= 0,
        n >= 0,
        0 <= x < space_size(sp, m, n),
        i < j < orbit_length(sp, m, n, x),
    ensures
        iterate(sp, m, n, x, i) != iterate(sp, m, n, x, j),
{
    let len = orbit_length(sp, m, n, x);
    lemma_orbit_length(sp, m, n, x);
    lemma_iterate_add(sp, m, n, x, i, (len - j) as nat);
    lemma_iterate_add(sp, m, n, x, j, (len - j) as nat);
    assert(iterate(sp, m, n, x, (i + (len - j)) as nat) != x);
}

/// The walk from `x` over one orbit length, as a set of positions, has as
/// many elements as the orbit is long.
proof fn lemma_orbit_set(sp: SignedPermutation, m: int, n: int, x: int) -> (w: Set<int>)
    requires
        sp.wf(),
        m >= 0,
        n >= 0,
        0 <= x < space_size(sp, m, n),
    ensures
        w.finite(),
        w.len() == orbit_length(sp, m, n, x),
        forall|y: int| w.contains(y) <==> in_orbit(sp, m, n, x, y),
        w.subset_of(set_int_range(0, space_size(sp, m, n))),
{
    let len = orbit_length(sp, m, n, x);
    let walk = Seq::new(len, |i: int| iterate(sp, m, n, x, i as nat));
    assert(walk.no_duplicates()) by {
        assert forall|i: int, j: int|
            0 <= i < walk.len() && 0 <= j < walk.len() && i != j implies walk[i] != walk[j] by {
            if i < j {
                lemma_orbit_distinct(sp, m, n, x, i as nat, j as nat);
            } else {
                lemma_orbit_distinct(sp, m, n, x, j as nat, i as nat);
            }
        }
    }
    walk.unique_seq_to_set();
    let w = walk.to_set();
    assert forall|y: int| w.contains(y) <==> in_orbit(sp, m, n, x, y) by {
        if w.contains(y) {
            let i = choose|i: int| 0 <= i < walk.len() && walk[i] == y;
            assert(iterate(sp, m, n, x, i as nat) == y);
        }
        if in_orbit(sp, m, n, x, y) {
            let i = choose|i: nat| i < len && #[trigger] iterate(sp, m, n, x, i) == y;
            assert(walk[i as int] == y);
        }
    }
    assert forall|y: int| w.contains(y) implies set_int_range(0, space_size(sp, m, n)).contains(
        y,
    ) by {
        let i = choose|i: int| 0 <= i < walk.len() && walk[i] == y;
        lemma_iterate_in_range(sp, m, n, x, i as nat);
    }
    w
}

proof fn lemma_counts_split(sp: SignedPermutation, m: int, n: int, hi: int)
    ensures
        count_orbits(sp, m, n, hi, 0) + count_orbits(sp, m, n, hi, 1) == count_origins(
            sp,
            m,
            n,
            hi,
        ),
    decreases hi,
{
    if hi > 0 {
        lemma_counts_split(sp, m, n, hi - 1);
    }
}

proof fn lemma_count_origins_monotone(sp: SignedPermutation, m: int, n: int, lo: int, hi: int)
    requires
        lo <= hi,
    ensures
        count_origins(sp, m, n, lo) <= count_origins(sp, m, n, hi),
    decreases hi - lo,
{
    if lo < hi {
        lemma_count_origins_monotone(sp, m, n, lo, hi - 1);
    }
}

/// Only position 0 is an origin below `hi`: the counts are those of the
/// orbit of 0 alone.
proof fn lemma_counts_single(sp: SignedPermutation, m: int, n: int, hi: int)
    requires
        1 <= hi,
        is_orbit_origin(sp, m, n, 0),
        forall|x: int| 0 < x < hi ==> !is_orbit_origin(sp, m, n, x),
    ensures
        count_orbits(sp, m, n, hi, 0) == (if orbit_parity(sp, m, n, 0) == 0 {
            1nat
        } else {
            0nat
        }),
        count_orbits(sp, m, n, hi, 1) == (if orbit_parity(sp, m, n, 0) == 1 {
            1nat
        } else {
            0nat
        }),
    decreases hi,
{
    if hi > 1 {
        lemma_counts_single(sp, m, n, hi - 1);
    } else {
        assert(count_orbits(sp, m, n, 0, 0) == 0);
        assert(count_orbits(sp, m, n, 0, 1) == 0);
    }
}

/// One component exactly when the orbit of `Transverse(0)` (position 0)
/// covers the whole strand space; in that case its parity says whether the
/// component is two-sided or one-sided. This is the agreement of
/// `has_one_component` with `count_components_with_orientability`.
pub proof fn lemma_one_component_iff_single_orbit(sp: SignedPermutation, m: int, n: int)
    requires
        sp.wf(),
        m >= 0,
        n >= 1,
    ensures
        (orbit_length(sp, m, n, 0) == space_size(sp, m, n)) <==> (orbit_counts(sp, m, n).0
            + orbit_counts(sp, m, n).1 == 1),
        orbit_length(sp, m, n, 0) == space_size(sp, m, n) ==> orbit_counts(sp, m, n) == (if orbit_parity(
            sp,
            m,
            n,
            0,
        ) == 0 {
            (1nat, 0nat)
        } else {
            (0nat, 1nat)
        }),
{
    let size = space_size(sp, m, n);
    let len = orbit_length(sp, m, n, 0);
    assert(size >= 1) by (nonlinear_arith)
        requires
            size == sp.len_spec() * m + n,
            m >= 0,
            n >= 1,
    ;
    assert forall|k: nat| #[trigger] iterate(sp, m, n, 0, k) >= 0 by {
        lemma_iterate_in_range(sp, m, n, 0, k);
    }
    assert(is_orbit_origin(sp, m, n, 0));
    lemma_counts_split(sp, m, n, size);
    lemma_orbit_length(sp, m, n, 0);
    let w0 = lemma_orbit_set(sp, m, n, 0);
    lemma_int_range(0, size);
    if len == size {
        lemma_subset_equality(w0, set_int_range(0, size));
        assert forall|x: int| 0 < x < size implies !is_orbit_origin(sp, m, n, x) by {
            assert(set_int_range(0, size).contains(x));
            assert(w0.contains(x));
            let i = choose|i: nat| i < len && #[trigger] iterate(sp, m, n, 0, i) == x;
            lemma_iterate_add(sp, m, n, 0, i, (len - i) as nat);
            assert(iterate(sp, m, n, x, (len - i) as nat) < x);
        }
        lemma_counts_single(sp, m, n, size);
    } else {
        assert(len < size);
        assert(exists|y: int| set_int_range(0, size).contains(y) && !w0.contains(y)) by {
            if !exists|y: int| set_int_range(0, size).contains(y) && !w0.contains(y) {
                assert(set_int_range(0, size).subset_of(w0));
                lemma_len_subset(set_int_range(0, size), w0);
            }
        }
        let y = choose|y: int| set_int_range(0, size).contains(y) && !w0.contains(y);
        let z = lemma_orbit_min(sp, m, n, y);
        assert(z != 0) by {
            if z == 0 {
                let i = choose|i: nat|
                    i < orbit_length(sp, m, n, y) && #[trigger] iterate(sp, m, n, y, i) == z;
                lemma_reached_back(sp, m, n, y, i);
                let j = choose|j: nat| j < len && #[trigger] iterate(sp, m, n, 0, j) == y;
                assert(w0.contains(y));
            }
        }
        lemma_iterate_in_range(sp, m, n, y, 0);
        let i = choose|i: nat| i < orbit_length(sp, m, n, y) && #[trigger] iterate(sp, m, n, y, i) == z;
        lemma_iterate_in_range(sp, m, n, y, i);
        lemma_count_origins_monotone(sp, m, n, 1, z);
        lemma_count_origins_monotone(sp, m, n, z + 1, size);
        assert(count_origins(sp, m, n, 0) == 0);
        assert(count_origins(sp, m, n, 1) == 1);
        assert(count_origins(sp, m, n, z + 1) == count_origins(sp, m, n, z) + 1);
    }
}

/// The least position of the orbit of `y`; it is an origin.
proof fn lemma_orbit_min(sp: SignedPermutation, m: int, n: int, y: int) -> (z: int)
    requires
        sp.wf(),
        m >= 0,
        n >= 0,
        0 <= y < space_size(sp, m, n),
    ensures
        in_orbit(sp, m, n, y, z),
        is_orbit_origin(sp, m, n, z),
{
    lemma_orbit_length(sp, m, n, y);
    let len = orbit_length(sp, m, n, y);
    let i = lemma_min_prefix(sp, m, n, y, len);
    let z = iterate(sp, m, n, y, i);
    assert forall|k: nat| #[trigger] iterate(sp, m, n, z, k) >= z by {
        lemma_iterate_add(sp, m, n, y, i, k);
        lemma_walk_in_orbit(sp, m, n, y, i + k);
        let j = choose|j: nat| j < len && #[trigger] iterate(sp, m, n, y, j) == iterate(
            sp,
            m,
            n,
            y,
            i + k,
        );
    }
    z
}

/// Among the first `t` positions of the walk from `y`, one is least.
proof fn lemma_min_prefix(sp: SignedPermutation, m: int, n: int, y: int, t: nat) -> (i: nat)
    requires
        t >= 1,
    ensures
        i < t,
        forall|j: nat| j < t ==> iterate(sp, m, n, y, i) <= #[trigger] iterate(sp, m, n, y, j),
    decreases t,
{
    if t == 1 {
        0
    } else {
        let i = lemma_min_prefix(sp, m, n, y, (t - 1) as nat);
        if iterate(sp, m, n, y, (t - 1) as nat) < iterate(sp, m, n, y, i) {
            (t - 1) as nat
        } else {
            i
        }
    }
}

/// The total length of the orbits whose origin lies below `hi`.
pub open spec fn total_orbit_length(sp: SignedPermutation, m: int, n: int, hi: int) -> nat
    decreases hi,
{
    if hi <= 0 {
        0
    } else {
        total_orbit_length(sp, m, n, hi - 1) + (if is_orbit_origin(sp, m, n, hi - 1) {
            orbit_length(sp, m, n, hi - 1)
        } else {
            0nat
        })
    }
}

/// The positions whose walk meets a position below `hi`.
spec fn meets_below(sp: SignedPermutation, m: int, n: int, hi: int) -> Set<int> {
    Set::new(
        |x: int|
            0 <= x < space_size(sp, m, n) && exists|k: nat| #[trigger] iterate(sp, m, n, x, k) < hi,
    )
}

proof fn lemma_meets_below_len(sp: SignedPermutation, m: int, n: int, hi: int)
    requires
        sp.wf(),
        m >= 0,
        n >= 0,
        0 <= hi <= space_size(sp, m, n),
    ensures
        meets_below(sp, m, n, hi).finite(),
        meets_below(sp, m, n, hi).len() == total_orbit_length(sp, m, n, hi),
    decreases hi,
{
    let size = space_size(sp, m, n);
    lemma_int_range(0, size);
    lemma_len_subset(meets_below(sp, m, n, hi), set_int_range(0, size));
    if hi == 0 {
        assert forall|x: int| !meets_below(sp, m, n, 0).contains(x) by {
            if meets_below(sp, m, n, 0).contains(x) {
                let k = choose|k: nat| #[trigger] iterate(sp, m, n, x, k) < 0;
                lemma_iterate_in_range(sp, m, n, x, k);
            }
        }
        assert(meets_below(sp, m, n, 0) =~= Set::empty());
    } else {
        let p = hi - 1;
        lemma_meets_below_len(sp, m, n, p);
        let below = meets_below(sp, m, n, p);
        if is_orbit_origin(sp, m, n, p) {
            let w = lemma_orbit_set(sp, m, n, p);
            lemma_orbit_length(sp, m, n, p);
            let len = orbit_length(sp, m, n, p);
            assert forall|x: int| meets_below(sp, m, n, hi).contains(x) implies (below + w).contains(
                x,
            ) by {
                let k = choose|k: nat| #[trigger] iterate(sp, m, n, x, k) < hi;
                if iterate(sp, m, n, x, k) == p {
                    lemma_reached_back(sp, m, n, x, k);
                }
            }
            assert forall|x: int| (below + w).contains(x) implies meets_below(
                sp,
                m,
                n,
                hi,
            ).contains(x) by {
                if w.contains(x) {
                    let i = choose|i: nat| i < len && #[trigger] iterate(sp, m, n, p, i) == x;
                    lemma_iterate_add(sp, m, n, p, i, (len - i) as nat);
                    lemma_iterate_in_range(sp, m, n, p, i);
                    assert(iterate(sp, m, n, x, (len - i) as nat) < hi);
                } else {
                    let k = choose|k: nat| #[trigger] iterate(sp, m, n, x, k) < p;
                    assert(iterate(sp, m, n, x, k) < hi);
                }
            }
            assert(meets_below(sp, m, n, hi) =~= below + w);
            assert forall|x: int| !(below.contains(x) && w.contains(x)) by {
                if below.contains(x) && w.contains(x) {
                    let i = choose|i: nat| i < len && #[trigger] iterate(sp, m, n, p, i) == x;
                    let k = choose|k: nat| #[trigger] iterate(sp, m, n, x, k) < p;
                    lemma_iterate_add(sp, m, n, p, i, k);
                    assert(iterate(sp, m, n, p, i + k) >= p);
                }
            }
            assert(below.disjoint(w));
            lemma_set_disjoint_lens(below, w);
        } else {
            let k0 = choose|k: nat| !(#[trigger] iterate(sp, m, n, p, k) >= p);
            assert forall|x: int| meets_below(sp, m, n, hi).contains(x) implies below.contains(
                x,
            ) by {
                let k = choose|k: nat| #[trigger] iterate(sp, m, n, x, k) < hi;
                if iterate(sp, m, n, x, k) == p {
                    lemma_iterate_add(sp, m, n, x, k, k0);
                    assert(iterate(sp, m, n, x, k + k0) < p);
                } else {
                    assert(iterate(sp, m, n, x, k) < p);
                }
            }
            assert forall|x: int| below.contains(x) implies meets_below(sp, m, n, hi).contains(
                x,
            ) by {
                let k = choose|k: nat| #[trigger] iterate(sp, m, n, x, k) < p;
                assert(iterate(sp, m, n, x, k) < hi);
            }
            assert(meets_below(sp, m, n, hi) =~= below);
        }
    }
}

/// The orbits partition the strand space: the lengths of all orbits, each
/// counted once by its origin, add up to L·m + n.
pub proof fn lemma_orbit_lengths_sum(sp: SignedPermutation, m: int, n: int)
    requires
        sp.wf(),
        m >= 0,
        n >= 0,
    ensures
        total_orbit_length(sp, m, n, space_size(sp, m, n)) == space_size(sp, m, n),
{
    let size = space_size(sp, m, n);
    assert(size >= 0) by (nonlinear_arith)
        requires
            size == sp.len_spec() * m + n,
            m >= 0,
            n >= 0,
    ;
    lemma_meets_below_len(sp, m, n, size);
    assert forall|x: int| 0 <= x < size implies meets_below(sp, m, n, size).contains(x) by {
        assert(iterate(sp, m, n, x, 0) < size);
    }
    assert(meets_below(sp, m, n, size) =~= set_int_range(0, size));
    lemma_int_range(0, size);
}

} // verus!
