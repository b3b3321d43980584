use crate::permutation::SignedPermutation;
use crate::transition::{
    flip_bit,
    get_next_major_strand,
    lemma_step_back_after_step,
    position_of,
    space_size,
    step,
    strand_at,
    Strand,
};
use vstd::prelude::*;
use vstd::set_lib::{lemma_int_range, lemma_len_subset, set_int_range};

verus! {

/// The position reached from `x` after `k` steps of the transition rule.
pub open spec fn iterate(sp: SignedPermutation, m: int, n: int, x: int, k: nat) -> int
    decreases k,
{
    if k == 0 {
        x
    } else {
        step(sp, m, n, iterate(sp, m, n, x, (k - 1) as nat))
    }
}

/// The number of flips met in the first `k` steps from `x`.
pub open spec fn flips_along(sp: SignedPermutation, m: int, n: int, x: int, k: nat) -> int
    decreases k,
{
    if k == 0 {
        0
    } else {
        flips_along(sp, m, n, x, (k - 1) as nat) + flip_bit(
            sp,
            m,
            n,
            iterate(sp, m, n, x, (k - 1) as nat),
        )
    }
}

/// The walk from `x` comes back to `x` for the first time after `k` steps.
pub open spec fn closes_at(sp: SignedPermutation, m: int, n: int, x: int, k: nat) -> bool {
    &&& k > 0
    &&& iterate(sp, m, n, x, k) == x
    &&& forall|i: nat| 0 < i < k ==> #[trigger] iterate(sp, m, n, x, i) != x
}

/// The length of the orbit of `x`: the number of steps until the walk from
/// `x` first comes back to `x`.
pub open spec fn orbit_length(sp: SignedPermutation, m: int, n: int, x: int) -> nat {
    choose|k: nat| closes_at(sp, m, n, x, k)
}

/// The orientability parity of the orbit of `x`: 0 for a two-sided
/// component, 1 for a one-sided one.
pub open spec fn orbit_parity(sp: SignedPermutation, m: int, n: int, x: int) -> int {
    flips_along(sp, m, n, x, orbit_length(sp, m, n, x)) % 2
}

/// `x` is the least position of its orbit, which stands for the orbit.
pub open spec fn is_orbit_origin(sp: SignedPermutation, m: int, n: int, x: int) -> bool {
    forall|k: nat| #[trigger] iterate(sp, m, n, x, k) >= x
}

/// The number of orbits of the given parity whose origin lies below `hi`.
pub open spec fn count_orbits(sp: SignedPermutation, m: int, n: int, hi: int, parity: int) -> nat
    decreases hi,
{
    if hi <= 0 {
        0
    } else {
        count_orbits(sp, m, n, hi - 1, parity) + (if is_orbit_origin(sp, m, n, hi - 1)
            && orbit_parity(sp, m, n, hi - 1) == parity {
            1nat
        } else {
            0nat
        })
    }
}

/// The numbers of two-sided and of one-sided components for `(m, n)`.
pub open spec fn orbit_counts(sp: SignedPermutation, m: int, n: int) -> (nat, nat) {
    (
        count_orbits(sp, m, n, space_size(sp, m, n), 0),
        count_orbits(sp, m, n, space_size(sp, m, n), 1),
    )
}

/// The walk stays in the strand space.
pub proof fn lemma_iterate_in_range(sp: SignedPermutation, m: int, n: int, x: int, k: nat)
    requires
        sp.wf(),
        m >= 0,
        n >= 0,
        0 <= x < space_size(sp, m, n),
    ensures
        0 <= iterate(sp, m, n, x, k) < space_size(sp, m, n),
    decreases k,
{
    if k > 0 {
        lemma_iterate_in_range(sp, m, n, x, (k - 1) as nat);
        lemma_step_back_after_step(sp, m, n, iterate(sp, m, n, x, (k - 1) as nat));
    }
}

/// Walking `a` steps and then `b` steps is walking `a + b` steps, and the
/// flips add up.
pub proof fn lemma_iterate_add(sp: SignedPermutation, m: int, n: int, x: int, a: nat, b: nat)
    ensures
        iterate(sp, m, n, x, a + b) == iterate(sp, m, n, iterate(sp, m, n, x, a), b),
        flips_along(sp, m, n, x, a + b) == flips_along(sp, m, n, x, a) + flips_along(
            sp,
            m,
            n,
            iterate(sp, m, n, x, a),
            b,
        ),
    decreases b,
{
    if b > 0 {
        lemma_iterate_add(sp, m, n, x, a, (b - 1) as nat);
        assert((a + b - 1) as nat == a + (b - 1) as nat);
    }
}

/// Two positions with the same successor are equal.
pub(crate) proof fn lemma_step_injective(sp: SignedPermutation, m: int, n: int, x1: int, x2: int)
    requires
        sp.wf(),
        m >= 0,
        n >= 0,
        0 <= x1 < space_size(sp, m, n),
        0 <= x2 < space_size(sp, m, n),
        step(sp, m, n, x1) == step(sp, m, n, x2),
    ensures
        x1 == x2,
{
    lemma_step_back_after_step(sp, m, n, x1);
    lemma_step_back_after_step(sp, m, n, x2);
}

/// A walk whose first `k + 1` positions are distinct comes back to its start
/// within the strand space's size.
proof fn lemma_walk_closes(sp: SignedPermutation, m: int, n: int, x: int, k: nat)
    requires
        sp.wf(),
        m >= 0,
        n >= 0,
        0 <= x < space_size(sp, m, n),
        forall|i: nat, j: nat|
            i <= k && j <= k && i != j ==> #[trigger] iterate(sp, m, n, x, i) != #[trigger] iterate(
                sp,
                m,
                n,
                x,
                j,
            ),
    ensures
        exists|p: nat| k < p <= space_size(sp, m, n) && closes_at(sp, m, n, x, p),
    decreases space_size(sp, m, n) - k,
{
    let size = space_size(sp, m, n);
    let walk = Seq::new(k + 1, |i: int| iterate(sp, m, n, x, i as nat));
    assert(walk.no_duplicates()) by {
        assert forall|i: int, j: int|
            0 <= i < walk.len() && 0 <= j < walk.len() && i != j implies walk[i] != walk[j] by {
            assert(iterate(sp, m, n, x, i as nat) != iterate(sp, m, n, x, j as nat));
        }
    }
    walk.unique_seq_to_set();
    lemma_int_range(0, size);
    assert(walk.to_set().subset_of(set_int_range(0, size))) by {
        assert forall|y: int| walk.to_set().contains(y) implies set_int_range(0, size).contains(
            y,
        ) by {
            let i = choose|i: int| 0 <= i < walk.len() && walk[i] == y;
            lemma_iterate_in_range(sp, m, n, x, i as nat);
        }
    }
    lemma_len_subset(walk.to_set(), set_int_range(0, size));
    let y = iterate(sp, m, n, x, k + 1);
    assert(iterate(sp, m, n, x, 0) == x);
    if y == x {
        assert(closes_at(sp, m, n, x, k + 1));
    } else {
        assert forall|i: nat, j: nat|
            i <= k + 1 && j <= k + 1 && i != j implies #[trigger] iterate(sp, m, n, x, i)
            != #[trigger] iterate(sp, m, n, x, j) by {
            if i == k + 1 || j == k + 1 {
                let o: nat = if i == k + 1 {
                    j
                } else {
                    i
                };
                if o > 0 && iterate(sp, m, n, x, o) == y {
                    lemma_iterate_in_range(sp, m, n, x, (o - 1) as nat);
                    lemma_iterate_in_range(sp, m, n, x, k);
                    lemma_step_injective(
                        sp,
                        m,
                        n,
                        iterate(sp, m, n, x, (o - 1) as nat),
                        iterate(sp, m, n, x, k),
                    );
                }
            }
        }
        lemma_walk_closes(sp, m, n, x, k + 1);
    }
}

/// The orbit of `x` closes: its length is positive, at most the size of the
/// strand space, and the walk first returns to `x` after exactly that many
/// steps.
pub proof fn lemma_orbit_length(sp: SignedPermutation, m: int, n: int, x: int)
    requires
        sp.wf(),
        m >= 0,
        n >= 0,
        0 <= x < space_size(sp, m, n),
    ensures
        closes_at(sp, m, n, x, orbit_length(sp, m, n, x)),
        0 < orbit_length(sp, m, n, x) <= space_size(sp, m, n),
{
    lemma_walk_closes(sp, m, n, x, 0);
    let p = choose|p: nat| 0 < p <= space_size(sp, m, n) && closes_at(sp, m, n, x, p);
    let q = orbit_length(sp, m, n, x);
    assert(closes_at(sp, m, n, x, q));
    if q < p {
        assert(iterate(sp, m, n, x, q) != x);
    }
    if p < q {
        assert(iterate(sp, m, n, x, p) != x);
    }
}

/// The successor of position `x`, and the flip flag of that step.
fn next_position(perm: &SignedPermutation, m: usize, n: usize, x: usize) -> (r: (usize, usize))
    requires
        perm.wf(),
        x < space_size(*perm, m as int, n as int),
        space_size(*perm, m as int, n as int) <= usize::MAX,
    ensures
        r.0 == step(*perm, m as int, n as int, x as int),
        r.0 < space_size(*perm, m as int, n as int),
        r.1 == flip_bit(*perm, m as int, n as int, x as int),
{
    let s = strand_at(perm, m, n, x);
    let (t, f) = get_next_major_strand(perm, m, n, s);
    (position_of(perm, m, n, t), f)
}

/// Whether the orbit of `Transverse(0)` is the whole strand space (the
/// multicurve has one component), and the parity of that orbit.
pub fn has_one_component(perm: &SignedPermutation, m: usize, n: usize) -> (r: (bool, usize))
    requires
        perm.wf(),
        n >= 1,
        space_size(*perm, m as int, n as int) <= usize::MAX,
    ensures
        r.0 == (orbit_length(*perm, m as int, n as int, 0) == space_size(
            *perm,
            m as int,
            n as int,
        )),
        r.1 == orbit_parity(*perm, m as int, n as int, 0),
{
    let ghost sp = *perm;
    let ghost mi = m as int;
    let ghost ni = n as int;
    let expected_orbit_length = m * perm.len() + n;
    let starting_strand = Strand::Transverse(0);
    let (first, first_flip) = get_next_major_strand(perm, m, n, starting_strand);
    let mut next_strand = first;
    let mut orientability = first_flip;
    let mut actual_orbit_length: usize = 1;
    proof {
        lemma_orbit_length(sp, mi, ni, 0);
        assert(iterate(sp, mi, ni, 0, 0) == 0);
        assert(flips_along(sp, mi, ni, 0, 0) == 0);
    }
    while next_strand != starting_strand
        invariant
            perm.wf(),
            sp == *perm,
            mi == m,
            ni == n,
            n >= 1,
            starting_strand == Strand::Transverse(0),
            expected_orbit_length == space_size(sp, mi, ni),
            space_size(sp, mi, ni) <= usize::MAX,
            closes_at(sp, mi, ni, 0, orbit_length(sp, mi, ni, 0)),
            orbit_length(sp, mi, ni, 0) <= space_size(sp, mi, ni),
            1 <= actual_orbit_length <= orbit_length(sp, mi, ni, 0),
            next_strand.is_valid(sp.len_spec() as int, mi, ni),
            next_strand.position(mi, ni) == iterate(sp, mi, ni, 0, actual_orbit_length as nat),
            orientability == flips_along(sp, mi, ni, 0, actual_orbit_length as nat) % 2,
        decreases orbit_length(sp, mi, ni, 0) - actual_orbit_length,
    {
        proof {
            if actual_orbit_length == orbit_length(sp, mi, ni, 0) {
                assert(next_strand.position(mi, ni) == 0);
                match next_strand {
                    Strand::Transverse(i) => {
                        assert(next_strand == starting_strand);
                    },
                    Strand::PermutationDirection(j, k) => {
                        assert(next_strand.position(mi, ni) >= ni) by (nonlinear_arith)
                            requires
                                next_strand.position(mi, ni) == ni + j * mi + k,
                                mi >= 0,
                                j >= 0,
                                k >= 0,
                        ;
                    },
                }
            }
        }
        let (s, f) = get_next_major_strand(perm, m, n, next_strand);
        orientability = (orientability + f) % 2;
        actual_orbit_length = actual_orbit_length + 1;
        next_strand = s;
    }
    proof {
        assert(iterate(sp, mi, ni, 0, actual_orbit_length as nat) == 0);
    }
    (expected_orbit_length == actual_orbit_length, orientability)
}

/// The predecessor of every visited position is visited.
spec fn closed_backward(sp: SignedPermutation, m: int, n: int, vis: Seq<bool>) -> bool {
    forall|x: int|
        0 <= x < space_size(sp, m, n) && #[trigger] vis[step(sp, m, n, x)] ==> vis[x]
}

/// Some position on the walk from `x` lies below `p`.
spec fn reaches_below(sp: SignedPermutation, m: int, n: int, x: int, p: int) -> bool {
    exists|k: nat| #[trigger] iterate(sp, m, n, x, k) < p
}

/// `x` is one of the first `steps` positions of the walk from `p`.
spec fn on_walk(sp: SignedPermutation, m: int, n: int, p: int, x: int, steps: nat) -> bool {
    exists|i: nat| i < steps && #[trigger] iterate(sp, m, n, p, i) == x
}

proof fn lemma_visited_backward(
    sp: SignedPermutation,
    m: int,
    n: int,
    vis: Seq<bool>,
    p: int,
    k: nat,
)
    requires
        sp.wf(),
        m >= 0,
        n >= 0,
        0 <= p < space_size(sp, m, n),
        vis.len() == space_size(sp, m, n),
        closed_backward(sp, m, n, vis),
        vis[iterate(sp, m, n, p, k)],
    ensures
        vis[p],
    decreases k,
{
    if k > 0 {
        lemma_iterate_in_range(sp, m, n, p, (k - 1) as nat);
        assert(vis[step(sp, m, n, iterate(sp, m, n, p, (k - 1) as nat))]);
        lemma_visited_backward(sp, m, n, vis, p, (k - 1) as nat);
    }
}

/// The numbers of two-sided and of one-sided components: each orbit of the
/// transition rule is counted once, by its parity.
pub fn count_components_with_orientability(perm: &SignedPermutation, m: usize, n: usize) -> (r: (
    usize,
    usize,
))
    requires
        perm.wf(),
        space_size(*perm, m as int, n as int) <= usize::MAX,
    ensures
        r.0 == orbit_counts(*perm, m as int, n as int).0,
        r.1 == orbit_counts(*perm, m as int, n as int).1,
{
    let ghost sp = *perm;
    let ghost mi = m as int;
    let ghost ni = n as int;
    let size = m * perm.len() + n;
    let mut two_sided_components: usize = 0;
    let mut one_sided_components: usize = 0;
    let mut visited: Vec<bool> = vec![false; size];
    let mut origin: usize = 0;
    proof {
        assert forall|x: int|
            0 <= x < size && #[trigger] visited@[step(sp, mi, ni, x)] implies visited@[x] by {
            lemma_step_back_after_step(sp, mi, ni, x);
        }
    }
    while origin < size
        invariant
            perm.wf(),
            sp == *perm,
            mi == m,
            ni == n,
            size == space_size(sp, mi, ni),
            size <= usize::MAX,
            visited@.len() == size,
            origin <= size,
            forall|x: int| 0 <= x < origin ==> visited@[x],
            closed_backward(sp, mi, ni, visited@),
            forall|x: int|
                #![trigger visited@[x]]
                0 <= x < size && visited@[x] ==> reaches_below(sp, mi, ni, x, origin as int),
            two_sided_components == count_orbits(sp, mi, ni, origin as int, 0),
            one_sided_components == count_orbits(sp, mi, ni, origin as int, 1),
            two_sided_components + one_sided_components <= origin,
        decreases size - origin,
    {
        let ghost p = origin as int;
        if !visited[origin] {
            proof {
                assert forall|k: nat| #[trigger] iterate(sp, mi, ni, p, k) >= p by {
                    lemma_iterate_in_range(sp, mi, ni, p, k);
                    if iterate(sp, mi, ni, p, k) < p {
                        lemma_visited_backward(sp, mi, ni, visited@, p, k);
                    }
                }
                assert(is_orbit_origin(sp, mi, ni, p));
                lemma_orbit_length(sp, mi, ni, p);
                assert(iterate(sp, mi, ni, p, 0) == p);
                assert(flips_along(sp, mi, ni, p, 0) == 0);
            }
            let ghost before = visited@;
            let ghost len = orbit_length(sp, mi, ni, p);
            visited.set(origin, true);
            let (first, first_flip) = next_position(perm, m, n, origin);
            let mut next = first;
            let mut orientability = first_flip % 2;
            let mut steps: usize = 1;
            proof {
                assert forall|x: int|
                    0 <= x < size implies (visited@[x] <==> (before[x] || on_walk(
                        sp,
                        mi,
                        ni,
                        p,
                        x,
                        steps as nat,
                    ))) by {
                    if x == p {
                        assert(iterate(sp, mi, ni, p, 0) == x);
                    }
                }
            }
            while next != origin
                invariant
                    perm.wf(),
                    sp == *perm,
                    mi == m,
                    ni == n,
                    p == origin,
                    size == space_size(sp, mi, ni),
                    size <= usize::MAX,
                    len == orbit_length(sp, mi, ni, p),
                    closes_at(sp, mi, ni, p, len),
                    len <= size,
                    1 <= steps <= len,
                    next == iterate(sp, mi, ni, p, steps as nat),
                    orientability == flips_along(sp, mi, ni, p, steps as nat) % 2,
                    visited@.len() == size,
                    forall|x: int|
                        #![trigger visited@[x]]
                        0 <= x < size ==> (visited@[x] <==> (before[x] || on_walk(
                            sp,
                            mi,
                            ni,
                            p,
                            x,
                            steps as nat,
                        ))),
                decreases len - steps,
            {
                proof {
                    lemma_iterate_in_range(sp, mi, ni, p, steps as nat);
                }
                let ghost old_steps = steps as nat;
                visited.set(next, true);
                let (following, flip) = next_position(perm, m, n, next);
                orientability = (orientability + flip) % 2;
                steps = steps + 1;
                proof {
                    assert forall|x: int|
                        #![trigger visited@[x]]
                        0 <= x < size implies (visited@[x] <==> (before[x] || on_walk(
                            sp,
                            mi,
                            ni,
                            p,
                            x,
                            steps as nat,
                        ))) by {
                        if x == next as int {
                            assert(iterate(sp, mi, ni, p, old_steps) == x);
                        }
                        if on_walk(sp, mi, ni, p, x, steps as nat) && x != next as int {
                            let i = choose|i: nat| i < steps && #[trigger] iterate(sp, mi, ni, p, i) == x;
                            assert(i < old_steps);
                        }
                    }
                }
                next = following;
            }
            proof {
                assert(steps == len);
                assert forall|x: int| 0 <= x < origin + 1 implies visited@[x] by {
                    if x == p {
                        assert(iterate(sp, mi, ni, p, 0) == x);
                    }
                }
                assert forall|x: int|
                    0 <= x < size && #[trigger] visited@[step(sp, mi, ni, x)] implies visited@[x] by {
                    lemma_step_back_after_step(sp, mi, ni, x);
                    let y = step(sp, mi, ni, x);
                    if !before[y] {
                        let i = choose|i: nat| i < len && #[trigger] iterate(sp, mi, ni, p, i) == y;
                        let j: nat = if i == 0 { (len - 1) as nat } else { (i - 1) as nat };
                        lemma_iterate_in_range(sp, mi, ni, p, j);
                        assert(step(sp, mi, ni, iterate(sp, mi, ni, p, j)) == y);
                        lemma_step_injective(sp, mi, ni, x, iterate(sp, mi, ni, p, j));
                        assert(on_walk(sp, mi, ni, p, x, len));
                    }
                }
                assert forall|x: int|
                    #![trigger visited@[x]]
                    0 <= x < size && visited@[x] implies reaches_below(sp, mi, ni, x, p + 1) by {
                    if before[x] {
                        let k = choose|k: nat| #[trigger] iterate(sp, mi, ni, x, k) < p;
                        assert(iterate(sp, mi, ni, x, k) < p + 1);
                    } else {
                        let i = choose|i: nat| i < len && #[trigger] iterate(sp, mi, ni, p, i) == x;
                        lemma_iterate_add(sp, mi, ni, p, i, (len - i) as nat);
                        assert(iterate(sp, mi, ni, x, (len - i) as nat) < p + 1);
                    }
                }
            }
            if orientability == 0 {
                two_sided_components = two_sided_components + 1;
            } else {
                one_sided_components = one_sided_components + 1;
            }
        } else {
            proof {
                assert(reaches_below(sp, mi, ni, p, p));
                let k = choose|k: nat| #[trigger] iterate(sp, mi, ni, p, k) < p;
                assert(!is_orbit_origin(sp, mi, ni, p));
                assert forall|x: int|
                    #![trigger visited@[x]]
                    0 <= x < size && visited@[x] implies reaches_below(sp, mi, ni, x, p + 1) by {
                    let k = choose|k: nat| #[trigger] iterate(sp, mi, ni, x, k) < p;
                    assert(iterate(sp, mi, ni, x, k) < p + 1);
                }
            }
        }
        origin = origin + 1;
    }
    (two_sided_components, one_sided_components)
}

} // verus!
