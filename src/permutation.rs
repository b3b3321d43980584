use std::collections::HashSet;
use vstd::prelude::*;
use vstd::set_lib::{lemma_int_range, lemma_subset_equality, set_int_range};

verus! {

broadcast use vstd::std_specs::hash::group_hash_axioms;

/// Errors raised when building a signed permutation or a strand.
#[derive(Debug, PartialEq, Eq, Structural, Clone, Copy)]
pub enum PermutationError {
    /// Not a valid permutation on {0, 1, ..., n - 1}
    InvalidPermutation,
    /// Flip set not a subset of {0, 1, ..., n - 1}
    InvalidFlipset,
    /// A strand must be transverse ('t') or a permutation direction ('p')
    InvalidStrandType,
}

/// A bijection of {0, ..., L - 1} together with a set of flipped indices.
#[derive(Debug)]
pub struct SignedPermutation {
    permutation: Vec<usize>,
    inverse: Vec<usize>,
    flip_set: HashSet<usize>,
}

/// The sequence is a bijection of {0, ..., len - 1}: every value is in range
/// and no value repeats.
pub open spec fn is_bijection(s: Seq<usize>) -> bool {
    &&& forall|i: int| 0 <= i < s.len() ==> (#[trigger] s[i]) < s.len()
    &&& forall|i: int, j: int|
        0 <= i < s.len() && 0 <= j < s.len() && i != j ==> (#[trigger] s[i]) != (#[trigger] s[j])
}

/// Every value of the sequence is below `bound`.
pub open spec fn all_below(s: Seq<usize>, bound: int) -> bool {
    forall|i: int| 0 <= i < s.len() ==> (#[trigger] s[i]) < bound
}

/// Value `x` occurs in the sequence.
spec fn occurs_in(s: Seq<usize>, x: int) -> bool {
    exists|i: int| 0 <= i < s.len() && s[i] == x
}

/// Every value of {0, ..., len - 1} occurs in a bijection.
proof fn lemma_bijection_onto(s: Seq<usize>)
    requires
        is_bijection(s),
    ensures
        forall|x: int| 0 <= x < s.len() ==> #[trigger] occurs_in(s, x),
{
    let t = s.map_values(|v: usize| v as int);
    assert(t.no_duplicates()) by {
        assert forall|i: int, j: int| 0 <= i < t.len() && 0 <= j < t.len() && i != j implies t[i]
            != t[j] by {
            assert(s[i] != s[j]);
        }
    }
    t.unique_seq_to_set();
    lemma_int_range(0, s.len() as int);
    assert(t.to_set().subset_of(set_int_range(0, s.len() as int))) by {
        assert forall|x: int| t.to_set().contains(x) implies set_int_range(
            0,
            s.len() as int,
        ).contains(x) by {
            let i = choose|i: int| 0 <= i < t.len() && t[i] == x;
            assert(s[i] < s.len());
        }
    }
    lemma_subset_equality(t.to_set(), set_int_range(0, s.len() as int));
    assert forall|x: int| 0 <= x < s.len() implies #[trigger] occurs_in(s, x) by {
        assert(set_int_range(0, s.len() as int).contains(x));
        assert(t.to_set().contains(x));
        let i = choose|i: int| 0 <= i < t.len() && t[i] == x;
        assert(s[i] == x);
    }
}

impl SignedPermutation {
    /// The length L of the permutation.
    pub closed spec fn len_spec(&self) -> nat {
        self.permutation@.len()
    }

    /// The image of index `j`.
    pub closed spec fn image(&self, j: int) -> int {
        self.permutation@[j] as int
    }

    /// The index whose image is `j`.
    pub closed spec fn preimage(&self, j: int) -> int {
        self.inverse@[j] as int
    }

    /// Whether index `j` is in the flip set.
    pub closed spec fn flipped(&self, j: int) -> bool {
        0 <= j < self.len_spec() && self.flip_set@.contains(j as usize)
    }

    /// The stored parts agree in size.
    pub closed spec fn storage_ok(&self) -> bool {
        self.inverse@.len() == self.permutation@.len()
    }

    /// Well-formedness: `image` and `preimage` are inverse bijections of {0, ..., L - 1}.
    pub open spec fn wf(&self) -> bool {
        &&& self.storage_ok()
        &&& forall|j: int|
            0 <= j < self.len_spec() ==> 0 <= #[trigger] self.image(j) < self.len_spec()
                && self.preimage(self.image(j)) == j
        &&& forall|j: int|
            0 <= j < self.len_spec() ==> 0 <= #[trigger] self.preimage(j) < self.len_spec()
                && self.image(self.preimage(j)) == j
    }

    /// Builds a signed permutation. Value `permutation[i]` is sent back to `i`:
    /// the stored bijection is the inverse of the given sequence. Every index in
    /// `flips` is flipped.
    pub fn new(permutation: Vec<usize>, flips: Vec<usize>) -> (r: Result<Self, PermutationError>)
        ensures
            !is_bijection(permutation@) <==> r == Err::<Self, _>(PermutationError::InvalidPermutation),
            is_bijection(permutation@) && !all_below(flips@, permutation@.len() as int) <==> r
                == Err::<Self, _>(PermutationError::InvalidFlipset),
            r is Ok <==> is_bijection(permutation@) && all_below(flips@, permutation@.len() as int),
            r matches Ok(sp) ==> {
                &&& sp.wf()
                &&& sp.len_spec() == permutation@.len()
                &&& forall|j: int|
                    0 <= j < permutation@.len() ==> sp.preimage(j) == permutation@[j] as int
                &&& forall|j: int|
                    sp.flipped(j) <==> exists|t: int| 0 <= t < flips@.len() && flips@[t] as int == j
            },
    {
        let length = permutation.len();
        let mut perm_vector: Vec<usize> = vec![length; length];
        let mut i: usize = 0;
        while i < length
            invariant
                length == permutation@.len(),
                perm_vector@.len() == length,
                0 <= i <= length,
                forall|t: int| 0 <= t < i ==> (#[trigger] permutation@[t]) < length,
                forall|t: int, u: int|
                    0 <= t < i && 0 <= u < i && t != u ==> (#[trigger] permutation@[t])
                        != (#[trigger] permutation@[u]),
                forall|t: int| 0 <= t < i ==> perm_vector@[#[trigger] permutation@[t] as int] == t,
                forall|x: int|
                    0 <= x < length ==> (#[trigger] perm_vector@[x]) == length || (
                    perm_vector@[x] < i && permutation@[perm_vector@[x] as int] == x),
            decreases length - i,
        {
            let value = permutation[i];
            if value >= length {
                return Err(PermutationError::InvalidPermutation);
            }
            if perm_vector[value] != length {
                proof {
                    let t = perm_vector@[value as int] as int;
                    assert(permutation@[t] == permutation@[i as int]);
                }
                return Err(PermutationError::InvalidPermutation);
            }
            perm_vector.set(value, i);
            i = i + 1;
        }
        proof {
            lemma_bijection_onto(permutation@);
            assert forall|x: int| 0 <= x < length implies (#[trigger] perm_vector@[x]) < length
                && permutation@[perm_vector@[x] as int] == x by {
                assert(occurs_in(permutation@, x));
                let t = choose|t: int| 0 <= t < length && permutation@[t] == x;
                assert(perm_vector@[permutation@[t] as int] == t);
            }
        }
        let mut flip_set: HashSet<usize> = HashSet::new();
        let mut t: usize = 0;
        while t < flips.len()
            invariant
                is_bijection(permutation@),
                length == permutation@.len(),
                0 <= t <= flips@.len(),
                forall|u: int| 0 <= u < t ==> (#[trigger] flips@[u]) < length,
                forall|v: usize|
                    flip_set@.contains(v) <==> exists|u: int| 0 <= u < t && flips@[u] == v,
            decreases flips@.len() - t,
        {
            let value = flips[t];
            if value >= length {
                proof {
                    assert(!all_below(flips@, permutation@.len() as int)) by {
                        assert(flips@[t as int] >= length);
                    }
                }
                return Err(PermutationError::InvalidFlipset);
            }
            flip_set.insert(value);
            proof {
                assert forall|v: usize|
                    flip_set@.contains(v) <==> exists|u: int|
                        0 <= u < t + 1 && flips@[u] == v by {
                    if flip_set@.contains(v) && v != value {
                        let u = choose|u: int| 0 <= u < t && flips@[u] == v;
                        assert(0 <= u < t + 1 && flips@[u] == v);
                    }
                    if v == value {
                        assert(flips@[t as int] == v);
                    }
                }
            }
            t = t + 1;
        }
        let r = Self { permutation: perm_vector, inverse: permutation, flip_set };
        proof {
            assert forall|j: int| r.flipped(j) <==> exists|u: int|
                0 <= u < flips@.len() && flips@[u] as int == j by {
                if exists|u: int| 0 <= u < flips@.len() && flips@[u] as int == j {
                    let u = choose|u: int| 0 <= u < flips@.len() && flips@[u] as int == j;
                    assert(flip_set@.contains(j as usize));
                }
                if r.flipped(j) {
                    let u = choose|u: int| 0 <= u < t && flips@[u] == j as usize;
                    assert(0 <= u < flips@.len() && flips@[u] as int == j);
                }
            }
        }
        Ok(r)
    }

    /// The length L of the permutation.
    pub fn len(&self) -> (r: usize)
        ensures
            r == self.len_spec(),
    {
        self.permutation.len()
    }

    /// The image of index `j`.
    pub fn image_of(&self, j: usize) -> (r: usize)
        requires
            j < self.len_spec(),
        ensures
            r == self.image(j as int),
    {
        self.permutation[j]
    }

    /// Whether index `j` is in the flip set.
    pub fn is_flipped(&self, j: usize) -> (r: bool)
        requires
            j < self.len_spec(),
        ensures
            r == self.flipped(j as int),
    {
        self.flip_set.contains(&j)
    }

    /// Evaluates the signed permutation at `input`: its image, and 1 where
    /// `input` is flipped, else 0.
    pub fn call(&self, input: usize) -> (r: Result<(usize, usize), PermutationError>)
        ensures
            input >= self.len_spec() <==> r == Err::<(usize, usize), _>(
                PermutationError::InvalidPermutation,
            ),
            r is Ok <==> input < self.len_spec(),
            r matches Ok(v) ==> v.0 == self.image(input as int) && v.1 == (if self.flipped(
                input as int,
            ) {
                1int
            } else {
                0int
            }),
    {
        if input >= self.permutation.len() {
            return Err(PermutationError::InvalidPermutation);
        }
        if self.flip_set.contains(&input) {
            Ok((self.permutation[input], 1))
        } else {
            Ok((self.permutation[input], 0))
        }
    }
}

} // verus!
