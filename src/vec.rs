//! Vectors of field elements, with elementwise arithmetic.
use crate::field::{fdiv, fmul, fsub, modulus, Fp};
use crate::gauss::{lead, lemma_lead_is};
use vstd::prelude::*;
use vstd::std_specs::iter::IteratorSpec;
use vstd::std_specs::slice::axiom_spec_slice_iter;

verus! {

/// Elementwise difference of two sequences of residues.
pub open spec fn seq_sub(a: Seq<int>, b: Seq<int>) -> Seq<int> {
    Seq::new(a.len(), |i: int| fsub(a[i], b[i]))
}

/// Every residue of a sequence multiplied by `s`.
pub open spec fn seq_scale(a: Seq<int>, s: int) -> Seq<int> {
    Seq::new(a.len(), |i: int| fmul(a[i], s))
}

/// Every residue of a sequence divided by `s`.
pub open spec fn seq_div(a: Seq<int>, s: int) -> Seq<int> {
    Seq::new(a.len(), |i: int| fdiv(a[i], s))
}

/// A sequence of `n` copies of `x`.
pub open spec fn seq_fill(n: nat, x: int) -> Seq<int> {
    Seq::new(n, |i: int| x)
}

/// Every entry is a residue, in `0..MODULUS`.
pub open spec fn all_residues(a: Seq<int>) -> bool {
    forall|i: int| 0 <= i < a.len() ==> 0 <= #[trigger] a[i] < modulus()
}

/// A vector of field elements.
#[derive(Clone, Debug, PartialEq, Eq)]
pub struct Vec {
    vec: std::vec::Vec<Fp>,
}

impl View for Vec {
    type V = Seq<int>;

    /// The residues of the entries, in order.
    closed spec fn view(&self) -> Seq<int> {
        self.vec@.map_values(|x: Fp| x@)
    }
}

impl Vec {
    /// Every entry of the vector is a residue.
    pub proof fn lemma_residues(&self)
        ensures
            all_residues(self@),
    {
        assert forall|i: int| 0 <= i < self@.len() implies 0 <= #[trigger] self@[i] < modulus() by {
            self.vec@[i].lemma_view_in_range();
        }
    }

    /// The vector of `n` zeros.
    pub fn zeros(n: usize) -> (r: Vec)
        ensures
            r@ == seq_fill(n as nat, 0),
    {
        Vec::filled(n, Fp::zero())
    }

    /// The vector of `n` ones.
    pub fn ones(n: usize) -> (r: Vec)
        ensures
            r@ == seq_fill(n as nat, 1),
    {
        Vec::filled(n, Fp::one())
    }

    /// The vector of `n` copies of `x`.
    pub fn filled(n: usize, x: Fp) -> (r: Vec)
        ensures
            r@ == seq_fill(n as nat, x@),
    {
        let mut v: std::vec::Vec<Fp> = std::vec::Vec::new();
        let mut i: usize = 0;
        while i < n
            invariant
                i <= n,
                v@.len() == i,
                forall|j: int| 0 <= j < i ==> #[trigger] v@[j] == x,
            decreases n - i,
        {
            v.push(x);
            i += 1;
        }
        let r = Vec { vec: v };
        assert(r@ =~= seq_fill(n as nat, x@));
        r
    }

    /// The vector with the given entries.
    pub fn from_vec(v: std::vec::Vec<Fp>) -> (r: Vec)
        ensures
            r@ == v@.map_values(|x: Fp| x@),
    {
        Vec { vec: v }
    }

    /// The vector with the entries of a slice.
    pub fn from_slice(s: &[Fp]) -> (r: Vec)
        ensures
            r@ == s@.map_values(|x: Fp| x@),
    {
        let mut v: std::vec::Vec<Fp> = std::vec::Vec::new();
        let mut i: usize = 0;
        while i < s.len()
            invariant
                i <= s@.len(),
                v@ == s@.subrange(0, i as int),
            decreases s@.len() - i,
        {
            v.push(s[i]);
            i += 1;
            assert(v@ =~= s@.subrange(0, i as int));
        }
        assert(v@ =~= s@);
        Vec { vec: v }
    }

    /// A copy of the vector.
    pub fn copied(&self) -> (r: Vec)
        ensures
            r@ == self@,
    {
        let mut v: std::vec::Vec<Fp> = std::vec::Vec::new();
        let mut i: usize = 0;
        while i < self.vec.len()
            invariant
                i <= self.vec@.len(),
                v@ == self.vec@.subrange(0, i as int),
            decreases self.vec@.len() - i,
        {
            v.push(self.vec[i]);
            i += 1;
            assert(v@ =~= self.vec@.subrange(0, i as int));
        }
        assert(v@ =~= self.vec@);
        Vec { vec: v }
    }

    /// An iterator over the entries.
    pub fn iter(&self) -> (r: std::slice::Iter<'_, Fp>)
        ensures
            r.remaining().len() == self@.len(),
            forall|i: int| 0 <= i < self@.len() ==> (*#[trigger] r.remaining()[i])@ == self@[i],
    {
        let s = self.vec.as_slice();
        let r = s.iter();
        proof {
            axiom_spec_slice_iter(s);
        }
        r
    }

    /// The entries as a slice.
    pub fn as_slice(&self) -> (r: &[Fp])
        ensures
            r@.map_values(|x: Fp| x@) == self@,
    {
        self.vec.as_slice()
    }

    /// The entries as a mutable slice: what is written there is written in the vector.
    pub fn iter_mut(&mut self) -> (r: &mut [Fp])
        ensures
            r@.map_values(|x: Fp| x@) == old(self)@,
            final(self)@ == final(r)@.map_values(|x: Fp| x@),
    {
        self.vec.as_mut_slice()
    }

    /// The number of entries.
    pub fn len(&self) -> (r: usize)
        ensures
            r == self@.len(),
    {
        self.vec.len()
    }

    /// The entry at `n`, or nothing when `n` is out of range.
    pub fn get(&self, n: usize) -> (r: Option<&Fp>)
        ensures
            n < self@.len() ==> r is Some && r->0@ == self@[n as int],
            n >= self@.len() ==> r is None,
    {
        if n < self.vec.len() {
            Some(&self.vec[n])
        } else {
            None
        }
    }

    /// The entry at `i`.
    pub fn index(&self, i: usize) -> (r: Fp)
        requires
            i < self@.len(),
        ensures
            r@ == self@[i as int],
    {
        self.vec[i]
    }

    /// Replaces the entry at `i`.
    pub fn set(&mut self, i: usize, x: Fp)
        requires
            i < old(self)@.len(),
        ensures
            final(self)@ == old(self)@.update(i as int, x@),
    {
        self.vec.set(i, x);
        assert(self@ =~= old(self)@.update(i as int, x@));
    }

    /// Truncates to `n` entries, or pads with copies of `value` up to `n`.
    pub fn resize(&mut self, n: usize, value: Fp)
        ensures
            n <= old(self)@.len() ==> final(self)@ == old(self)@.subrange(0, n as int),
            n > old(self)@.len() ==> final(self)@ == old(self)@ + seq_fill(
                (n - old(self)@.len()) as nat,
                value@,
            ),
    {
        let ghost before = self@;
        let ghost raw = self.vec@;
        if n <= self.vec.len() {
            self.vec.truncate(n);
            assert(self@ =~= before.subrange(0, n as int));
        } else {
            while self.vec.len() < n
                invariant
                    before == raw.map_values(|x: Fp| x@),
                    raw.len() <= self.vec@.len() <= n,
                    forall|j: int| 0 <= j < raw.len() ==> #[trigger] self.vec@[j] == raw[j],
                    forall|j: int| raw.len() <= j < self.vec@.len() ==> #[trigger] self.vec@[j] == value,
                decreases n - self.vec@.len(),
            {
                self.vec.push(value);
            }
            assert(self@ =~= before + seq_fill((n - before.len()) as nat, value@));
        }
    }

    /// Elementwise difference with a vector of the same length.
    pub fn sub(&self, rhs: &Vec) -> (r: Vec)
        requires
            self@.len() == rhs@.len(),
        ensures
            r@ == seq_sub(self@, rhs@),
    {
        let mut v: std::vec::Vec<Fp> = std::vec::Vec::new();
        let mut i: usize = 0;
        while i < self.vec.len()
            invariant
                self@.len() == rhs@.len(),
                i <= self@.len(),
                v@.len() == i,
                forall|j: int| 0 <= j < i ==> (#[trigger] v@[j])@ == fsub(self@[j], rhs@[j]),
            decreases self@.len() - i,
        {
            v.push(self.vec[i].sub(rhs.vec[i]));
            i += 1;
        }
        let r = Vec { vec: v };
        assert(r@ =~= seq_sub(self@, rhs@));
        r
    }

    /// Every entry multiplied by `scalar`.
    pub fn mul(&self, scalar: Fp) -> (r: Vec)
        ensures
            r@ == seq_scale(self@, scalar@),
    {
        let mut v: std::vec::Vec<Fp> = std::vec::Vec::new();
        let mut i: usize = 0;
        while i < self.vec.len()
            invariant
                i <= self@.len(),
                v@.len() == i,
                forall|j: int| 0 <= j < i ==> (#[trigger] v@[j])@ == fmul(self@[j], scalar@),
            decreases self@.len() - i,
        {
            v.push(self.vec[i].mul(scalar));
            i += 1;
        }
        let r = Vec { vec: v };
        assert(r@ =~= seq_scale(self@, scalar@));
        r
    }

    /// Every entry divided by a nonzero `scalar` (zero has no inverse in the
    /// field; the elimination divides only by pivots tested to be nonzero).
    pub fn div(&self, scalar: Fp) -> (r: Vec)
        requires
            scalar@ != 0,
        ensures
            r@ == seq_div(self@, scalar@),
    {
        let mut v: std::vec::Vec<Fp> = std::vec::Vec::new();
        let mut i: usize = 0;
        while i < self.vec.len()
            invariant
                scalar@ != 0,
                i <= self@.len(),
                v@.len() == i,
                forall|j: int| 0 <= j < i ==> (#[trigger] v@[j])@ == fdiv(self@[j], scalar@),
            decreases self@.len() - i,
        {
            v.push(self.vec[i].div(scalar));
            i += 1;
        }
        let r = Vec { vec: v };
        assert(r@ =~= seq_div(self@, scalar@));
        r
    }

    /// The index of the first nonzero entry, or the length when there is none.
    pub fn first_nonzero(&self) -> (r: usize)
        ensures
            r == lead(self@),
    {
        let mut i: usize = 0;
        while i < self.vec.len()
            invariant
                i <= self@.len(),
                forall|j: int| 0 <= j < i ==> #[trigger] self@[j] == 0,
            decreases self@.len() - i,
        {
            if !self.vec[i].is_zero() {
                assert(self@[i as int] == self.vec@[i as int]@);
                proof {
                    lemma_lead_is(self@, i as int);
                }
                return i;
            }
            i += 1;
        }
        proof {
            lemma_lead_is(self@, i as int);
        }
        i
    }

    /// Whether some entry is nonzero.
    pub fn any_nonzero(&self) -> (b: bool)
        ensures
            b == exists|j: int| 0 <= j < self@.len() && #[trigger] self@[j] != 0,
    {
        let mut i: usize = 0;
        while i < self.vec.len()
            invariant
                i <= self@.len(),
                forall|j: int| 0 <= j < i ==> #[trigger] self@[j] == 0,
            decreases self@.len() - i,
        {
            if !self.vec[i].is_zero() {
                assert(self@[i as int] == self.vec@[i as int]@);
                return true;
            }
            i += 1;
        }
        false
    }
}

} // verus!
