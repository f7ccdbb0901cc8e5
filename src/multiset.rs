//! An ordered multiset of field elements.
use vstd::prelude::*;
use crate::field::{Scalar, fmul, fadd, modulus};

verus! {

broadcast use vstd::seq_lib::group_to_multiset_ensures, Scalar::lemma_of_val;

/// The canonical integers of a sequence of elements.
pub open spec fn vals(s: Seq<Scalar>) -> Seq<nat> {
    s.map_values(|x: Scalar| x.val())
}

/// The elements with the given canonical integers.
pub open spec fn scalars(s: Seq<nat>) -> Seq<Scalar> {
    s.map_values(|n: nat| Scalar::of(n))
}

/// A sequence of canonical elements is the elements of its integers.
pub proof fn lemma_scalars_of_vals(s: Seq<Scalar>)
    requires
        forall|i: int| 0 <= i < s.len() ==> s[i].val() < modulus(),
    ensures
        scalars(vals(s)) == s,
{
    assert forall|i: int| 0 <= i < s.len() implies scalars(vals(s))[i] == s[i] by {
        Scalar::lemma_val_injective(scalars(vals(s))[i], s[i]);
    }
    assert(scalars(vals(s)) =~= s);
}

/// Two sorted sequences with the same elements are equal.
pub proof fn lemma_sorted_unique(x: Seq<Scalar>, y: Seq<Scalar>)
    requires
        is_sorted(x),
        is_sorted(y),
        x.to_multiset() == y.to_multiset(),
    ensures
        x == y,
{
    let leq = |a: Scalar, b: Scalar| a.val() <= b.val();
    assert forall|a: Scalar, b: Scalar| #[trigger] leq(a, b) && #[trigger] leq(b, a) implies a == b by {
        Scalar::lemma_val_injective(a, b);
    }
    assert(vstd::relations::total_ordering(leq));
    assert(vstd::relations::sorted_by(x, leq));
    assert(vstd::relations::sorted_by(y, leq));
    vstd::seq_lib::lemma_sorted_unique(x, y, leq);
}

/// Every value multiplied by `c`, position by position.
pub open spec fn scaled(s: Seq<nat>, c: nat) -> Seq<nat> {
    s.map_values(|x: nat| fmul(x, c))
}

/// Position-wise sum of two sequences of equal length.
pub open spec fn summed(a: Seq<nat>, b: Seq<nat>) -> Seq<nat> {
    Seq::new(a.len(), |i: int| fadd(a[i], b[i]))
}

/// Elements are in non-decreasing order of their canonical integers.
pub open spec fn is_sorted(s: Seq<Scalar>) -> bool {
    forall|i: int, j: int| 0 <= i <= j < s.len() ==> s[i].val() <= s[j].val()
}

/// `n` copies of `x`.
pub open spec fn copies(x: Scalar, n: nat) -> Seq<Scalar> {
    Seq::new(n, |i: int| x)
}

/// Multiset inclusion: no value occurs more often in `a` than in `b`.
pub open spec fn sub_multiset(a: Seq<Scalar>, b: Seq<Scalar>) -> bool {
    forall|v: Scalar| a.to_multiset().count(v) <= b.to_multiset().count(v)
}

/// A sequence of field elements whose repetitions count; its order is kept
/// because the sequence is later read as evaluations of a polynomial.
pub struct MultiSet(pub Vec<Scalar>);

impl View for MultiSet {
    type V = Seq<Scalar>;

    open spec fn view(&self) -> Seq<Scalar> {
        self.0@
    }
}

/// How often `x` occurs in `s`.
fn count_in(s: &Vec<Scalar>, x: &Scalar) -> (r: usize)
    ensures
        r == s@.to_multiset().count(*x),
{
    let mut c: usize = 0;
    let mut j: usize = 0;
    while j < s.len()
        invariant
            j <= s@.len(),
            c <= j,
            c == s@.take(j as int).to_multiset().count(*x),
        decreases s@.len() - j,
    {
        proof {
            assert(s@.take(j + 1) =~= s@.take(j as int).push(s@[j as int]));
        }
        if s[j].equals(x) {
            c = c + 1;
        }
        j = j + 1;
    }
    assert(s@.take(s@.len() as int) =~= s@);
    c
}

impl MultiSet {
    pub fn new() -> (r: MultiSet)
        ensures
            r@ == Seq::<Scalar>::empty(),
    {
        MultiSet(Vec::new())
    }

    pub fn push(&mut self, x: Scalar)
        ensures
            final(self)@ == old(self)@.push(x),
    {
        self.0.push(x);
    }

    pub fn len(&self) -> (r: usize)
        ensures
            r == self@.len(),
    {
        self.0.len()
    }

    pub fn is_empty(&self) -> (r: bool)
        ensures
            r == (self@.len() == 0),
    {
        self.0.len() == 0
    }

    /// The last element.
    pub fn last(&self) -> (r: Scalar)
        requires
            self@.len() > 0,
        ensures
            r == self@.last(),
    {
        self.0[self.0.len() - 1]
    }

    /// Multiplies every element by `c`.
    pub fn scale(&self, c: &Scalar) -> (r: MultiSet)
        ensures
            r@.len() == self@.len(),
            vals(r@) == scaled(vals(self@), c.val()),
    {
        let mut out: Vec<Scalar> = Vec::new();
        let mut i: usize = 0;
        while i < self.0.len()
            invariant
                i <= self@.len(),
                out@.len() == i,
                forall|k: int| 0 <= k < i ==> out@[k].val() == fmul(self@[k].val(), c.val()),
            decreases self@.len() - i,
        {
            out.push(self.0[i].mul(c));
            i = i + 1;
        }
        let r = MultiSet(out);
        assert(vals(r@) =~= scaled(vals(self@), c.val()));
        r
    }

    /// Position-wise sum with a multiset of the same length.
    pub fn add(&self, o: &MultiSet) -> (r: MultiSet)
        requires
            self@.len() == o@.len(),
        ensures
            r@.len() == self@.len(),
            vals(r@) == summed(vals(self@), vals(o@)),
            forall|i: int| 0 <= i < r@.len() ==> r@[i].val() < modulus(),
    {
        let mut out: Vec<Scalar> = Vec::new();
        let mut i: usize = 0;
        while i < self.0.len()
            invariant
                i <= self@.len(),
                self@.len() == o@.len(),
                out@.len() == i,
                forall|k: int| 0 <= k < i ==> out@[k].val() == fadd(self@[k].val(), o@[k].val()),
            decreases self@.len() - i,
        {
            out.push(self.0[i].add(&o.0[i]));
            i = i + 1;
        }
        let r = MultiSet(out);
        assert(vals(r@) =~= summed(vals(self@), vals(o@)));
        assert forall|i: int| 0 <= i < r@.len() implies r@[i].val() < modulus() by {
            assert(vals(r@)[i] == r@[i].val());
        }
        r
    }

    /// The elements in non-decreasing order of their canonical integers.
    pub fn sort(&self) -> (r: MultiSet)
        ensures
            r@.len() == self@.len(),
            is_sorted(r@),
            r@.to_multiset() == self@.to_multiset(),
    {
        let mut out: Vec<Scalar> = Vec::new();
        let mut i: usize = 0;
        while i < self.0.len()
            invariant
                i <= self@.len(),
                is_sorted(out@),
                out@.to_multiset() == self@.take(i as int).to_multiset(),
            decreases self@.len() - i,
        {
            let x = self.0[i];
            let mut pos: usize = 0;
            while pos < out.len() && out[pos].le(&x)
                invariant
                    pos <= out@.len(),
                    forall|k: int| 0 <= k < pos ==> out@[k].val() <= x.val(),
                decreases out@.len() - pos,
            {
                pos = pos + 1;
            }
            let ghost before = out@;
            out.insert(pos, x);
            proof {
                assert(self@.take(i + 1) =~= self@.take(i as int).push(x));
                assert(forall|k: int| pos <= k < before.len() ==> x.val() <= before[k].val());
                assert(is_sorted(out@));
            }
            i = i + 1;
        }
        assert(self@.take(self@.len() as int) =~= self@);
        assert(out@.to_multiset().len() == self@.to_multiset().len());
        MultiSet(out)
    }

    /// Multiset inclusion: every value occurs in `self` at most as often as in `other`.
    pub fn is_subset_of(&self, other: &MultiSet) -> (r: bool)
        ensures
            r == sub_multiset(self@, other@),
    {
        let mut i: usize = 0;
        while i < self.0.len()
            invariant
                i <= self@.len(),
                forall|k: int|
                    0 <= k < i ==> self@.to_multiset().count(self@[k]) <= other@.to_multiset().count(
                        self@[k],
                    ),
            decreases self@.len() - i,
        {
            let x = self.0[i];
            if count_in(&self.0, &x) > count_in(&other.0, &x) {
                return false;
            }
            i = i + 1;
        }
        proof {
            assert forall|v: Scalar|
                self@.to_multiset().count(v) <= other@.to_multiset().count(v) by {
                if self@.to_multiset().count(v) > 0 {
                    assert(self@.contains(v));
                }
            }
        }
        true
    }

    /// The elements of `self` followed by those of `o`.
    pub fn concat(&self, o: &MultiSet) -> (r: MultiSet)
        ensures
            r@ == self@ + o@,
    {
        let mut out: Vec<Scalar> = Vec::new();
        let mut i: usize = 0;
        while i < self.0.len()
            invariant
                i <= self@.len(),
                out@ == self@.take(i as int),
            decreases self@.len() - i,
        {
            out.push(self.0[i]);
            i = i + 1;
            assert(out@ =~= self@.take(i as int));
        }
        let mut j: usize = 0;
        while j < o.0.len()
            invariant
                j <= o@.len(),
                out@ == self@ + o@.take(j as int),
            decreases o@.len() - j,
        {
            out.push(o.0[j]);
            j = j + 1;
            assert(out@ =~= self@ + o@.take(j as int));
        }
        assert(self@.take(self@.len() as int) =~= self@);
        assert(o@.take(o@.len() as int) =~= o@);
        MultiSet(out)
    }

    /// The elements at positions `from` up to, not including, `to`.
    pub fn slice(&self, from: usize, to: usize) -> (r: MultiSet)
        requires
            from <= to <= self@.len(),
        ensures
            r@ == self@.subrange(from as int, to as int),
    {
        let mut out: Vec<Scalar> = Vec::new();
        let mut i: usize = from;
        while i < to
            invariant
                from <= i <= to,
                to <= self@.len(),
                out@ == self@.subrange(from as int, i as int),
            decreases to - i,
        {
            out.push(self.0[i]);
            i = i + 1;
            assert(out@ =~= self@.subrange(from as int, i as int));
        }
        MultiSet(out)
    }

    /// Appends `n` copies of `x`.
    pub fn extend(&mut self, n: usize, x: Scalar)
        ensures
            final(self)@ == old(self)@ + copies(x, n as nat),
    {
        let ghost start = self@;
        let mut k: usize = 0;
        while k < n
            invariant
                k <= n,
                self@ == start + copies(x, k as nat),
            decreases n - k,
        {
            self.0.push(x);
            k = k + 1;
            assert(self@ =~= start + copies(x, k as nat));
        }
    }
}

} // verus!
