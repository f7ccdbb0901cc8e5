//! Recording lookups against a table and merging witness and table into the
//! two padded multisets that the proof argues about.
use vstd::prelude::*;
use crate::field::{Scalar, fmul};
use crate::multiset::{
    MultiSet, vals, scaled, summed, scalars, copies, is_sorted, lemma_scalars_of_vals,
    lemma_sorted_unique,
};
use crate::table::LookUpTable;

verus! {

/// Largest length that padding accepts, so that every size it computes fits.
pub const MAX_LEN: usize = usize::MAX / 4;

/// `n` is a power of two.
pub open spec fn is_power_of_two(n: nat) -> bool
    decreases n,
{
    if n <= 1 {
        n == 1
    } else {
        n % 2 == 0 && is_power_of_two(n / 2)
    }
}

/// `p` is the smallest power of two that is at least `n`.
pub open spec fn is_next_power_of_two(p: nat, n: nat) -> bool {
    is_power_of_two(p) && n <= p && (p == 1 || p / 2 < n)
}

/// A power of two below another is at most half of it.
pub proof fn lemma_power_of_two_gap(p: nat, q: nat)
    requires
        is_power_of_two(p),
        is_power_of_two(q),
        p < q,
    ensures
        2 * p <= q,
    decreases q,
{
    if p != 1 {
        lemma_power_of_two_gap(p / 2, q / 2);
    }
}

/// There is one smallest power of two at least `n`.
pub proof fn lemma_next_power_of_two_unique(p: nat, q: nat, n: nat)
    requires
        is_next_power_of_two(p, n),
        is_next_power_of_two(q, n),
    ensures
        p == q,
{
    if p < q {
        lemma_power_of_two_gap(p, q);
    } else if q < p {
        lemma_power_of_two_gap(q, p);
    }
}

/// The smallest power of two that is at least `n`.
pub fn next_power_of_two(n: usize) -> (r: usize)
    requires
        n <= MAX_LEN,
    ensures
        is_next_power_of_two(r as nat, n as nat),
{
    let mut p: usize = 1;
    while p < n
        invariant
            1 <= p,
            p <= 2 * MAX_LEN,
            n <= MAX_LEN,
            is_power_of_two(p as nat),
            p == 1 || p / 2 < n,
        decreases usize::MAX - p,
    {
        assert(is_power_of_two((p * 2) as nat));
        p = p * 2;
    }
    p
}

/// The outcome of padding `w0` and `t0` into `w1` and `t1`: the table is
/// extended with copies of its last element up to the next power of two
/// (of its own length, or of one more than the witness's where the witness
/// is not shorter), and the witness is extended to one less than that with
/// copies of its own last element, or of the table's where it is empty.
pub open spec fn padded(w0: Seq<Scalar>, t0: Seq<Scalar>, w1: Seq<Scalar>, t1: Seq<Scalar>) -> bool {
    let target = if w0.len() < t0.len() {
        t0.len()
    } else {
        w0.len() + 1
    };
    let fill = if 0 < w0.len() {
        w0.last()
    } else {
        t0.last()
    };
    &&& is_next_power_of_two(t1.len(), target)
    &&& t0.len() <= t1.len()
    &&& t1 == t0 + copies(t0.last(), (t1.len() - t0.len()) as nat)
    &&& w1.len() + 1 == t1.len()
    &&& w0.len() <= w1.len()
    &&& w1 == w0 + copies(fill, (w1.len() - w0.len()) as nat)
}

/// The random linear combination `l + c * r + c^2 * o` of three columns.
pub open spec fn merged(l: Seq<Scalar>, r: Seq<Scalar>, o: Seq<Scalar>, c: nat) -> Seq<nat> {
    summed(summed(scaled(vals(l), 1), scaled(vals(r), c)), scaled(vals(o), fmul(c, c)))
}

/// The random linear combination of the columns of a table's rows.
pub open spec fn merged_rows(rows: Seq<(Scalar, Scalar, Scalar)>, c: nat) -> Seq<nat> {
    merged(
        rows.map_values(|x: (Scalar, Scalar, Scalar)| x.0),
        rows.map_values(|x: (Scalar, Scalar, Scalar)| x.1),
        rows.map_values(|x: (Scalar, Scalar, Scalar)| x.2),
        c,
    )
}

pub struct LookUp<T: LookUpTable> {
    table: T,
    left_wires: MultiSet,
    right_wires: MultiSet,
    output_wires: MultiSet,
}

impl<T: LookUpTable> LookUp<T> {
    /// The table that reads are checked against.
    pub closed spec fn tbl(&self) -> T {
        self.table
    }

    /// Left operands of the successful reads, in call order.
    pub closed spec fn left(&self) -> Seq<Scalar> {
        self.left_wires@
    }

    /// Right operands of the successful reads, in call order.
    pub closed spec fn right(&self) -> Seq<Scalar> {
        self.right_wires@
    }

    /// Values returned by the successful reads, in call order.
    pub closed spec fn output(&self) -> Seq<Scalar> {
        self.output_wires@
    }

    /// The three wires have one entry per read, and each entry is a row of the table.
    pub open spec fn wf(&self) -> bool {
        &&& self.left().len() == self.right().len()
        &&& self.left().len() == self.output().len()
        &&& forall|i: int|
            0 <= i < self.left().len() ==> self.tbl().lookup(self.left()[i], self.right()[i])
                == Some(self.output()[i])
    }

    /// What `to_multiset` returns for the challenge `c`: the merged witness
    /// `f`, padded, and the merged table `t`, sorted and then padded.
    pub open spec fn is_merge_of(&self, c: nat, f: Seq<Scalar>, t: Seq<Scalar>) -> bool {
        let w = self.left().len();
        let n = self.tbl().rows().len();
        &&& n <= t.len()
        &&& w <= f.len()
        &&& f.take(w as int) == scalars(merged(self.left(), self.right(), self.output(), c))
        &&& is_sorted(t.take(n as int))
        &&& t.take(n as int).to_multiset() == scalars(merged_rows(self.tbl().rows(), c)).to_multiset()
        &&& padded(f.take(w as int), t.take(n as int), f, t)
    }

    pub fn new(table: T) -> (r: LookUp<T>)
        ensures
            r.wf(),
            r.tbl() == table,
            r.left() == Seq::<Scalar>::empty(),
            r.right() == Seq::<Scalar>::empty(),
            r.output() == Seq::<Scalar>::empty(),
    {
        LookUp {
            table: table,
            left_wires: MultiSet::new(),
            right_wires: MultiSet::new(),
            output_wires: MultiSet::new(),
        }
    }

    pub fn left_wires(&self) -> (r: &MultiSet)
        ensures
            r@ == self.left(),
    {
        &self.left_wires
    }

    pub fn right_wires(&self) -> (r: &MultiSet)
        ensures
            r@ == self.right(),
    {
        &self.right_wires
    }

    pub fn output_wires(&self) -> (r: &MultiSet)
        ensures
            r@ == self.output(),
    {
        &self.output_wires
    }

    /// Looks the key up in the table; where it is found, records the key and
    /// the value on the three wires and returns true, else changes nothing.
    pub fn read(&mut self, key: &(Scalar, Scalar)) -> (r: bool)
        requires
            old(self).wf(),
        ensures
            final(self).wf(),
            final(self).tbl() == old(self).tbl(),
            r == old(self).tbl().lookup(key.0, key.1) is Some,
            r ==> final(self).left() == old(self).left().push(key.0),
            r ==> final(self).right() == old(self).right().push(key.1),
            r ==> final(self).output() == old(self).output().push(
                old(self).tbl().lookup(key.0, key.1)->Some_0,
            ),
            !r ==> final(self).left() == old(self).left(),
            !r ==> final(self).right() == old(self).right(),
            !r ==> final(self).output() == old(self).output(),
    {
        let found = self.table.read(key);
        match found {
            None => false,
            Some(output) => {
                self.left_wires.push(key.0);
                self.right_wires.push(key.1);
                self.output_wires.push(output);
                true
            },
        }
    }

    /// Pads witness and table so that the table's length is a power of two
    /// and exactly one more than the witness's.
    pub fn pad(&self, witness: &mut MultiSet, table: &mut MultiSet)
        requires
            old(table)@.len() > 0,
            old(table)@.len() < MAX_LEN,
            old(witness)@.len() < MAX_LEN,
        ensures
            padded(old(witness)@, old(table)@, final(witness)@, final(table)@),
    {
        let w = witness.len();
        let t = table.len();
        let target = if w < t {
            t
        } else {
            w + 1
        };
        let size = next_power_of_two(target);
        let table_fill = table.last();
        let witness_fill = if 0 < w {
            witness.last()
        } else {
            table_fill
        };
        table.extend(size - t, table_fill);
        witness.extend(size - 1 - w, witness_fill);
    }

    /// Compresses each witness triple and each table row into one value with
    /// the challenge, sorts the table's values and pads both.
    pub fn to_multiset(&self, challenge: Scalar) -> (r: (MultiSet, MultiSet))
        requires
            self.wf(),
            self.left().len() < MAX_LEN,
            self.tbl().rows().len() < MAX_LEN,
        ensures
            self.is_merge_of(challenge.val(), r.0@, r.1@),
    {
        let one = Scalar::one();
        let challenge_sq = challenge.mul(&challenge);
        let left = self.left_wires.scale(&one);
        let right = self.right_wires.scale(&challenge);
        let output = self.output_wires.scale(&challenge_sq);
        let mut merged_witness = left.add(&right).add(&output);

        let (t_left, t_right, t_output) = self.table.to_multiset();
        let left = t_left.scale(&one);
        let right = t_right.scale(&challenge);
        let output = t_output.scale(&challenge_sq);
        let merged_table = left.add(&right).add(&output);
        let mut sorted_table = merged_table.sort();
        let ghost w0 = merged_witness@;
        let ghost t0 = sorted_table@;
        proof {
            let c = challenge.val();
            let rows = self.tbl().rows();
            assert(t_left@ =~= rows.map_values(|x: (Scalar, Scalar, Scalar)| x.0));
            assert(t_right@ =~= rows.map_values(|x: (Scalar, Scalar, Scalar)| x.1));
            assert(t_output@ =~= rows.map_values(|x: (Scalar, Scalar, Scalar)| x.2));
            assert(vals(merged_table@) == merged_rows(rows, c));
            lemma_scalars_of_vals(merged_table@);
            assert(vals(merged_witness@) == merged(self.left(), self.right(), self.output(), c));
            lemma_scalars_of_vals(merged_witness@);
        }
        self.pad(&mut merged_witness, &mut sorted_table);
        proof {
            assert(merged_witness@.take(w0.len() as int) =~= w0);
            assert(sorted_table@.take(t0.len() as int) =~= t0);
        }
        (merged_witness, sorted_table)
    }

    /// After merging, for every challenge and every number of reads, the
    /// table is one longer than the witness and its length is a power of two.
    pub proof fn lemma_merge_sizes(&self, c: nat, f: Seq<Scalar>, t: Seq<Scalar>)
        requires
            self.is_merge_of(c, f, t),
        ensures
            f.len() + 1 == t.len(),
            is_power_of_two(t.len()),
    {
    }

    /// With no reads recorded the merged witness holds only padding, and the
    /// sizes obey the same rule: the table is padded to the next power of two
    /// of its own length and the witness to one less, with values of the table.
    pub proof fn lemma_merge_of_empty(&self, c: nat, f: Seq<Scalar>, t: Seq<Scalar>)
        requires
            self.wf(),
            self.left().len() == 0,
            self.tbl().rows().len() > 0,
            self.is_merge_of(c, f, t),
        ensures
            f.take(0) == Seq::<Scalar>::empty(),
            is_next_power_of_two(t.len(), self.tbl().rows().len()),
            f.len() + 1 == t.len(),
            is_power_of_two(t.len()),
            forall|i: int| 0 <= i < f.len() ==> t.contains(#[trigger] f[i]),
    {
        assert(f.take(0) =~= Seq::<Scalar>::empty());
        self.lemma_witness_values_in_table(c, f, t);
    }

    /// Every value of the merged witness, padding included, is among the
    /// values of the merged table, for every challenge.
    pub proof fn lemma_witness_values_in_table(&self, c: nat, f: Seq<Scalar>, t: Seq<Scalar>)
        requires
            self.wf(),
            self.is_merge_of(c, f, t),
        ensures
            forall|i: int| 0 <= i < f.len() ==> t.contains(#[trigger] f[i]),
    {
        broadcast use vstd::seq_lib::group_to_multiset_ensures;

        let w = self.left().len() as int;
        let n = self.tbl().rows().len() as int;
        let rows = self.tbl().rows();
        let t0 = t.take(n);
        let mt = scalars(merged_rows(rows, c));
        assert forall|i: int| 0 <= i < w implies t.contains(f[i]) by {
            let a = self.left()[i];
            let b = self.right()[i];
            let x = self.output()[i];
            self.tbl().lemma_lookup_in_rows(a, b, x);
            let j = choose|j: int| 0 <= j < rows.len() && rows[j] == (a, b, x);
            assert(f.take(w)[i] == f[i]);
            assert(merged_rows(rows, c)[j] == merged(self.left(), self.right(), self.output(), c)[i]);
            assert(mt[j] == f[i]);
            assert(mt.contains(f[i]));
            assert(t0.to_multiset().count(f[i]) > 0);
            let k = choose|k: int| 0 <= k < t0.len() && t0[k] == f[i];
            assert(t[k] == f[i]);
        }
        assert forall|i: int| w <= i < f.len() implies t.contains(f[i]) by {
            let fill = if 0 < w {
                f.take(w).last()
            } else {
                t0.last()
            };
            assert(f[i] == (f.take(w) + copies(fill, (f.len() - w) as nat))[i]);
            if 0 < w {
                assert(f.take(w).last() == f[w - 1]);
                assert(t.contains(f[w - 1]));
            } else if n > 0 {
                assert(t[n - 1] == t0.last());
            } else {
                assert(t[0] == t0.last());
            }
        }
    }

    /// Merging is deterministic: the same reads and the same challenge give
    /// the same witness and table, element for element.
    pub proof fn lemma_merge_deterministic(
        &self,
        c: nat,
        f1: Seq<Scalar>,
        t1: Seq<Scalar>,
        f2: Seq<Scalar>,
        t2: Seq<Scalar>,
    )
        requires
            self.is_merge_of(c, f1, t1),
            self.is_merge_of(c, f2, t2),
        ensures
            f1 == f2,
            t1 == t2,
    {
        let w = self.left().len() as int;
        let n = self.tbl().rows().len() as int;
        lemma_sorted_unique(t1.take(n), t2.take(n));
        let target = if w < n { n } else { w + 1 };
        lemma_next_power_of_two_unique(t1.len(), t2.len(), target as nat);
        assert(t1 =~= t2);
        assert(f1 =~= f2);
    }
}

} // verus!
