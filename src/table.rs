//! Lookup tables: a relation on pairs of field elements, queried point by
//! point or enumerated as three parallel columns.
use vstd::prelude::*;
use crate::field::{Scalar, modulus};
use crate::multiset::MultiSet;

verus! {

broadcast use Scalar::lemma_of_val;

/// A table that answers point queries and lists all of its rows.
pub trait LookUpTable {
    /// The value the table holds for the key `(a, b)`, if any.
    spec fn lookup(&self, a: Scalar, b: Scalar) -> Option<Scalar>;

    /// Every row `(a, b, value)` of the table, in enumeration order.
    spec fn rows(&self) -> Seq<(Scalar, Scalar, Scalar)>;

    /// A key that the table answers stands, with its value, among the rows.
    proof fn lemma_lookup_in_rows(&self, a: Scalar, b: Scalar, x: Scalar)
        requires
            self.lookup(a, b) == Some(x),
        ensures
            self.rows().contains((a, b, x)),
    ;

    fn read(&self, key: &(Scalar, Scalar)) -> (r: Option<Scalar>)
        ensures
            r == self.lookup(key.0, key.1),
    ;

    /// The rows as three columns: keys on the left and right, values in the output.
    fn to_multiset(&self) -> (r: (MultiSet, MultiSet, MultiSet))
        ensures
            self.rows().len() > 0,
            r.0@.len() == self.rows().len(),
            r.1@.len() == self.rows().len(),
            r.2@.len() == self.rows().len(),
            forall|i: int|
                0 <= i < self.rows().len() ==> (r.0@[i], r.1@[i], r.2@[i]) == self.rows()[i],
    ;
}

/// Bitwise exclusive or of two small integers.
pub open spec fn xor_of(a: int, b: int) -> nat {
    ((a as u64) ^ (b as u64)) as nat
}

/// Bitwise XOR of two operands in `0..16`.
pub struct XOR4BitTable {}

impl XOR4BitTable {
    pub fn new() -> (r: XOR4BitTable) {
        XOR4BitTable {}
    }
}

impl LookUpTable for XOR4BitTable {
    open spec fn lookup(&self, a: Scalar, b: Scalar) -> Option<Scalar> {
        if a.val() < 16 && b.val() < 16 {
            Some(Scalar::of(xor_of(a.val() as int, b.val() as int)))
        } else {
            None
        }
    }

    open spec fn rows(&self) -> Seq<(Scalar, Scalar, Scalar)> {
        Seq::new(
            256,
            |i: int|
                (
                    Scalar::of((i / 16) as nat),
                    Scalar::of((i % 16) as nat),
                    Scalar::of(xor_of(i / 16, i % 16)),
                ),
        )
    }

    proof fn lemma_lookup_in_rows(&self, a: Scalar, b: Scalar, x: Scalar) {
        let i: int = (a.val() * 16 + b.val()) as int;
        assert(i / 16 == a.val() && i % 16 == b.val()) by (nonlinear_arith)
            requires
                i == a.val() * 16 + b.val(),
                b.val() < 16,
        ;
        Scalar::lemma_val_injective(a, Scalar::of(a.val()));
        Scalar::lemma_val_injective(b, Scalar::of(b.val()));
        assert(self.rows()[i] == (a, b, x));
    }

    fn read(&self, key: &(Scalar, Scalar)) -> (r: Option<Scalar>) {
        let a = key.0.to_u64();
        let b = key.1.to_u64();
        if a < 16 && b < 16 {
            let x = Scalar::from_u64(a ^ b);
            proof {
                Scalar::lemma_val_injective(x, Scalar::of(xor_of(a as int, b as int)));
            }
            Some(x)
        } else {
            None
        }
    }

    fn to_multiset(&self) -> (r: (MultiSet, MultiSet, MultiSet)) {
        let mut left = MultiSet::new();
        let mut right = MultiSet::new();
        let mut output = MultiSet::new();
        let mut a: u64 = 0;
        while a < 16
            invariant
                a <= 16,
                left@.len() == a * 16,
                right@.len() == a * 16,
                output@.len() == a * 16,
                forall|k: int|
                    0 <= k < a * 16 ==> (left@[k], right@[k], output@[k]) == self.rows()[k],
            decreases 16 - a,
        {
            let mut b: u64 = 0;
            while b < 16
                invariant
                    a < 16,
                    b <= 16,
                    left@.len() == a * 16 + b,
                    right@.len() == a * 16 + b,
                    output@.len() == a * 16 + b,
                    forall|k: int|
                        0 <= k < a * 16 + b ==> (left@[k], right@[k], output@[k]) == self.rows()[k],
                decreases 16 - b,
            {
                let ghost k: int = a * 16 + b;
                assert(k / 16 == a && k % 16 == b) by (nonlinear_arith)
                    requires
                        k == a * 16 + b,
                        b < 16,
                ;
                let l = Scalar::from_u64(a);
                let r = Scalar::from_u64(b);
                let o = Scalar::from_u64(a ^ b);
                proof {
                    Scalar::lemma_val_injective(l, Scalar::of(a as nat));
                    Scalar::lemma_val_injective(r, Scalar::of(b as nat));
                    Scalar::lemma_val_injective(o, Scalar::of(xor_of(a as int, b as int)));
                }
                left.push(l);
                right.push(r);
                output.push(o);
                b = b + 1;
            }
            a = a + 1;
        }
        (left, right, output)
    }
}

} // verus!
