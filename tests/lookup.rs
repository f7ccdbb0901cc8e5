use plookup::field::{Scalar, MODULUS};
use plookup::lookup::{next_power_of_two, LookUp};
use plookup::multiset::MultiSet;
use plookup::multiset_equality::{accumulator_closes, compute_accumulator_values, compute_h1_h2};
use plookup::table::{LookUpTable, XOR4BitTable};

fn fr(x: u64) -> Scalar {
    Scalar::from_u64(x)
}

fn set_of(xs: &[u64]) -> MultiSet {
    let mut m = MultiSet::new();
    for x in xs {
        m.push(fr(*x));
    }
    m
}

fn values(m: &MultiSet) -> Vec<u64> {
    m.0.iter().map(|x| x.to_u64()).collect()
}

fn lookup_with_reads(n: u64) -> LookUp<XOR4BitTable> {
    let mut lookup = LookUp::new(XOR4BitTable::new());
    for i in 0..n {
        assert!(lookup.read(&(fr(i % 16), fr((i / 16) % 16))));
    }
    lookup
}

#[test]
fn test_pad_correct() {
    let table = XOR4BitTable::new();

    let mut lookup = LookUp::new(table);

    lookup.read(&(fr(2), fr(2)));
    lookup.read(&(fr(3), fr(2)));
    lookup.read(&(fr(1), fr(2)));

    let (f, t) = lookup.to_multiset(fr(5));
    assert_eq!(f.len() + 1, t.len());

    assert!(t.len().is_power_of_two());
}

#[test]
fn read_outside_domain_changes_nothing() {
    let mut lookup = LookUp::new(XOR4BitTable::new());

    assert!(!lookup.read(&(fr(16), fr(6))));
    assert_eq!(lookup.left_wires().len(), 0);
    assert!(!lookup.read(&(fr(8), fr(17))));
    assert_eq!(lookup.right_wires().len(), 0);
    assert!(lookup.read(&(fr(15), fr(13))));

    assert_eq!(lookup.left_wires().len(), 1);
    assert_eq!(lookup.right_wires().len(), 1);
    assert_eq!(lookup.output_wires().len(), 1);
    assert_eq!(values(lookup.output_wires()), vec![2]);
}

#[test]
fn merged_witness_is_linear_combination() {
    let mut lookup = LookUp::new(XOR4BitTable::new());
    assert!(lookup.read(&(fr(15), fr(13))));
    let (f, t) = lookup.to_multiset(fr(5));
    // 15 + 5 * 13 + 25 * (15 xor 13)
    assert_eq!(f.0[0].to_u64(), 130);
    assert_eq!(f.len(), 255);
    assert_eq!(t.len(), 256);
    assert!(values(&f).iter().all(|v| *v == 130));
    let tv = values(&t);
    assert!(tv.windows(2).all(|w| w[0] <= w[1]));
    assert!(tv.contains(&130));
}

#[test]
fn empty_lookup_pads_to_table_size() {
    let lookup = LookUp::new(XOR4BitTable::new());
    let (f, t) = lookup.to_multiset(fr(7));
    assert_eq!(t.len(), 256);
    assert_eq!(f.len(), 255);
    let last = t.last();
    assert!(f.0.iter().all(|x| *x == last));
}

#[test]
fn padding_sizes_for_many_witness_sizes() {
    for (reads, size) in [(0u64, 256usize), (3, 256), (255, 256), (256, 512), (300, 512), (511, 512), (512, 1024)] {
        let lookup = lookup_with_reads(reads);
        let (f, t) = lookup.to_multiset(fr(11));
        assert_eq!(t.len(), size);
        assert_eq!(f.len() + 1, t.len());
        assert!(t.len().is_power_of_two());
    }
}

#[test]
fn witness_values_appear_in_table() {
    let lookup = lookup_with_reads(40);
    for c in [0u64, 1, 5, 1 << 40, MODULUS - 1] {
        let (f, t) = lookup.to_multiset(fr(c));
        let tv = values(&t);
        assert!(values(&f).iter().all(|v| tv.contains(v)));
    }
}

#[test]
fn pad_extends_table_first_when_witness_shorter() {
    let lookup = LookUp::new(XOR4BitTable::new());
    let mut w = set_of(&[4, 5]);
    let mut t = set_of(&[1, 2, 3, 9, 9]);
    lookup.pad(&mut w, &mut t);
    assert_eq!(values(&t), vec![1, 2, 3, 9, 9, 9, 9, 9]);
    assert_eq!(values(&w), vec![4, 5, 5, 5, 5, 5, 5]);
}

#[test]
fn pad_equal_lengths_goes_to_next_power_above() {
    let lookup = LookUp::new(XOR4BitTable::new());
    let mut w = set_of(&[4, 5, 6, 7]);
    let mut t = set_of(&[1, 2, 3, 8]);
    lookup.pad(&mut w, &mut t);
    assert_eq!(values(&t), vec![1, 2, 3, 8, 8, 8, 8, 8]);
    assert_eq!(values(&w), vec![4, 5, 6, 7, 7, 7, 7]);
}

#[test]
fn pad_longer_witness() {
    let lookup = LookUp::new(XOR4BitTable::new());
    let mut w = set_of(&[4, 5, 6]);
    let mut t = set_of(&[1, 2]);
    lookup.pad(&mut w, &mut t);
    assert_eq!(values(&t), vec![1, 2, 2, 2]);
    assert_eq!(values(&w), vec![4, 5, 6]);

    let mut w = set_of(&[4, 5, 6, 9, 3]);
    let mut t = set_of(&[1, 2]);
    lookup.pad(&mut w, &mut t);
    assert_eq!(values(&t), vec![1, 2, 2, 2, 2, 2, 2, 2]);
    assert_eq!(values(&w), vec![4, 5, 6, 9, 3, 3, 3]);
}

#[test]
fn pad_empty_witness_uses_table_value() {
    let lookup = LookUp::new(XOR4BitTable::new());
    let mut w = MultiSet::new();
    let mut t = set_of(&[1, 2, 3]);
    lookup.pad(&mut w, &mut t);
    assert_eq!(values(&t), vec![1, 2, 3, 3]);
    assert_eq!(values(&w), vec![3, 3, 3]);
}

#[test]
fn next_power_of_two_values() {
    assert_eq!(next_power_of_two(0), 1);
    assert_eq!(next_power_of_two(1), 1);
    assert_eq!(next_power_of_two(2), 2);
    assert_eq!(next_power_of_two(3), 4);
    assert_eq!(next_power_of_two(256), 256);
    assert_eq!(next_power_of_two(257), 512);
}

#[test]
fn field_arithmetic_wraps_at_modulus() {
    assert_eq!(fr(MODULUS).to_u64(), 0);
    assert_eq!(fr(MODULUS - 1).add(&fr(2)).to_u64(), 1);
    assert_eq!(fr(MODULUS - 1).mul(&fr(MODULUS - 1)).to_u64(), 1);
    assert_eq!(fr(6).mul(&fr(7)).to_u64(), 42);
    assert_eq!(fr(1 << 32).mul(&fr(1 << 32)).to_u64(), (1u64 << 32) - 1);
}

#[test]
fn field_inverse() {
    let inv = fr(2).inverse().unwrap();
    assert_eq!(inv.mul(&fr(2)).to_u64(), 1);
    assert_eq!(inv.to_u64(), (MODULUS + 1) / 2);
    assert!(fr(0).inverse().is_none());
    assert!(fr(MODULUS).inverse().is_none());
    assert_eq!(fr(MODULUS - 1).inverse().unwrap().to_u64(), MODULUS - 1);
    for x in [3u64, 7, 1 << 32, 123456789123, MODULUS - 2] {
        let inv = fr(x).inverse().unwrap();
        assert_eq!(inv.mul(&fr(x)).to_u64(), 1);
    }
}

#[test]
fn multiset_sort_scale_add() {
    let m = set_of(&[5, 1, 4, 1, 3]);
    assert_eq!(values(&m.sort()), vec![1, 1, 3, 4, 5]);
    assert_eq!(values(&m.scale(&fr(3))), vec![15, 3, 12, 3, 9]);
    assert_eq!(values(&m.add(&set_of(&[1, 1, 1, 1, MODULUS - 3]))), vec![6, 2, 5, 2, 0]);
    let mut e = set_of(&[7]);
    e.extend(0, fr(1));
    assert_eq!(values(&e), vec![7]);
    e.extend(2, fr(1));
    assert_eq!(values(&e), vec![7, 1, 1]);
}

#[test]
fn multiset_subset_counts_multiplicity() {
    assert!(set_of(&[1, 2]).is_subset_of(&set_of(&[2, 3, 1])));
    assert!(set_of(&[]).is_subset_of(&set_of(&[2])));
    assert!(!set_of(&[1, 1]).is_subset_of(&set_of(&[1, 2])));
    assert!(set_of(&[1, 1]).is_subset_of(&set_of(&[1, 2, 1])));
    assert!(!set_of(&[4]).is_subset_of(&set_of(&[1, 2])));
}

#[test]
fn sorted_split_overlaps_in_one() {
    let f = set_of(&[2, 1]);
    let t = set_of(&[1, 2, 3]);
    let (h1, h2) = compute_h1_h2(&f, &t);
    assert_eq!(values(&h1), vec![1, 1, 2]);
    assert_eq!(values(&h2), vec![2, 2, 3]);
}

#[test]
fn accumulator_closes_when_witness_in_table() {
    let f = set_of(&[1, 2, 2]);
    let t = set_of(&[1, 2, 3, 4]);
    let (h1, h2) = compute_h1_h2(&f, &t);
    let z = compute_accumulator_values(&f, &t, &h1, &h2, fr(9), fr(13)).unwrap();
    assert_eq!(z.len(), 4);
    assert_eq!(z.0[0].to_u64(), 1);
    assert_eq!(z.last().to_u64(), 1);
    assert!(accumulator_closes(&z));
}

#[test]
fn accumulator_closes_reads_last_value() {
    assert!(accumulator_closes(&set_of(&[5, 1])));
    assert!(!accumulator_closes(&set_of(&[1, 5])));
    assert!(!accumulator_closes(&MultiSet::new()));
}

#[test]
fn accumulator_does_not_close_when_witness_outside_table() {
    let f = set_of(&[1, 7, 2]);
    let t = set_of(&[1, 2, 3, 4]);
    let (h1, h2) = compute_h1_h2(&f, &t);
    let z = compute_accumulator_values(&f, &t, &h1, &h2, fr(9), fr(13)).unwrap();
    assert_ne!(z.last().to_u64(), 1);
    assert!(!accumulator_closes(&z));
}

#[test]
fn table_rows_and_reads() {
    let table = XOR4BitTable::new();
    let (l, r, o) = table.to_multiset();
    assert_eq!(l.len(), 256);
    assert_eq!(values(&l)[17], 1);
    assert_eq!(values(&r)[17], 1);
    assert_eq!(values(&o)[17], 0);
    assert_eq!(values(&o)[16 * 12 + 10], 12 ^ 10);
    assert_eq!(table.read(&(fr(12), fr(10))).map(|x| x.to_u64()), Some(6));
    assert_eq!(table.read(&(fr(12), fr(16))), None);
}

#[test]
fn xor_reads_run_through_split_and_accumulator() {
    let mut lookup = LookUp::new(XOR4BitTable::new());
    assert!(lookup.read(&(fr(1), fr(2))));
    assert!(lookup.read(&(fr(2), fr(4))));
    assert!(lookup.read(&(fr(3), fr(5))));
    let (f, t) = lookup.to_multiset(fr(1 << 20));
    assert_eq!(f.len() + 1, t.len());
    let (h1, h2) = compute_h1_h2(&f, &t);
    assert_eq!(h1.len(), t.len());
    assert_eq!(h2.len(), t.len());
    assert_eq!(h1.last(), h2.0[0]);
    let z = compute_accumulator_values(&f, &t, &h1, &h2, fr(123456789), fr(987654321)).unwrap();
    assert_eq!(z.len(), t.len());
    assert_eq!(z.0[0].to_u64(), 1);
    assert_eq!(z.last().to_u64(), 1);
}

#[test]
fn merge_is_deterministic() {
    let a = lookup_with_reads(20);
    let b = lookup_with_reads(20);
    let (f1, t1) = a.to_multiset(fr(99));
    let (f2, t2) = b.to_multiset(fr(99));
    assert_eq!(values(&f1), values(&f2));
    assert_eq!(values(&t1), values(&t2));
}

#[test]
fn padded_witness_repeats_exceed_table_multiplicity() {
    let mut lookup = LookUp::new(XOR4BitTable::new());
    assert!(lookup.read(&(fr(15), fr(13))));
    let (f, t) = lookup.to_multiset(fr(5));
    // 255 copies of one value against a table that holds it once
    assert!(!f.is_subset_of(&t));
    assert!(f.sort().slice(0, 1).is_subset_of(&t));
}

fn contained_in(f: &MultiSet, t: &MultiSet) -> bool {
    let tv = values(t);
    values(f).iter().all(|v| tv.contains(v))
}

#[test]
fn test_inclusion() {
    let table = XOR4BitTable::new();

    let mut lookup = LookUp::new(table);

    lookup.read(&(fr(2), fr(2)));
    lookup.read(&(fr(1), fr(2)));
    lookup.read(&(fr(1), fr(2)));
    let (f, t) = lookup.to_multiset(fr(5));
    assert!(contained_in(&f, &t));
}

#[test]
fn test_len() {
    let table = XOR4BitTable::new();
    let mut lookup = LookUp::new(table);

    let added = lookup.read(&(fr(16), fr(6)));
    assert!(!added);

    let added = lookup.read(&(fr(8), fr(17)));
    assert!(!added);
    let added = lookup.read(&(fr(15), fr(13)));
    assert!(added);

    assert_eq!(lookup.left_wires().len(), 1);
    assert_eq!(lookup.right_wires().len(), 1);
    assert_eq!(lookup.output_wires().len(), 1);

    let (f, t) = lookup.to_multiset(fr(5));
    assert!(contained_in(&f, &t));
}
