use persuit::bitset_column::BitSetColumn;
use persuit::bitvec_column::BitVecColumn;
use persuit::btree_column::BTreeSetColumn;
use persuit::column::Column;
use persuit::vec_column::VecColumn;

#[test]
fn bv_pivot() {
    let col = BitVecColumn::from_sparse_col(vec![0, 1, 5]);
    assert_eq!(col.pivot(), Some(5));
}

#[test]
fn bv_add_col() {
    let mut col1 = BitVecColumn::from_sparse_col(vec![0, 1, 5]);
    let col2 = BitVecColumn::from_sparse_col(vec![0, 1, 8]);
    let col3 = BitVecColumn::from_sparse_col(vec![5, 8]);
    col1.add_col(&col2);
    assert_eq!(col1, col3);
}

#[test]
fn bv_add_col2() {
    let col1 = BitVecColumn::from_sparse_col(vec![0, 1, 5]);
    let mut col2 = BitVecColumn::from_sparse_col(vec![0, 1, 8]);
    let col3 = BitVecColumn::from_sparse_col(vec![5, 8]);
    col2.add_col(&col1);
    assert_eq!(col2, col3);
}

#[test]
fn bs_pivot() {
    let col = BitSetColumn::from_sparse_col(vec![0, 1, 5]);
    assert_eq!(col.pivot(), Some(5));
}

#[test]
fn bs_add_col() {
    let mut col1 = BitSetColumn::from_sparse_col(vec![0, 1, 5]);
    let col2 = BitSetColumn::from_sparse_col(vec![0, 1, 8]);
    let col3 = BitSetColumn::from_sparse_col(vec![5, 8]);
    col1.add_col(&col2);
    assert_eq!(col1, col3);
}

#[test]
fn bs_add_col2() {
    let col1 = BitSetColumn::from_sparse_col(vec![0, 1, 5]);
    let mut col2 = BitSetColumn::from_sparse_col(vec![0, 1, 8]);
    let col3 = BitSetColumn::from_sparse_col(vec![5, 8]);
    col2.add_col(&col1);
    assert_eq!(col2, col3);
}

#[test]
fn vec_add_col_both_orders() {
    let mut col1 = VecColumn::from_sparse_col(vec![0, 1, 5]);
    let col2 = VecColumn::from_sparse_col(vec![0, 1, 8]);
    col1.add_col(&col2);
    assert_eq!(*col1.col(), vec![5, 8]);

    let col1 = VecColumn::from_sparse_col(vec![0, 1, 5]);
    let mut col2 = VecColumn::from_sparse_col(vec![0, 1, 8]);
    col2.add_col(&col1);
    assert_eq!(*col2.col(), vec![5, 8]);
}

#[test]
fn vec_add_col_interleaved() {
    let mut col1 = VecColumn::from_sparse_col(vec![2, 4, 6, 9]);
    let col2 = VecColumn::from_sparse_col(vec![1, 4, 7, 9, 12]);
    col1.add_col(&col2);
    assert_eq!(*col1.col(), vec![1, 2, 6, 7, 12]);
}

#[test]
fn vec_add_col_into_empty() {
    let mut col1 = VecColumn::from_sparse_col(vec![]);
    let col2 = VecColumn::from_sparse_col(vec![3, 4]);
    col1.add_col(&col2);
    assert_eq!(*col1.col(), vec![3, 4]);
    assert_eq!(col1.pivot(), Some(4));
}

#[test]
fn vec_add_entry_cursor() {
    let mut col = VecColumn::from_sparse_col(vec![1, 3, 5]);
    // Insert before a larger entry: cursor moves past the insertion.
    assert_eq!(col.add_entry(2, 0), 2);
    assert_eq!(*col.col(), vec![1, 2, 3, 5]);
    // Cancel an existing entry: cursor stays at its position.
    assert_eq!(col.add_entry(3, 2), 2);
    assert_eq!(*col.col(), vec![1, 2, 5]);
    // Append past the end.
    assert_eq!(col.add_entry(9, 2), 3);
    assert_eq!(*col.col(), vec![1, 2, 5, 9]);
}

#[test]
fn vec_pivot_empty_and_nonempty() {
    assert_eq!(VecColumn::from_sparse_col(vec![]).pivot(), None);
    assert_eq!(VecColumn::from_sparse_col(vec![0, 4, 7]).pivot(), Some(7));
}

#[test]
fn bts_pivot_and_add_col() {
    let mut col1 = BTreeSetColumn::from_sparse_col(vec![5, 0, 1]);
    assert_eq!(col1.pivot(), Some(5));
    let col2 = BTreeSetColumn::from_sparse_col(vec![0, 1, 8]);
    col1.add_col(&col2);
    assert_eq!(col1.col.iter().copied().collect::<Vec<usize>>(), vec![5, 8]);
    assert_eq!(col1.pivot(), Some(8));
}

#[test]
fn add_col_with_itself_empties_every_representation() {
    let mut v = VecColumn::from_sparse_col(vec![0, 2, 5]);
    let v2 = VecColumn::from_sparse_col(vec![0, 2, 5]);
    v.add_col(&v2);
    assert_eq!(v.pivot(), None);

    let mut bv = BitVecColumn::from_sparse_col(vec![0, 2, 5]);
    let bv2 = BitVecColumn::from_sparse_col(vec![0, 2, 5]);
    bv.add_col(&bv2);
    assert_eq!(bv.pivot(), None);

    let mut bs = BitSetColumn::from_sparse_col(vec![0, 2, 5]);
    let bs2 = BitSetColumn::from_sparse_col(vec![0, 2, 5]);
    bs.add_col(&bs2);
    assert_eq!(bs.pivot(), None);

    let mut bt = BTreeSetColumn::from_sparse_col(vec![0, 2, 5]);
    let bt2 = BTreeSetColumn::from_sparse_col(vec![0, 2, 5]);
    bt.add_col(&bt2);
    assert_eq!(bt.pivot(), None);
}

#[test]
fn representations_agree_on_pivot_and_sum() {
    let a = vec![1, 4, 6];
    let b = vec![2, 4, 6, 10];
    let expected_pivot = Some(6);
    let expected_sum_pivot = Some(10);

    let mut v = VecColumn::from_sparse_col(a.clone());
    assert_eq!(v.pivot(), expected_pivot);
    v.add_col(&VecColumn::from_sparse_col(b.clone()));
    assert_eq!(v.pivot(), expected_sum_pivot);
    assert_eq!(*v.col(), vec![1, 2, 10]);

    let mut bv = BitVecColumn::from_sparse_col(a.clone());
    assert_eq!(bv.pivot(), expected_pivot);
    bv.add_col(&BitVecColumn::from_sparse_col(b.clone()));
    assert_eq!(bv.pivot(), expected_sum_pivot);
    assert_eq!(bv, BitVecColumn::from_sparse_col(vec![1, 2, 10]));

    let mut bs = BitSetColumn::from_sparse_col(a.clone());
    assert_eq!(bs.pivot(), expected_pivot);
    bs.add_col(&BitSetColumn::from_sparse_col(b.clone()));
    assert_eq!(bs.pivot(), expected_sum_pivot);
    assert_eq!(bs, BitSetColumn::from_sparse_col(vec![1, 2, 10]));

    let mut bt = BTreeSetColumn::from_sparse_col(a);
    assert_eq!(bt.pivot(), expected_pivot);
    bt.add_col(&BTreeSetColumn::from_sparse_col(b));
    assert_eq!(bt.pivot(), expected_sum_pivot);
    assert_eq!(bt.col.iter().copied().collect::<Vec<usize>>(), vec![1, 2, 10]);
}

#[test]
fn bv_empty_column_has_no_pivot() {
    let col = BitVecColumn::from_sparse_col(vec![]);
    assert_eq!(col.pivot(), None);
}

#[test]
fn bv_add_shorter_keeps_high_bits() {
    let mut col1 = BitVecColumn::from_sparse_col(vec![3, 9]);
    let col2 = BitVecColumn::from_sparse_col(vec![1, 3]);
    col1.add_col(&col2);
    assert_eq!(col1.pivot(), Some(9));
    let mut col3 = BitVecColumn::from_sparse_col(vec![1]);
    col3.add_col(&col1);
    assert_eq!(col3.pivot(), Some(9));
    col3.add_col(&BitVecColumn::from_sparse_col(vec![9]));
    assert_eq!(col3.pivot(), None);
}

#[test]
fn bv_from_unordered_indices() {
    let col = BitVecColumn::from_sparse_col(vec![5, 1]);
    assert_eq!(col.pivot(), Some(5));
    assert_eq!(col, BitVecColumn::from_sparse_col(vec![1, 5]));
    let mut col2 = BitVecColumn::from_sparse_col(vec![1]);
    col2.add_col(&col);
    assert_eq!(col2, BitVecColumn::from_sparse_col(vec![5]));
}

#[test]
fn bv_add_col_with_itself_keeps_length() {
    let mut col = BitVecColumn::from_sparse_col(vec![0, 2, 5]);
    let same = BitVecColumn::from_sparse_col(vec![0, 2, 5]);
    col.add_col(&same);
    assert_eq!(col.pivot(), None);
    // Still six bits long: adding the bit at 5 again gives that column back.
    let mut five = BitVecColumn::from_sparse_col(vec![5]);
    five.add_col(&col);
    assert_eq!(five, BitVecColumn::from_sparse_col(vec![5]));
}
