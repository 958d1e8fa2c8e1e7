use persuit::algo::{std_persuit_serial, StandardAlgo};
use persuit::arena::{unsafe_persuit, unsafe_persuit_v2, ArenaError, SlotArena};
use persuit::bitset_column::BitSetColumn;
use persuit::bitvec_column::BitVecColumn;
use persuit::btree_column::BTreeSetColumn;
use persuit::vec_column::{is_strictly_ascending, VecColumn};

fn fixture() -> Vec<Vec<usize>> {
    vec![
        vec![],
        vec![],
        vec![],
        vec![],
        vec![1],
        vec![2],
        vec![3],
        vec![],
        vec![],
        vec![7, 8],
        vec![3, 7],
    ]
}

fn expected() -> Vec<(usize, usize)> {
    vec![(1, 4), (2, 5), (3, 6), (8, 9), (7, 10)]
}

fn vec_columns() -> Vec<VecColumn> {
    fixture().into_iter().map(VecColumn::from_sparse_col).collect()
}

#[test]
fn lib_it_works() {
    let pairings = std_persuit_serial(vec_columns());
    assert_eq!(pairings, expected());
}

#[test]
fn it_works_bv() {
    let columns: Vec<BitVecColumn> = fixture().into_iter().map(BitVecColumn::from_sparse_col).collect();
    let pairings = std_persuit_serial(columns);
    assert_eq!(pairings, expected());
}

#[test]
fn unsafe_persuit_it_works() {
    let columns = vec_columns();
    let len = columns.len();
    let pairings = unsafe_persuit(columns, len);
    assert_eq!(pairings, Ok(expected()));
}

#[test]
fn it_works_v2() {
    let columns = vec_columns();
    let len = columns.len();
    let pairings = unsafe_persuit_v2(columns, len);
    assert_eq!(pairings, Ok(expected()));
}

#[test]
fn serial_bitset_and_btree_columns() {
    let bs: Vec<BitSetColumn> = fixture().into_iter().map(BitSetColumn::from_sparse_col).collect();
    assert_eq!(std_persuit_serial(bs), expected());
    let bt: Vec<BTreeSetColumn> = fixture().into_iter().map(BTreeSetColumn::from_sparse_col).collect();
    assert_eq!(std_persuit_serial(bt), expected());
}

#[test]
fn backends_agree_on_a_reducing_input() {
    // Column 3 reduces against column 2, then column 1, to zero.
    let cols = vec![vec![0, 1], vec![1, 2], vec![0, 2], vec![0, 3], vec![2, 3]];
    let serial = std_persuit_serial(cols.clone().into_iter().map(VecColumn::from_sparse_col).collect());
    assert_eq!(serial, vec![(1, 0), (2, 1), (3, 3)]);
    let arena = unsafe_persuit(cols.clone().into_iter().map(VecColumn::from_sparse_col).collect(), 5);
    assert_eq!(arena, Ok(serial.clone()));
    let arena2 = unsafe_persuit_v2(cols.clone().into_iter().map(BitSetColumn::from_sparse_col).collect(), 5);
    assert_eq!(arena2, Ok(serial.clone()));
    let bt = std_persuit_serial(cols.into_iter().map(BTreeSetColumn::from_sparse_col).collect());
    assert_eq!(bt, serial);
}

#[test]
fn arena_refuses_fewer_slots_than_columns() {
    let columns = vec_columns();
    let len = columns.len() - 1;
    assert_eq!(unsafe_persuit(columns, len), Err(ArenaError::TooManyColumns));
    let columns = vec_columns();
    assert_eq!(unsafe_persuit_v2(columns, 3), Err(ArenaError::TooManyColumns));
}

#[test]
fn arena_refuses_more_slots_than_columns() {
    let columns = vec_columns();
    let len = columns.len() + 1;
    assert_eq!(unsafe_persuit(columns, len), Err(ArenaError::TooFewColumns));
    let columns = vec_columns();
    assert_eq!(unsafe_persuit_v2(columns, 20), Err(ArenaError::TooFewColumns));
}

#[test]
fn all_empty_columns_give_no_pairing() {
    let columns: Vec<VecColumn> = (0..6).map(|_| VecColumn::from_sparse_col(vec![])).collect();
    assert_eq!(std_persuit_serial(columns), vec![]);
    let columns: Vec<VecColumn> = (0..6).map(|_| VecColumn::from_sparse_col(vec![])).collect();
    assert_eq!(unsafe_persuit(columns, 6), Ok(vec![]));
    let none: Vec<VecColumn> = vec![];
    assert_eq!(std_persuit_serial(none), vec![]);
}

#[test]
fn engine_steps_one_column_at_a_time() {
    let mut algo: StandardAlgo<VecColumn> = StandardAlgo::new();
    assert_eq!(algo.next((0, VecColumn::from_sparse_col(vec![]))), None);
    assert_eq!(algo.next((1, VecColumn::from_sparse_col(vec![0, 4]))), Some((4, 1)));
    let probe = VecColumn::from_sparse_col(vec![2, 4]);
    let lower = algo.col_with_same_low(&probe).map(|c| c.col().clone());
    assert_eq!(lower, Some(vec![0, 4]));
    let reduced = algo.reduce_col(VecColumn::from_sparse_col(vec![2, 4]));
    assert_eq!(*reduced.col(), vec![0, 2]);
    assert_eq!(algo.next((2, VecColumn::from_sparse_col(vec![2, 4]))), Some((2, 2)));
    // Reduces against both stored columns to zero.
    assert_eq!(algo.next((3, VecColumn::from_sparse_col(vec![0, 2, 4]))), Some((0, 3)));
    assert_eq!(algo.next((4, VecColumn::from_sparse_col(vec![0, 2, 4]))), None);
}

#[test]
fn zero_column_is_never_paired() {
    let mut algo: StandardAlgo<BTreeSetColumn> = StandardAlgo::new();
    assert_eq!(algo.next((0, BTreeSetColumn::from_sparse_col(vec![1, 3]))), Some((3, 0)));
    assert_eq!(algo.next((1, BTreeSetColumn::from_sparse_col(vec![]))), None);
    let probe = BTreeSetColumn::from_sparse_col(vec![]);
    assert!(algo.col_with_same_low(&probe).is_none());
}

#[test]
fn slot_arena_fills_then_refuses() {
    let mut arena: SlotArena<VecColumn> = SlotArena::new(2);
    assert!(!arena.is_full());
    assert_eq!(arena.reduce_next(VecColumn::from_sparse_col(vec![0, 3])), Ok(Some((3, 0))));
    assert_eq!(arena.reduce_next(VecColumn::from_sparse_col(vec![1, 3])), Ok(Some((1, 1))));
    assert!(arena.is_full());
    assert_eq!(
        arena.reduce_next(VecColumn::from_sparse_col(vec![2])),
        Err(ArenaError::TooManyColumns)
    );
}

#[test]
fn ascending_check() {
    assert!(is_strictly_ascending(&vec![]));
    assert!(is_strictly_ascending(&vec![0, 2, 9]));
    assert!(!is_strictly_ascending(&vec![0, 2, 2]));
    assert!(!is_strictly_ascending(&vec![3, 1]));
}
