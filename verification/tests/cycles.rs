use perm::CycleDecomposition;
use perm::Table;

const N: usize = 100;

fn table_of(n: usize, entries: Vec<usize>) -> Table {
    Table::deserialize(n, entries).unwrap()
}

fn cycles_of(d: &CycleDecomposition) -> Vec<Vec<usize>> {
    let mut out: Vec<Vec<usize>> = Vec::new();
    let mut iter = d.cycles();
    while let Some(cy) = iter.next() {
        let mut elems: Vec<usize> = Vec::new();
        for i in 0..cy.len() {
            elems.push(cy.get(i));
        }
        out.push(elems);
    }
    out
}

#[test]
fn back_n_forth() {
    let table: Table = Table::cycle(N);
    let cycle_decomposition_from_table = CycleDecomposition::from_table(&table);
    let table_from_cycle_decomposition_from_table =
        Table::from_decomposition(&cycle_decomposition_from_table);

    assert_eq!(table, table_from_cycle_decomposition_from_table);
}

#[test]
fn random_round_trips() {
    for _ in 0..100 {
        let table: Table = Table::random(N);
        let cycle_decomposition_from_table = CycleDecomposition::from_table(&table);
        let table_from_cycle_decomposition_from_table =
            Table::from_decomposition(&cycle_decomposition_from_table);

        assert_eq!(table, table_from_cycle_decomposition_from_table);
    }
}

#[test]
fn three_cycle_lists_successor_order() {
    // 0 -> 1 -> 2 -> 0: one cycle holding 0, 1, 2 in successor order
    let table = table_of(3, vec![1, 2, 0]);
    let d = CycleDecomposition::from_table(&table);
    assert_eq!(cycles_of(&d), vec![vec![0, 1, 2]]);
    assert_eq!(d.cycle_type().as_slice(), &[0, 0, 1]);
}

#[test]
fn identity_of_three_gives_three_singletons() {
    let table = table_of(3, vec![0, 1, 2]);
    let d = CycleDecomposition::from_table(&table);
    assert_eq!(cycles_of(&d), vec![vec![0], vec![1], vec![2]]);
    assert_eq!(d.cycle_type().as_slice(), &[3, 0, 0]);
}

#[test]
fn mixed_table_splits_into_two_cycles() {
    // 0 -> 1 -> 3 -> 0, and 2 fixed
    let table = table_of(4, vec![1, 3, 2, 0]);
    let d = CycleDecomposition::from_table(&table);
    assert_eq!(cycles_of(&d), vec![vec![0, 1, 3], vec![2]]);
    assert_eq!(d.cycle_type().as_slice(), &[1, 0, 1, 0]);
}

#[test]
fn identity_decomposes_into_singletons() {
    let table: Table = Table::identity(5);
    let d = CycleDecomposition::from_table(&table);
    assert_eq!(d.cycle_count(), 5);
    assert_eq!(d.cycle_type().as_slice(), &[5, 0, 0, 0, 0]);
}

#[test]
fn rotation_decomposes_into_one_full_cycle() {
    let table: Table = Table::cycle(5);
    let d = CycleDecomposition::from_table(&table);
    assert_eq!(d.cycle_count(), 1);
    assert_eq!(d.cycle_type().as_slice(), &[0, 0, 0, 0, 1]);
}

#[test]
fn cycle_lengths_sum_to_size() {
    let table = table_of(6, vec![2, 0, 1, 4, 3, 5]);
    let d = CycleDecomposition::from_table(&table);
    let mut total = 0;
    let mut iter = d.cycles();
    while let Some(cy) = iter.next() {
        total += cy.len();
    }
    assert_eq!(total, 6);
    let counts = d.cycle_type();
    let slice = counts.as_slice();
    let mut weighted = 0;
    for k in 0..slice.len() {
        weighted += (k + 1) * slice[k];
    }
    assert_eq!(weighted, 6);
}

#[test]
fn normalize_rotates_cycles_to_their_maximum() {
    // (0 1)(2 3) normalizes to (3 2)(1 0): each cycle led by its
    // largest element, cycles ordered by decreasing leading element
    let table = table_of(4, vec![1, 0, 3, 2]);
    let mut d = CycleDecomposition::from_table(&table);
    assert_eq!(cycles_of(&d), vec![vec![0, 1], vec![2, 3]]);
    d.normalize();
    assert_eq!(cycles_of(&d), vec![vec![3, 2], vec![1, 0]]);
}

#[test]
fn normalize_is_idempotent() {
    let table = table_of(5, vec![1, 0, 4, 3, 2]);
    let mut once = CycleDecomposition::from_table(&table);
    let mut twice = CycleDecomposition::from_table(&table);
    once.normalize();
    twice.normalize();
    twice.normalize();
    assert_eq!(once, twice);
}

#[test]
fn normalize_identifies_equal_permutations() {
    let table = table_of(6, vec![5, 4, 3, 2, 1, 0]);
    let mut raw = CycleDecomposition::from_table(&table);
    // a decomposition reconstructed through the table denotes the same
    // permutation even though its representation may differ
    let rebuilt_table = Table::from_decomposition(&raw);
    let mut rebuilt = CycleDecomposition::from_table(&rebuilt_table);
    raw.normalize();
    rebuilt.normalize();
    assert_eq!(raw, rebuilt);
}

#[test]
fn unnormalized_representations_compare_by_representation() {
    let table = table_of(4, vec![1, 0, 3, 2]);
    let d1 = CycleDecomposition::from_table(&table);
    let mut d2 = CycleDecomposition::from_table(&table);
    assert_eq!(d1, d2);
    d2.normalize();
    // same permutation, different representation
    assert_ne!(d1, d2);
}

#[test]
fn owned_cycles_copy_their_view() {
    let table = table_of(4, vec![1, 3, 2, 0]);
    let d = CycleDecomposition::from_table(&table);
    let mut iter = d.cycles();
    let first = iter.next().unwrap();
    let owned = first.to_owned_cycle();
    assert_eq!(owned.len(), 3);
    let view = owned.as_cycle();
    assert_eq!(view.len(), 3);
    assert_eq!(view.get(0), 0);
    assert_eq!(view.get(1), 1);
    assert_eq!(view.get(2), 3);
}

#[test]
fn empty_permutation_round_trips() {
    let table: Table = Table::identity(0);
    let mut d = CycleDecomposition::from_table(&table);
    assert_eq!(d.cycle_count(), 0);
    assert_eq!(Table::from_decomposition(&d), table);
    assert_eq!(d.cycle_type().as_slice(), &[] as &[usize]);
    d.normalize();
    assert_eq!(d.cycle_count(), 0);
}

#[test]
fn singleton_permutation_has_one_fixed_point() {
    let table: Table = Table::cycle(1);
    assert_eq!(table, Table::identity(1));
    let d = CycleDecomposition::from_table(&table);
    assert_eq!(cycles_of(&d), vec![vec![0]]);
    assert_eq!(d.cycle_type().as_slice(), &[1]);
}
