use perm::Action;
use perm::PermError;
use perm::Table;

const N: usize = 100;

#[test]
fn swap_swaps() {
    let table: Table = Table::swap(N, 0, 1);
    for i in 0..N {
        if i == 0 {
            assert_eq!(table.act(&i), 1)
        } else if i == 1 {
            assert_eq!(table.act(&i), 0)
        } else {
            assert_eq!(table.act(&i), i)
        }
    }
}

#[test]
fn cycle_cycles() {
    let table: Table = Table::cycle(N);
    for i in 0..N {
        assert_eq!(table.act(&i), (i + 1) % N);
    }
}

#[test]
fn identity_identifies() {
    let table: Table = Table::identity(N);
    for i in 0..N {
        assert_eq!(table.act(&i), i);
    }
}

#[test]
fn inversion_inverts() {
    let table: Table = Table::cycle(N);
    let mut entries: Vec<usize> = Vec::new();
    for i in 0i32..(N as i32) {
        entries.push(((i - 1 + N as i32 + N as i32) as usize) % N);
    }
    let manual_inverse_cycle: Table = Table::deserialize(N, entries).unwrap();
    assert_eq!(table.invert(), manual_inverse_cycle);
}

#[test]
fn invert_twice_is_identity_map() {
    let table: Table = Table::swap(7, 2, 5);
    let twice = table.invert().invert();
    assert_eq!(table, twice);
}

#[test]
fn compose_with_identity_is_neutral() {
    let table: Table = Table::cycle(9);
    let identity = Table::identity(9);
    assert_eq!(table.compose(&identity), table);
    assert_eq!(identity.compose(&table), table);
}

#[test]
fn compose_applies_right_factor_first() {
    // compose(a, b) sends i to a[b[i]]
    let a: Table = Table::swap(3, 0, 1);
    let b: Table = Table::cycle(3);
    let c = a.compose(&b);
    // b: 0->1, 1->2, 2->0; a: 0->1, 1->0, 2->2
    assert_eq!(c.act(&0usize), 0);
    assert_eq!(c.act(&1usize), 2);
    assert_eq!(c.act(&2usize), 1);
}

#[test]
fn action_is_compatible_with_composition() {
    let a: Table = Table::swap(6, 1, 4);
    let b: Table = Table::cycle(6);
    let c = a.compose(&b);
    for x in 0..20usize {
        assert_eq!(c.act(&x), a.act(&b.act(&x)));
    }
}

#[test]
fn action_lifts_to_sequences() {
    let table: Table = Table::cycle(4);
    let values: Vec<usize> = vec![0, 1, 2, 3, 2, 0];
    let images: Vec<usize> = table.act(&values);
    assert_eq!(images, vec![1, 2, 3, 0, 3, 1]);
}

#[test]
fn act_reduces_modulo_size() {
    let table: Table = Table::cycle(5);
    assert_eq!(table.act(&7usize), table.act(&2usize));
}

#[test]
fn serialize_then_deserialize_round_trips() {
    let table: Table = Table::swap(8, 3, 6);
    let raw = table.serialize();
    let back = Table::deserialize(8, raw).unwrap();
    assert_eq!(table, back);
}

#[test]
fn deserialize_rejects_wrong_length() {
    let r = Table::deserialize(4, vec![0, 1, 2]);
    assert_eq!(r.unwrap_err(), PermError::LengthMismatch);
}

#[test]
fn deserialize_rejects_duplicate_entries() {
    let r = Table::deserialize(3, vec![0, 1, 1]);
    assert_eq!(r.unwrap_err(), PermError::NotBijective);
}

#[test]
fn deserialize_rejects_out_of_range_entries() {
    let r = Table::deserialize(3, vec![0, 1, 3]);
    assert_eq!(r.unwrap_err(), PermError::NotBijective);
}

#[test]
fn random_tables_are_bijections() {
    for _ in 0..20 {
        let table: Table = Table::random(50);
        let raw = table.serialize();
        let mut seen = vec![false; 50];
        for v in raw {
            assert!(v < 50);
            assert!(!seen[v]);
            seen[v] = true;
        }
    }
}
