use symbol_duel::outcome::{Outcome, RelationError};
use symbol_duel::table::RelationTable;

fn triangle_grid() -> Vec<Vec<u8>> {
    vec![b"D".to_vec(), b"WD".to_vec(), b"LWD".to_vec()]
}

#[test]
fn involution_on_every_outcome() {
    for o in [Outcome::Draw, Outcome::Win, Outcome::Loss] {
        assert_eq!(o.rev().rev(), o);
    }
    assert_eq!(Outcome::Draw.rev(), Outcome::Draw);
    assert_eq!(Outcome::Win.rev(), Outcome::Loss);
    assert_eq!(Outcome::Loss.rev(), Outcome::Win);
}

#[test]
fn decode_recognizes_the_three_codes() {
    assert_eq!(Outcome::decode(b'D'), Ok(Outcome::Draw));
    assert_eq!(Outcome::decode(b'W'), Ok(Outcome::Win));
    assert_eq!(Outcome::decode(b'L'), Ok(Outcome::Loss));
}

#[test]
fn decode_rejects_unknown_bytes() {
    assert_eq!(Outcome::decode(b'X'), Err(RelationError::InvalidOutcomeCode));
    assert_eq!(Outcome::decode(b' '), Err(RelationError::InvalidOutcomeCode));
    assert_eq!(Outcome::decode(b'd'), Err(RelationError::InvalidOutcomeCode));
}

#[test]
fn build_rejects_invalid_code() {
    let grid = vec![b"D".to_vec(), b"XD".to_vec()];
    assert_eq!(
        RelationTable::build(&grid, 2).err(),
        Some(RelationError::InvalidOutcomeCode)
    );
}

#[test]
fn build_rejects_conflicting_mirror_cells() {
    // (1, 2) is explicitly a win and (2, 1) is explicitly a win too, so the
    // derived-reverse rule is contradicted.
    let grid = vec![b"DW".to_vec(), b"WD".to_vec()];
    assert_eq!(
        RelationTable::build(&grid, 2).err(),
        Some(RelationError::InconsistentRelation)
    );
}

#[test]
fn build_accepts_consistent_full_grid() {
    let grid = vec![b"DW".to_vec(), b"LD".to_vec()];
    let table = RelationTable::build(&grid, 2).unwrap();
    assert_eq!(table.lookup(1, 2), Ok(Outcome::Win));
    assert_eq!(table.lookup(2, 1), Ok(Outcome::Loss));
}

#[test]
fn asymmetry_between_mirror_lookups() {
    let table = RelationTable::build(&triangle_grid(), 3).unwrap();
    for i in 1..=3usize {
        for j in 1..=3usize {
            if i != j {
                let forward = table.lookup(i, j).unwrap();
                let backward = table.lookup(j, i).unwrap();
                assert_eq!(forward, backward.rev());
            }
        }
    }
}

#[test]
fn self_relations_come_from_the_grid() {
    let table = RelationTable::build(&triangle_grid(), 3).unwrap();
    for i in 1..=3usize {
        assert_eq!(table.lookup(i, i), Ok(Outcome::Draw));
    }
    // A non-draw diagonal entry is kept as written, never reversed.
    let odd = vec![b"W".to_vec()];
    let table = RelationTable::build(&odd, 1).unwrap();
    assert_eq!(table.lookup(1, 1), Ok(Outcome::Win));
}

#[test]
fn triangular_grid_builds_total_table() {
    let table = RelationTable::build(&triangle_grid(), 3).unwrap();
    assert!(table.is_total());
    for i in 1..=3usize {
        for j in 1..=3usize {
            assert!(table.lookup(i, j).is_ok());
        }
    }
}

#[test]
fn derived_cells_hold_the_reverse() {
    let table = RelationTable::build(&triangle_grid(), 3).unwrap();
    // Explicit: symbol 2 beats symbol 1, symbol 3 loses to symbol 1.
    assert_eq!(table.lookup(2, 1), Ok(Outcome::Win));
    assert_eq!(table.lookup(3, 1), Ok(Outcome::Loss));
    // Derived mirrors.
    assert_eq!(table.lookup(1, 2), Ok(Outcome::Loss));
    assert_eq!(table.lookup(1, 3), Ok(Outcome::Win));
    assert_eq!(table.lookup(2, 3), Ok(Outcome::Loss));
    assert_eq!(table.lookup(3, 2), Ok(Outcome::Win));
}

#[test]
fn lookup_out_of_range_is_missing() {
    let table = RelationTable::build(&triangle_grid(), 3).unwrap();
    assert_eq!(table.lookup(0, 1), Err(RelationError::MissingRelation));
    assert_eq!(table.lookup(1, 0), Err(RelationError::MissingRelation));
    assert_eq!(table.lookup(4, 1), Err(RelationError::MissingRelation));
    assert_eq!(table.lookup(1, 4), Err(RelationError::MissingRelation));
}

#[test]
fn unpopulated_pair_is_missing() {
    // Only the first row is given for two symbols, so (1, 2), (2, 1) and
    // (2, 2) are never populated.
    let grid = vec![b"D".to_vec()];
    let table = RelationTable::build(&grid, 2).unwrap();
    assert!(!table.is_total());
    assert_eq!(table.lookup(1, 1), Ok(Outcome::Draw));
    assert_eq!(table.lookup(1, 2), Err(RelationError::MissingRelation));
    assert_eq!(table.lookup(2, 1), Err(RelationError::MissingRelation));
    assert_eq!(table.lookup(2, 2), Err(RelationError::MissingRelation));
}

#[test]
fn symbol_count_is_reported() {
    let table = RelationTable::build(&triangle_grid(), 3).unwrap();
    assert_eq!(table.symbol_count(), 3);
}
