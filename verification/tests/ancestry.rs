use trustnote::graph::{is_ancestor_of, is_ancestor_of_index};
use trustnote::joint::{Joint, Sequence, Unit};
use trustnote::ledger::Ledger;

fn s(x: &str) -> String {
    x.to_string()
}

fn strings(xs: &[&str]) -> Vec<String> {
    xs.iter().map(|x| s(x)).collect()
}

fn joint(id: &str, parents: &[&str], level: u32) -> Joint {
    Joint {
        unit: Unit {
            unit: s(id),
            parent_units: strings(parents),
            best_parent_unit: None,
            last_ball_unit: None,
            level,
            main_chain_index: None,
            is_on_main_chain: false,
            sequence: Sequence::Good,
            is_witness_affecting: false,
            content_hash: None,
        },
        ball: None,
        skiplist_units: Vec::new(),
    }
}

///        G
///       / \
///      A   B
///      |\ /|
///      | C |
///      |   |
///      D   E      F (alone, on G)
fn dag() -> Ledger {
    let mut ledger = Ledger::new();
    ledger.add_unit(joint("G", &[], 0), vec![]).unwrap();
    ledger.add_unit(joint("A", &["G"], 1), vec![]).unwrap();
    ledger.add_unit(joint("B", &["G"], 1), vec![]).unwrap();
    ledger.add_unit(joint("C", &["A", "B"], 2), vec![]).unwrap();
    ledger.add_unit(joint("D", &["A"], 2), vec![]).unwrap();
    ledger.add_unit(joint("E", &["B"], 2), vec![]).unwrap();
    ledger.add_unit(joint("F", &["G"], 7), vec![]).unwrap();
    ledger
}

fn included(ledger: &Ledger, candidate: &str, targets: &[&str]) -> bool {
    is_ancestor_of(ledger, &s(candidate), &strings(targets))
}

#[test]
fn parents_and_their_parents_are_ancestors() {
    let ledger = dag();
    assert!(included(&ledger, "A", &["C"]));
    assert!(included(&ledger, "B", &["C"]));
    assert!(included(&ledger, "G", &["C"]));
    assert!(included(&ledger, "G", &["A"]));
    assert!(included(&ledger, "G", &["F"]));
    assert!(included(&ledger, "A", &["D"]));
}

#[test]
fn units_beside_or_above_are_no_ancestors() {
    let ledger = dag();
    assert!(!included(&ledger, "A", &["B"]));
    assert!(!included(&ledger, "A", &["E"]));
    assert!(!included(&ledger, "B", &["D"]));
    assert!(!included(&ledger, "C", &["A"]));
    assert!(!included(&ledger, "C", &["G"]));
    assert!(!included(&ledger, "D", &["C"]));
    assert!(!included(&ledger, "F", &["C", "D", "E"]));
    assert!(!included(&ledger, "A", &["F"]));
}

#[test]
fn a_unit_is_not_its_own_ancestor() {
    let ledger = dag();
    assert!(!included(&ledger, "C", &["C"]));
    assert!(!included(&ledger, "G", &["G"]));
}

#[test]
fn one_target_with_the_candidate_in_its_history_is_enough() {
    let ledger = dag();
    assert!(included(&ledger, "A", &["E", "F", "D"]));
    assert!(included(&ledger, "B", &["D", "E"]));
    assert!(!included(&ledger, "B", &["D", "A", "F"]));
    assert!(!included(&ledger, "A", &[]));
}

#[test]
fn unknown_units_are_related_to_nothing() {
    let ledger = dag();
    assert!(!included(&ledger, "NOWHERE", &["C"]));
    assert!(!included(&ledger, "A", &["NOWHERE"]));
    assert!(included(&ledger, "A", &["NOWHERE", "C"]));
    assert!(!included(&Ledger::new(), "A", &["C"]));
}

#[test]
fn ancestry_by_position() {
    let ledger = dag();
    assert!(is_ancestor_of_index(&ledger, 0, &vec![3]));
    assert!(is_ancestor_of_index(&ledger, 1, &vec![5, 4]));
    assert!(!is_ancestor_of_index(&ledger, 1, &vec![5, 6]));
    assert!(!is_ancestor_of_index(&ledger, 3, &vec![3, 0, 1]));
    assert!(!is_ancestor_of_index(&ledger, 0, &vec![]));
}

#[test]
fn a_deep_history_is_searched_without_recursion() {
    let mut ledger = Ledger::new();
    ledger.add_unit(joint("N0", &[], 0), vec![]).unwrap();
    for k in 1..2000u32 {
        let id = format!("N{}", k);
        let parent = format!("N{}", k - 1);
        ledger.add_unit(joint(&id, &[parent.as_str()], k), vec![]).unwrap();
    }
    assert!(included(&ledger, "N0", &["N1999"]));
    assert!(included(&ledger, "N1000", &["N1999"]));
    assert!(!included(&ledger, "N1999", &["N1000"]));
}
