use trustnote::error::Error;
use trustnote::joint::{Joint, Sequence, Unit};
use trustnote::ledger::{InsertError, Ledger};

fn joint(id: &str, parents: &[&str], level: u32, mci: Option<u32>, on_mc: bool) -> Joint {
    Joint {
        unit: Unit {
            unit: id.to_string(),
            parent_units: parents.iter().map(|p| p.to_string()).collect(),
            best_parent_unit: parents.first().map(|p| p.to_string()),
            last_ball_unit: None,
            level,
            main_chain_index: mci,
            is_on_main_chain: on_mc,
            sequence: Sequence::Good,
            is_witness_affecting: false,
            content_hash: None,
        },
        ball: mci.map(|_| format!("ball-{}", id)),
        skiplist_units: Vec::new(),
    }
}

#[test]
fn new_ledger_is_empty() {
    let ledger = Ledger::new();
    assert_eq!(ledger.len(), 0);
    assert_eq!(ledger.cosigner_count(), 0);
    assert_eq!(ledger.find(&"G".to_string()), None);
}

#[test]
fn units_are_found_where_they_were_stored() {
    let mut ledger = Ledger::new();
    assert_eq!(ledger.add_unit(joint("G", &[], 0, Some(0), true), vec![]), Ok(()));
    assert_eq!(ledger.add_unit(joint("A", &["G"], 1, Some(1), true), vec!["ADDR".to_string()]), Ok(()));
    assert_eq!(ledger.len(), 2);
    assert_eq!(ledger.find(&"G".to_string()), Some(0));
    assert_eq!(ledger.find(&"A".to_string()), Some(1));
    assert_eq!(ledger.find(&"B".to_string()), None);
    assert_eq!(ledger.joint(1).unit.unit, "A");
    assert_eq!(ledger.addresses(1), &vec!["ADDR".to_string()]);
    assert_eq!(ledger.addresses(0).len(), 0);
}

#[test]
fn a_unit_is_stored_once() {
    let mut ledger = Ledger::new();
    ledger.add_unit(joint("G", &[], 0, None, false), vec![]).unwrap();
    assert_eq!(
        ledger.add_unit(joint("G", &[], 0, None, false), vec![]),
        Err(InsertError::DuplicateUnit)
    );
    assert_eq!(ledger.len(), 1);
}

#[test]
fn a_unit_has_at_most_sixteen_parents() {
    let mut ledger = Ledger::new();
    let names: Vec<String> = (0..17).map(|i| format!("P{}", i)).collect();
    for n in &names {
        ledger.add_unit(joint(n, &[], 0, None, false), vec![]).unwrap();
    }
    let sixteen: Vec<&str> = names.iter().take(16).map(|s| s.as_str()).collect();
    let seventeen: Vec<&str> = names.iter().map(|s| s.as_str()).collect();
    assert_eq!(
        ledger.add_unit(joint("TOO_MANY", &seventeen, 1, None, false), vec![]),
        Err(InsertError::TooManyParents)
    );
    assert_eq!(ledger.add_unit(joint("FULL", &sixteen, 1, None, false), vec![]), Ok(()));
}

#[test]
fn parents_are_stored_first() {
    let mut ledger = Ledger::new();
    assert_eq!(
        ledger.add_unit(joint("A", &["G"], 1, None, false), vec![]),
        Err(InsertError::UnknownParent)
    );
    assert_eq!(ledger.len(), 0);
}

#[test]
fn a_unit_lies_above_its_parents() {
    let mut ledger = Ledger::new();
    ledger.add_unit(joint("G", &[], 3, None, false), vec![]).unwrap();
    assert_eq!(
        ledger.add_unit(joint("A", &["G"], 3, None, false), vec![]),
        Err(InsertError::LevelNotAboveParents)
    );
    assert_eq!(ledger.add_unit(joint("B", &["G"], 4, None, false), vec![]), Ok(()));
}

#[test]
fn skiplist_units_are_stored_first() {
    let mut ledger = Ledger::new();
    ledger.add_unit(joint("G", &[], 0, None, false), vec![]).unwrap();
    let mut j = joint("A", &["G"], 1, None, false);
    j.skiplist_units = vec!["S".to_string()];
    assert_eq!(ledger.add_unit(j, vec![]), Err(InsertError::UnknownSkiplistUnit));
}

#[test]
fn the_best_parent_is_a_parent() {
    let mut ledger = Ledger::new();
    ledger.add_unit(joint("G", &[], 0, None, false), vec![]).unwrap();
    ledger.add_unit(joint("H", &[], 0, None, false), vec![]).unwrap();
    let mut j = joint("A", &["G"], 1, None, false);
    j.unit.best_parent_unit = Some("H".to_string());
    assert_eq!(ledger.add_unit(j, vec![]), Err(InsertError::BestParentNotAParent));
}

#[test]
fn the_main_chain_unit_at_an_index_is_the_only_one_there() {
    let mut ledger = Ledger::new();
    ledger.add_unit(joint("G", &[], 0, Some(0), true), vec![]).unwrap();
    ledger.add_unit(joint("A", &["G"], 1, Some(1), false), vec![]).unwrap();
    ledger.add_unit(joint("B", &["A"], 2, Some(1), true), vec![]).unwrap();
    ledger.add_unit(joint("C", &["B"], 3, Some(2), true), vec![]).unwrap();
    ledger.add_unit(joint("D", &["B"], 3, Some(2), true), vec![]).unwrap();
    assert_eq!(ledger.main_chain_unit_at(0), Ok(0));
    assert_eq!(ledger.main_chain_unit_at(1), Ok(2));
    assert_eq!(ledger.main_chain_unit_at(2), Err(Error::NoMainChainUnit(2, 2)));
    assert_eq!(ledger.main_chain_unit_at(3), Err(Error::NoMainChainUnit(3, 0)));
}

#[test]
fn balls_come_out_sorted() {
    let mut ledger = Ledger::new();
    for (id, ball) in [("U1", "zeta"), ("U2", "alpha"), ("U3", "mu"), ("U4", "alpha0")] {
        let mut j = joint(id, &[], 0, Some(0), false);
        j.ball = Some(ball.to_string());
        ledger.add_unit(j, vec![]).unwrap();
    }
    let ids: Vec<String> = ["U1", "U2", "U3", "U4"].iter().map(|s| s.to_string()).collect();
    assert_eq!(
        ledger.sorted_balls_of(&ids),
        Some(vec!["alpha".to_string(), "alpha0".to_string(), "mu".to_string(), "zeta".to_string()])
    );
    assert_eq!(ledger.mcis_of(&ids), vec![Some(0), Some(0), Some(0), Some(0)]);
}

#[test]
fn a_missing_ball_spoils_the_list() {
    let mut ledger = Ledger::new();
    ledger.add_unit(joint("U1", &[], 0, Some(0), false), vec![]).unwrap();
    ledger.add_unit(joint("U2", &[], 0, None, false), vec![]).unwrap();
    let ids: Vec<String> = vec!["U1".to_string(), "U2".to_string()];
    assert_eq!(ledger.sorted_balls_of(&ids), None);
    assert_eq!(ledger.mcis_of(&ids), vec![Some(0), None]);
}

#[test]
fn cosigners_and_references_are_recorded() {
    let mut ledger = Ledger::new();
    ledger.add_cosigners("X".to_string(), "Y".to_string());
    ledger.add_referencing_address("R".to_string());
    assert_eq!(ledger.cosigner_count(), 1);
    let (a, b) = ledger.cosigner_pair(0);
    assert_eq!((a.as_str(), b.as_str()), ("X", "Y"));
    assert!(ledger.have_references(&["Q".to_string(), "R".to_string()]));
    assert!(!ledger.have_references(&["Q".to_string()]));
    assert!(!ledger.have_references(&[]));
}

#[test]
fn joints_and_props_are_read_by_hash() {
    let mut ledger = Ledger::new();
    ledger.add_unit(joint("G", &[], 0, Some(0), true), vec![]).unwrap();
    ledger.add_unit(joint("A", &["G"], 4, None, false), vec![]).unwrap();
    assert_eq!(ledger.read_joint(&"A".to_string()), Ok(joint("A", &["G"], 4, None, false)));
    assert_eq!(
        ledger.read_joint(&"B".to_string()),
        Err(Error::UnitNotFound("B".to_string()))
    );
    let g = ledger.read_unit_props(&"G".to_string()).unwrap();
    assert_eq!((g.main_chain_index, g.level), (Some(0), 0));
    let a = ledger.read_unit_props(&"A".to_string()).unwrap();
    assert_eq!((a.main_chain_index, a.level), (None, 4));
    assert_eq!(
        ledger.read_unit_props(&"B".to_string()),
        Err(Error::UnitNotFound("B".to_string()))
    );
}

#[test]
fn a_unit_is_stable_once_it_has_its_place_on_the_main_chain() {
    assert!(joint("G", &[], 0, Some(0), true).unit.is_stable());
    assert!(joint("S", &[], 0, Some(7), false).unit.is_stable());
    assert!(!joint("A", &[], 0, None, false).unit.is_stable());
    let j = joint("A", &["G", "H"], 3, Some(2), true);
    assert_eq!(j.clone(), j);
    assert_eq!(j.unit.clone(), j.unit);
}
