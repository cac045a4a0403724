use trustnote::error::{Error, ErrorKind};
use trustnote::joint::{Joint, Sequence, Unit};
use trustnote::ledger::Ledger;
use trustnote::link_proof::{build_path, create_link_proof, find_path, prepare_link_proofs};

fn s(x: &str) -> String {
    x.to_string()
}

fn strings(xs: &[&str]) -> Vec<String> {
    xs.iter().map(|x| s(x)).collect()
}

fn joint(id: &str, parents: &[&str], level: u32, mci: Option<u32>, last_ball: Option<&str>) -> Joint {
    Joint {
        unit: Unit {
            unit: s(id),
            parent_units: strings(parents),
            best_parent_unit: parents.first().map(|p| s(p)),
            last_ball_unit: last_ball.map(s),
            level,
            main_chain_index: mci,
            is_on_main_chain: false,
            sequence: Sequence::Good,
            is_witness_affecting: false,
            content_hash: None,
        },
        ball: None,
        skiplist_units: Vec::new(),
    }
}

fn names(joints: &[Joint]) -> Vec<&str> {
    joints.iter().map(|j| j.unit.unit.as_str()).collect()
}

/// Units of main-chain index 1, above `G` (index 0) and below `T` (index 2):
///
/// ```text
///   T(2) -> S(2) -> L(1) -> {X, Y} ;  X -> {P, Q} ;  Y -> {E} ;  P -> G ; Q -> G ; E -> G
/// ```
fn braid() -> Ledger {
    let mut ledger = Ledger::new();
    ledger.add_unit(joint("G", &[], 0, Some(0), None), vec![]).unwrap();
    ledger.add_unit(joint("E", &["G"], 1, Some(1), None), vec![]).unwrap();
    ledger.add_unit(joint("P", &["G"], 1, Some(1), None), vec![]).unwrap();
    ledger.add_unit(joint("Q", &["G"], 1, Some(1), None), vec![]).unwrap();
    ledger.add_unit(joint("X", &["P", "Q"], 2, Some(1), None), vec![]).unwrap();
    ledger.add_unit(joint("Y", &["E"], 2, Some(1), None), vec![]).unwrap();
    ledger.add_unit(joint("L", &["X", "Y"], 3, Some(1), Some("G")), vec![]).unwrap();
    ledger.add_unit(joint("S", &["L"], 4, Some(2), Some("G")), vec![]).unwrap();
    ledger.add_unit(joint("T", &["S"], 5, Some(2), Some("G")), vec![]).unwrap();
    ledger
}

fn way(ledger: &Ledger, from: &str, to: &str) -> Option<Vec<String>> {
    let a = ledger.find(&s(from)).unwrap();
    let b = ledger.find(&s(to)).unwrap();
    find_path(ledger, a, b).map(|v| v.iter().map(|&i| ledger.joint(i).unit.unit.clone()).collect())
}

#[test]
fn nothing_is_passed_on_the_way_to_a_parent() {
    let ledger = braid();
    assert_eq!(way(&ledger, "L", "X"), Some(vec![]));
    assert_eq!(way(&ledger, "X", "Q"), Some(vec![]));
    assert_eq!(way(&ledger, "Y", "E"), Some(vec![]));
}

#[test]
fn a_single_parent_is_followed() {
    let ledger = braid();
    assert_eq!(way(&ledger, "T", "S"), Some(vec![]));
    let mut chain = vec![];
    assert_eq!(build_path(&ledger, &s("T"), &s("S"), &mut chain), Ok(()));
    assert!(chain.is_empty());
}

#[test]
fn the_branch_that_holds_the_earlier_unit_is_followed() {
    let ledger = braid();
    assert_eq!(way(&ledger, "L", "E"), Some(strings(&["Y"])));
    assert_eq!(way(&ledger, "L", "P"), Some(strings(&["X"])));
    assert_eq!(way(&ledger, "L", "Q"), Some(strings(&["X"])));
}

#[test]
fn there_is_no_way_to_a_unit_of_another_index_or_beside() {
    let ledger = braid();
    assert_eq!(way(&ledger, "L", "G"), None);
    assert_eq!(way(&ledger, "X", "E"), None);
    assert_eq!(way(&ledger, "E", "P"), None);
    assert_eq!(way(&ledger, "L", "L"), None);
    assert_eq!(way(&ledger, "L", "T"), None);
}

#[test]
fn a_dead_end_sends_the_search_back_to_the_last_branch_point() {
    // `E` lies in the history of both `V` and `W`, but `W` reaches it only
    // through `K`, which has no main-chain index: the branch through `W`,
    // tried first, ends there, and the search comes back to take `V`.
    let mut ledger = Ledger::new();
    ledger.add_unit(joint("G", &[], 0, Some(0), None), vec![]).unwrap();
    ledger.add_unit(joint("E", &["G"], 1, Some(1), None), vec![]).unwrap();
    ledger.add_unit(joint("K", &["E"], 2, None, None), vec![]).unwrap();
    ledger.add_unit(joint("D", &["G"], 1, Some(1), None), vec![]).unwrap();
    ledger.add_unit(joint("V1", &["E"], 2, Some(1), None), vec![]).unwrap();
    ledger.add_unit(joint("V", &["V1", "D"], 3, Some(1), None), vec![]).unwrap();
    ledger.add_unit(joint("W1", &["K", "D"], 3, Some(1), None), vec![]).unwrap();
    ledger.add_unit(joint("W", &["W1", "D"], 4, Some(1), None), vec![]).unwrap();
    ledger.add_unit(joint("L", &["V", "W"], 5, Some(1), None), vec![]).unwrap();
    assert_eq!(way(&ledger, "L", "E"), Some(strings(&["V", "V1"])));
    let mut chain = vec![];
    assert_eq!(build_path(&ledger, &s("L"), &s("E"), &mut chain), Ok(()));
    assert_eq!(names(&chain), vec!["V", "V1"]);
}

#[test]
fn path_between_one_and_the_same_unit_is_empty() {
    let ledger = braid();
    let mut chain = vec![];
    assert_eq!(build_path(&ledger, &s("L"), &s("L"), &mut chain), Ok(()));
    assert!(chain.is_empty());
}

#[test]
fn path_among_units_of_one_index() {
    let ledger = braid();
    let mut chain = vec![joint("BEFORE", &[], 0, None, None)];
    assert_eq!(build_path(&ledger, &s("L"), &s("E"), &mut chain), Ok(()));
    assert_eq!(names(&chain), vec!["BEFORE", "Y"]);
    assert_eq!(chain[1], *ledger.joint(5));
}

#[test]
fn path_along_best_parents_down_to_the_index_of_the_earlier_unit() {
    let ledger = braid();
    let mut chain = vec![];
    assert_eq!(build_path(&ledger, &s("T"), &s("E"), &mut chain), Ok(()));
    assert_eq!(names(&chain), vec!["S", "L", "Y"]);
    let mut chain = vec![];
    assert_eq!(build_path(&ledger, &s("S"), &s("X"), &mut chain), Ok(()));
    assert_eq!(names(&chain), vec!["L"]);
    let mut chain = vec![];
    assert_eq!(build_path(&ledger, &s("T"), &s("L"), &mut chain), Ok(()));
    assert_eq!(names(&chain), vec!["S"]);
    let mut chain = vec![];
    assert_eq!(build_path(&ledger, &s("S"), &s("L"), &mut chain), Ok(()));
    assert!(chain.is_empty());
}

#[test]
fn path_fails_where_there_is_no_way() {
    let ledger = braid();
    let mut chain = vec![];
    let r = build_path(&ledger, &s("X"), &s("E"), &mut chain);
    assert_eq!(r, Err(Error::NoQualifyingParent(s("X"))));
    assert_eq!(r.unwrap_err().kind(), ErrorKind::AncestryInconsistency);
    assert_eq!(
        build_path(&ledger, &s("E"), &s("P"), &mut chain),
        Err(Error::NoParentsWithSameMci(s("E")))
    );
    assert_eq!(
        build_path(&ledger, &s("G"), &s("E"), &mut chain),
        Err(Error::NoBestParent(s("G")))
    );
    assert_eq!(
        build_path(&ledger, &s("NOWHERE"), &s("E"), &mut chain),
        Err(Error::UnitNotFound(s("NOWHERE")))
    );
    assert_eq!(
        build_path(&ledger, &s("L"), &s("NOWHERE"), &mut chain),
        Err(Error::UnitNotFound(s("NOWHERE")))
    );
    assert!(chain.is_empty());
}

#[test]
fn path_from_below_the_earlier_unit_goes_on_among_the_units_beside() {
    let ledger = braid();
    let mut chain = vec![];
    // The best parent of `L` lies at index 1, below `S` at index 2: the search
    // goes on among the units of the index of `L`, where `S` is not found.
    assert_eq!(
        build_path(&ledger, &s("L"), &s("S"), &mut chain),
        Err(Error::NoQualifyingParent(s("L")))
    );
    assert!(chain.is_empty());
}

#[test]
fn link_proof_is_the_later_joint_where_its_last_ball_covers_the_earlier_unit() {
    let mut ledger = braid();
    ledger.add_unit(joint("Z", &["T"], 6, Some(3), Some("S")), vec![]).unwrap();
    let mut chain = vec![];
    assert_eq!(create_link_proof(&ledger, &s("Z"), &s("E"), &mut chain), Ok(()));
    assert_eq!(names(&chain), vec!["Z"]);
    assert_eq!(create_link_proof(&ledger, &s("Z"), &s("S"), &mut chain), Ok(()));
    assert_eq!(names(&chain), vec!["Z", "Z"]);
}

#[test]
fn link_proof_leads_to_the_earlier_unit_where_the_last_ball_lies_below_it() {
    let ledger = braid();
    let mut chain = vec![];
    assert_eq!(create_link_proof(&ledger, &s("T"), &s("E"), &mut chain), Ok(()));
    assert_eq!(names(&chain), vec!["T", "S", "L", "Y"]);
    let mut chain = vec![];
    assert_eq!(create_link_proof(&ledger, &s("L"), &s("Q"), &mut chain), Ok(()));
    assert_eq!(names(&chain), vec!["L", "X"]);
}

#[test]
fn link_proof_needs_the_earlier_unit_in_the_history_of_the_later_one() {
    let mut ledger = braid();
    ledger.add_unit(joint("SIDE", &["G"], 1, Some(1), None), vec![]).unwrap();
    ledger.add_unit(joint("LOOSE", &["G"], 1, None, Some("G")), vec![]).unwrap();
    let mut chain = vec![];
    assert_eq!(create_link_proof(&ledger, &s("T"), &s("SIDE"), &mut chain), Err(Error::NotIncluded));
    assert_eq!(create_link_proof(&ledger, &s("L"), &s("S"), &mut chain), Err(Error::NotIncluded));
    assert_eq!(create_link_proof(&ledger, &s("LOOSE"), &s("E"), &mut chain), Err(Error::NotIncluded));
    assert_eq!(create_link_proof(&ledger, &s("L"), &s("L"), &mut chain), Err(Error::NotIncluded));
    assert!(chain.is_empty());
}

#[test]
fn link_proof_needs_what_it_reads() {
    let mut ledger = braid();
    ledger.add_unit(joint("NO_LB", &["T"], 6, Some(3), None), vec![]).unwrap();
    ledger.add_unit(joint("LOST_LB", &["T"], 6, Some(3), Some("GONE")), vec![]).unwrap();
    ledger.add_unit(joint("FRESH", &["T"], 6, None, None), vec![]).unwrap();
    ledger.add_unit(joint("FRESH_LB", &["FRESH"], 7, None, Some("FRESH")), vec![]).unwrap();
    let mut chain = vec![];
    assert_eq!(
        create_link_proof(&ledger, &s("NOWHERE"), &s("E"), &mut chain),
        Err(Error::UnitNotFound(s("NOWHERE")))
    );
    assert_eq!(
        create_link_proof(&ledger, &s("NO_LB"), &s("E"), &mut chain),
        Err(Error::NoLastBallUnit(s("NO_LB")))
    );
    assert_eq!(
        create_link_proof(&ledger, &s("LOST_LB"), &s("E"), &mut chain),
        Err(Error::UnitNotFound(s("GONE")))
    );
    assert_eq!(
        create_link_proof(&ledger, &s("FRESH_LB"), &s("E"), &mut chain),
        Err(Error::NoMainChainIndex(s("FRESH")))
    );
    assert_eq!(
        create_link_proof(&ledger, &s("T"), &s("NOWHERE"), &mut chain),
        Err(Error::UnitNotFound(s("NOWHERE")))
    );
    assert_eq!(
        create_link_proof(&ledger, &s("T"), &s("FRESH"), &mut chain),
        Err(Error::NoMainChainIndex(s("FRESH")))
    );
    assert!(chain.is_empty());
}

#[test]
fn link_proofs_need_a_chain_of_two_units_at_least() {
    let ledger = braid();
    let none = prepare_link_proofs(&ledger, &vec![]);
    assert_eq!(none, Err(Error::NoUnits));
    assert_eq!(none.unwrap_err().kind(), ErrorKind::RequestValidation);
    assert_eq!(prepare_link_proofs(&ledger, &strings(&["T"])), Err(Error::ChainOfOneElement));
}

#[test]
fn link_proofs_follow_each_other() {
    let ledger = braid();
    let r = prepare_link_proofs(&ledger, &strings(&["T", "L", "Q"])).unwrap();
    assert_eq!(names(&r), vec!["T", "S", "L", "X"]);
    assert_eq!(
        prepare_link_proofs(&ledger, &strings(&["T", "L", "S"])),
        Err(Error::NotIncluded)
    );
}
