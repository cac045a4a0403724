use trustnote::error::{Error, ErrorKind};
use trustnote::joint::{Joint, Sequence, Unit};
use trustnote::ledger::Ledger;
use trustnote::light::{
    build_history, prepare_history, prepare_parents_and_last_ball_and_witness_list_unit,
    select_candidates, takes_witness_proof, validate_history_request, HistoryRequest,
    HistoryResponse, WitnessProof,
};

fn s(x: &str) -> String {
    x.to_string()
}

fn strings(xs: &[&str]) -> Vec<String> {
    xs.iter().map(|x| s(x)).collect()
}

fn twelve() -> Vec<String> {
    (0..12).map(|i| format!("WITNESS{:02}", i)).collect()
}

fn joint(id: &str, parents: &[&str], level: u32, mci: Option<u32>, on_mc: bool, ball: Option<&str>) -> Joint {
    Joint {
        unit: Unit {
            unit: s(id),
            parent_units: strings(parents),
            best_parent_unit: parents.first().map(|p| s(p)),
            last_ball_unit: None,
            level,
            main_chain_index: mci,
            is_on_main_chain: on_mc,
            sequence: Sequence::Good,
            is_witness_affecting: false,
            content_hash: None,
        },
        ball: ball.map(s),
        skiplist_units: Vec::new(),
    }
}

fn request(addresses: &[&str], known: &[&str], requested: &[&str]) -> HistoryRequest {
    HistoryRequest {
        witnesses: twelve(),
        addresses: strings(addresses),
        known_stable_units: strings(known),
        requested_joints: strings(requested),
    }
}

fn boundary(last_ball_mci: u32) -> WitnessProof {
    WitnessProof {
        unstable_mc_joints: vec![joint("UNSTABLE", &[], 9, None, true, None)],
        witness_change_and_definition: vec![joint("CHANGE", &[], 1, Some(1), false, Some("BC"))],
        last_ball_mci,
    }
}

/// Main chain `M0` .. `M5` with the balls `B0` .. `B5`, no skip lists.
fn main_chain() -> Ledger {
    let mut ledger = Ledger::new();
    ledger.add_unit(joint("M0", &[], 0, Some(0), true, Some("B0")), vec![]).unwrap();
    ledger.add_unit(joint("M1", &["M0"], 1, Some(1), true, Some("B1")), vec![]).unwrap();
    ledger.add_unit(joint("M2", &["M1"], 2, Some(2), true, Some("B2")), vec![]).unwrap();
    ledger.add_unit(joint("M3", &["M2"], 3, Some(3), true, Some("B3")), vec![]).unwrap();
    ledger.add_unit(joint("M4", &["M3"], 4, Some(4), true, Some("B4")), vec![]).unwrap();
    ledger.add_unit(joint("M5", &["M4"], 5, Some(5), true, Some("B5")), vec![]).unwrap();
    ledger
}

/// The same main chain, with `U` beside it: `U` hangs off `M2` and is taken
/// in by `M3`.
fn main_chain_with_side_unit() -> Ledger {
    let mut ledger = Ledger::new();
    ledger.add_unit(joint("M0", &[], 0, Some(0), true, Some("B0")), vec![]).unwrap();
    ledger.add_unit(joint("M1", &["M0"], 1, Some(1), true, Some("B1")), vec![]).unwrap();
    ledger.add_unit(joint("M2", &["M1"], 2, Some(2), true, Some("B2")), vec![]).unwrap();
    ledger.add_unit(joint("U", &["M2"], 3, Some(3), false, Some("BU")), vec![]).unwrap();
    ledger.add_unit(joint("M3", &["M2", "U"], 4, Some(3), true, Some("B3")), vec![]).unwrap();
    ledger.add_unit(joint("M4", &["M3"], 5, Some(4), true, Some("B4")), vec![]).unwrap();
    ledger.add_unit(joint("M5", &["M4"], 6, Some(5), true, Some("B5")), vec![]).unwrap();
    ledger
}

fn units_of(r: &HistoryResponse) -> Vec<&str> {
    r.joints.iter().map(|j| j.unit.unit.as_str()).collect()
}

fn chain_of(r: &HistoryResponse) -> Vec<&str> {
    r.proofchain_balls.iter().map(|b| b.unit.as_str()).collect()
}

#[test]
fn history_of_a_main_chain_unit_has_two_proof_balls() {
    let ledger = main_chain();
    let r = prepare_history(&ledger, &request(&["WALLET"], &["M2"], &["M3"]), &boundary(5)).unwrap();
    assert_eq!(units_of(&r), vec!["M3"]);
    assert_eq!(r.proofchain_balls.len(), 2);
    assert_eq!(chain_of(&r), vec!["M5", "M4"]);
    assert_eq!(r.proofchain_balls[0].ball, "B5");
    assert_eq!(r.proofchain_balls[0].parent_balls, vec!["B4"]);
    assert_eq!(r.proofchain_balls[1].ball, "B4");
    assert_eq!(r.proofchain_balls[1].parent_balls, vec!["B3"]);
    assert_eq!(r.unstable_mc_joints, boundary(5).unstable_mc_joints);
    assert_eq!(r.witness_change_and_definition, boundary(5).witness_change_and_definition);
}

#[test]
fn history_of_a_unit_beside_the_main_chain_has_three_proof_balls() {
    let ledger = main_chain_with_side_unit();
    let r = prepare_history(&ledger, &request(&["WALLET"], &["M2"], &["U"]), &boundary(5)).unwrap();
    assert_eq!(units_of(&r), vec!["U"]);
    assert_eq!(r.proofchain_balls.len(), 3);
    assert_eq!(chain_of(&r), vec!["M5", "M4", "M3"]);
    assert_eq!(r.proofchain_balls[2].ball, "B3");
    assert_eq!(r.proofchain_balls[2].parent_balls, vec!["B2", "BU"]);
}

#[test]
fn history_fails_where_a_proof_chain_fails() {
    let mut ledger = main_chain_with_side_unit();
    ledger.add_unit(joint("LATE", &["M5"], 7, Some(3), false, Some("BL")), vec![]).unwrap();
    let r = prepare_history(&ledger, &request(&["WALLET"], &["M2"], &["M4", "LATE"]), &boundary(5));
    assert_eq!(r, Err(Error::NoQualifyingParent(s("U"))));
}

#[test]
fn request_without_known_stable_units_is_refused() {
    let req = request(&["WALLET"], &[], &["M3"]);
    assert_eq!(validate_history_request(&req), Err(Error::NoKnownStableUnits));
    assert_eq!(
        prepare_history(&Ledger::new(), &req, &boundary(5)),
        Err(Error::NoKnownStableUnits)
    );
    assert_eq!(prepare_history(&main_chain(), &req, &boundary(5)), Err(Error::NoKnownStableUnits));
    assert_eq!(Error::NoKnownStableUnits.kind(), ErrorKind::RequestValidation);
}

#[test]
fn request_is_checked_field_by_field() {
    assert_eq!(
        validate_history_request(&request(&[], &[], &[])),
        Err(Error::NoAddresses)
    );
    assert_eq!(
        validate_history_request(&request(&["A"], &["K"], &[])),
        Err(Error::NoRequestedJoints)
    );
    let mut short = request(&["A"], &["K"], &["R"]);
    short.witnesses.pop();
    assert_eq!(validate_history_request(&short), Err(Error::WrongNumberOfWitnesses(11)));
    let mut long = request(&["A"], &["K"], &["R"]);
    long.witnesses.push(s("ONE_MORE"));
    assert_eq!(validate_history_request(&long), Err(Error::WrongNumberOfWitnesses(13)));
    assert_eq!(validate_history_request(&request(&["A"], &["K"], &["R"])), Ok(()));
    assert_eq!(
        prepare_history(&main_chain(), &short, &boundary(5)),
        Err(Error::WrongNumberOfWitnesses(11))
    );
}

/// A ledger of `n` unstable units that all pay to `WALLET`, on a first unit
/// that does not.
fn crowd(n: usize) -> Ledger {
    let mut ledger = Ledger::new();
    ledger.add_unit(joint("G", &[], 0, Some(0), true, Some("BG")), vec![]).unwrap();
    for k in 0..n {
        let id = format!("U{}", k);
        ledger.add_unit(joint(&id, &["G"], 1, None, false, None), vec![s("WALLET")]).unwrap();
    }
    ledger
}

#[test]
fn history_of_a_thousand_and_one_units_is_too_large() {
    let ledger = crowd(1001);
    let req = request(&["WALLET"], &["KNOWN"], &["ASKED"]);
    assert_eq!(select_candidates(&ledger, &req).len(), 1001);
    let r = prepare_history(&ledger, &req, &boundary(0));
    assert_eq!(r, Err(Error::HistoryTooLarge(1001)));
    assert_eq!(r.unwrap_err().kind(), ErrorKind::RequestValidation);
}

#[test]
fn history_of_a_thousand_units_is_served() {
    let ledger = crowd(1000);
    let req = request(&["WALLET"], &["KNOWN"], &["ASKED"]);
    let r = prepare_history(&ledger, &req, &boundary(0)).unwrap();
    assert_eq!(r.joints.len(), 1000);
    assert!(r.proofchain_balls.is_empty());
    assert_eq!(r.joints[0].unit.unit, "U0");
    assert_eq!(r.joints[999].unit.unit, "U999");
    assert_eq!(r.unstable_mc_joints.len(), 1);
}

#[test]
fn history_is_empty_where_all_is_known() {
    let ledger = main_chain();
    let req = request(&["WALLET"], &["M3", "M4"], &["M4", "M3"]);
    let r = prepare_history(&ledger, &req, &boundary(5)).unwrap();
    assert_eq!(
        r,
        HistoryResponse {
            unstable_mc_joints: vec![],
            witness_change_and_definition: vec![],
            joints: vec![],
            proofchain_balls: vec![],
        }
    );
    let nothing = prepare_history(&ledger, &request(&["WALLET"], &["K"], &["NOWHERE"]), &boundary(5));
    assert_eq!(nothing.unwrap().joints.len(), 0);
}

/// Units that touch addresses, to select from.
fn touched() -> Ledger {
    let mut ledger = Ledger::new();
    ledger.add_unit(joint("G", &[], 0, Some(0), true, Some("BG")), vec![s("GEN")]).unwrap();
    ledger.add_unit(joint("A", &["G"], 1, Some(1), true, Some("BA")), vec![s("X")]).unwrap();
    ledger.add_unit(joint("B", &["A"], 2, Some(2), true, Some("BB")), vec![s("OTHER"), s("Y")]).unwrap();
    ledger.add_unit(joint("C", &["A"], 2, Some(2), false, Some("BC")), vec![s("X")]).unwrap();
    ledger.add_unit(joint("D", &["A"], 5, Some(2), false, Some("BD")), vec![s("X")]).unwrap();
    let mut bad = joint("E", &["B"], 3, None, false, None);
    bad.unit.sequence = Sequence::Nonserial;
    ledger.add_unit(bad, vec![s("X")]).unwrap();
    let mut voided = joint("F", &["B"], 3, Some(3), true, Some("BF"));
    voided.unit.sequence = Sequence::Nonserial;
    ledger.add_unit(voided, vec![s("X")]).unwrap();
    ledger.add_unit(joint("H", &["F"], 4, None, false, None), vec![s("X")]).unwrap();
    ledger.add_unit(joint("I", &["F"], 9, None, false, None), vec![s("Z")]).unwrap();
    ledger.add_cosigners(s("X"), s("Y"));
    ledger
}

fn names(ledger: &Ledger, rows: &[usize]) -> Vec<String> {
    rows.iter().map(|&i| ledger.joint(i).unit.unit.clone()).collect()
}

#[test]
fn candidates_are_selected_by_address_and_by_hash() {
    let ledger = touched();
    let rows = select_candidates(&ledger, &request(&["X"], &["G"], &["NOWHERE"]));
    assert_eq!(names(&ledger, &rows), strings(&["F", "D", "B", "C", "A", "H"]));
    let rows = select_candidates(&ledger, &request(&["Y"], &["A", "F"], &["E", "G"]));
    assert_eq!(names(&ledger, &rows), strings(&["D", "B", "C", "G", "H", "E"]));
    let rows = select_candidates(&ledger, &request(&["Z"], &["K"], &["I", "I"]));
    assert_eq!(names(&ledger, &rows), strings(&["I"]));
    let rows = select_candidates(&ledger, &request(&["NOBODY"], &["K"], &["NOWHERE"]));
    assert!(rows.is_empty());
}

#[test]
fn chains_follow_each_other_down_the_main_chain() {
    let ledger = main_chain();
    let req = request(&["WALLET"], &["M0"], &["M1", "M4", "M2"]);
    let r = prepare_history(&ledger, &req, &boundary(5)).unwrap();
    assert_eq!(units_of(&r), vec!["M4", "M2", "M1"]);
    assert_eq!(chain_of(&r), vec!["M5", "M3"]);
}

#[test]
fn units_past_the_boundary_come_without_proof() {
    let ledger = main_chain();
    let req = request(&["WALLET"], &["M0"], &["M5", "M4", "M2"]);
    let r = prepare_history(&ledger, &req, &boundary(3)).unwrap();
    assert_eq!(units_of(&r), vec!["M5", "M4", "M2"]);
    assert_eq!(chain_of(&r), vec!["M3"]);
}

#[test]
fn history_is_built_from_the_rows_given() {
    let ledger = main_chain();
    let r = build_history(&ledger, &vec![4, 1], &boundary(5)).unwrap();
    assert_eq!(units_of(&r), vec!["M4", "M1"]);
    assert_eq!(chain_of(&r), vec!["M5", "M3", "M2"]);
    assert_eq!(build_history(&ledger, &vec![], &boundary(5)).unwrap().unstable_mc_joints.len(), 0);
}

#[test]
fn witness_list_is_checked_before_parents_are_picked() {
    let mut ledger = Ledger::new();
    ledger.add_referencing_address(s("WITNESS03"));
    let w = twelve();
    assert_eq!(
        prepare_parents_and_last_ball_and_witness_list_unit(&w[..11], &ledger),
        Err(Error::WrongNumberOfWitnesses(11))
    );
    assert_eq!(
        prepare_parents_and_last_ball_and_witness_list_unit(&w, &ledger),
        Err(Error::WitnessesHaveReferences)
    );
    assert_eq!(
        prepare_parents_and_last_ball_and_witness_list_unit(&w, &Ledger::new()),
        Ok(())
    );
}

#[test]
fn the_witness_proof_matters_for_histories_that_are_served() {
    assert!(!takes_witness_proof(&vec![]));
    assert!(takes_witness_proof(&vec![0]));
    assert!(takes_witness_proof(&(0..1000).collect()));
    assert!(!takes_witness_proof(&(0..1001).collect()));
    let ledger = main_chain();
    assert_eq!(build_history(&ledger, &vec![], &boundary(0)), build_history(&ledger, &vec![], &boundary(5)));
}

#[test]
fn history_of_a_wallet_with_a_shared_address() {
    let mut ledger = Ledger::new();
    ledger.add_unit(joint("M0", &[], 0, Some(0), true, Some("B0")), vec![]).unwrap();
    ledger.add_unit(joint("M1", &["M0"], 1, Some(1), true, Some("B1")), vec![s("MINE")]).unwrap();
    ledger.add_unit(joint("M2", &["M1"], 2, Some(2), true, Some("B2")), vec![s("OTHER")]).unwrap();
    ledger.add_unit(joint("M3", &["M2"], 3, Some(3), true, Some("B3")), vec![s("SHARED")]).unwrap();
    ledger.add_unit(joint("M4", &["M3"], 4, Some(4), true, Some("B4")), vec![]).unwrap();
    ledger.add_unit(joint("M5", &["M4"], 5, Some(5), true, Some("B5")), vec![]).unwrap();
    ledger.add_unit(joint("NEW", &["M5"], 6, None, false, None), vec![s("MINE")]).unwrap();
    ledger.add_cosigners(s("MINE"), s("SHARED"));
    let r = prepare_history(&ledger, &request(&["MINE"], &["M0"], &["M2"]), &boundary(4)).unwrap();
    assert_eq!(units_of(&r), vec!["M3", "M2", "M1", "NEW"]);
    assert_eq!(chain_of(&r), vec!["M4"]);
    assert_eq!(r.unstable_mc_joints.len(), 1);
    assert_eq!(r.witness_change_and_definition.len(), 1);
    let known = prepare_history(&ledger, &request(&["MINE"], &["M3", "M1"], &["M2"]), &boundary(5)).unwrap();
    assert_eq!(units_of(&known), vec!["M2", "NEW"]);
    assert_eq!(chain_of(&known), vec!["M5", "M4", "M3"]);
}
