//! Answering a light client that asks for its history: which units concern
//! it, and the proof chains that tie them to what it already trusts.

use crate::config::{COUNT_WITNESSES, MAX_HISTORY_ITEMS};
use crate::error::{Error, ErrorView};
use crate::joint::{clone_joints, joint_views, Joint, JointView, Sequence};
use crate::ledger::{Ledger, LedgerView};
use crate::proof_chain::{
    ball_views, build_proof_chain, is_chain_failure, lemma_proof_chain_failure, proof_chain,
    then_chain, Chain, ProofBall, ProofBallView,
};
use crate::shared_address::{add_shared_addresses_of_wallet, in_closure, is_expansion};
use crate::text::{contains_string, texts};
use vstd::prelude::*;

verus! {

/// What a light client sends to learn its history.
#[derive(Debug, PartialEq, Eq)]
pub struct HistoryRequest {
    /// The client's witness list.
    pub witnesses: Vec<String>,
    /// The addresses whose units the client wants.
    pub addresses: Vec<String>,
    /// Units that the client already holds and knows to be stable.
    pub known_stable_units: Vec<String>,
    /// Units that the client asks for by hash.
    pub requested_joints: Vec<String>,
}

/// The mathematical reading of a [`HistoryRequest`].
pub struct HistoryRequestView {
    pub witnesses: Seq<Seq<char>>,
    pub addresses: Seq<Seq<char>>,
    pub known_stable_units: Seq<Seq<char>>,
    pub requested_joints: Seq<Seq<char>>,
}

impl View for HistoryRequest {
    type V = HistoryRequestView;

    open spec fn view(&self) -> HistoryRequestView {
        HistoryRequestView {
            witnesses: texts(self.witnesses@),
            addresses: texts(self.addresses@),
            known_stable_units: texts(self.known_stable_units@),
            requested_joints: texts(self.requested_joints@),
        }
    }
}

/// What the witness proof gives: the boundary that the client can trust, and
/// the joints that show it.
#[derive(Debug, PartialEq, Eq)]
pub struct WitnessProof {
    /// The unstable joints of the main chain, latest first.
    pub unstable_mc_joints: Vec<Joint>,
    /// The joints that change a witness's definition or witness list.
    pub witness_change_and_definition: Vec<Joint>,
    /// The main-chain index of the last ball that the witnesses confirm.
    pub last_ball_mci: u32,
}

/// The mathematical reading of a [`WitnessProof`].
pub struct WitnessProofView {
    pub unstable_mc_joints: Seq<JointView>,
    pub witness_change_and_definition: Seq<JointView>,
    pub last_ball_mci: u32,
}

impl View for WitnessProof {
    type V = WitnessProofView;

    open spec fn view(&self) -> WitnessProofView {
        WitnessProofView {
            unstable_mc_joints: joint_views(self.unstable_mc_joints@),
            witness_change_and_definition: joint_views(self.witness_change_and_definition@),
            last_ball_mci: self.last_ball_mci,
        }
    }
}

/// The history that answers a request.
#[derive(Debug, PartialEq, Eq)]
pub struct HistoryResponse {
    pub unstable_mc_joints: Vec<Joint>,
    pub witness_change_and_definition: Vec<Joint>,
    /// The joints that concern the client, latest first.
    pub joints: Vec<Joint>,
    /// The proof chains of those joints that the trusted boundary covers.
    pub proofchain_balls: Vec<ProofBall>,
}

/// The mathematical reading of a [`HistoryResponse`].
pub struct HistoryResponseView {
    pub unstable_mc_joints: Seq<JointView>,
    pub witness_change_and_definition: Seq<JointView>,
    pub joints: Seq<JointView>,
    pub proofchain_balls: Seq<ProofBallView>,
}

impl View for HistoryResponse {
    type V = HistoryResponseView;

    open spec fn view(&self) -> HistoryResponseView {
        HistoryResponseView {
            unstable_mc_joints: joint_views(self.unstable_mc_joints@),
            witness_change_and_definition: joint_views(self.witness_change_and_definition@),
            joints: joint_views(self.joints@),
            proofchain_balls: ball_views(self.proofchain_balls@),
        }
    }
}

/// The reading of what answering a request returns.
pub open spec fn response_view(r: Result<HistoryResponse, Error>) -> Result<
    HistoryResponseView,
    ErrorView,
> {
    match r {
        Ok(v) => Ok(v@),
        Err(e) => Err(e@),
    }
}

/// The response that holds nothing.
pub open spec fn empty_response() -> HistoryResponseView {
    HistoryResponseView {
        unstable_mc_joints: Seq::empty(),
        witness_change_and_definition: Seq::empty(),
        joints: Seq::empty(),
        proofchain_balls: Seq::empty(),
    }
}

/// Whether a request is well formed, and if not, what is wrong with it:
/// it names addresses, known stable units and requested joints, and its
/// witness list has twelve entries.
pub open spec fn validated(request: HistoryRequestView) -> Result<(), ErrorView> {
    if request.addresses.len() == 0 {
        Err(ErrorView::NoAddresses)
    } else if request.known_stable_units.len() == 0 {
        Err(ErrorView::NoKnownStableUnits)
    } else if request.requested_joints.len() == 0 {
        Err(ErrorView::NoRequestedJoints)
    } else if request.witnesses.len() != COUNT_WITNESSES {
        Err(ErrorView::WrongNumberOfWitnesses(request.witnesses.len() as usize))
    } else {
        Ok(())
    }
}

/// Checks a request by itself, without a look at the ledger.
pub fn validate_history_request(request: &HistoryRequest) -> (r: Result<(), Error>)
    ensures
        crate::error::unit_result_view(r) == validated(request@),
{
    if request.addresses.len() == 0 {
        return Err(Error::NoAddresses);
    }
    if request.known_stable_units.len() == 0 {
        return Err(Error::NoKnownStableUnits);
    }
    if request.requested_joints.len() == 0 {
        return Err(Error::NoRequestedJoints);
    }
    if request.witnesses.len() != COUNT_WITNESSES {
        return Err(Error::WrongNumberOfWitnesses(request.witnesses.len()));
    }
    Ok(())
}

/// The unit at position `i` is authored by, or pays to, an address that is
/// connected to one of `addresses`.
pub open spec fn touches(m: LedgerView, i: int, addresses: Seq<Seq<char>>) -> bool {
    exists|a: Seq<char>| #[trigger] m.addresses[i].contains(a) && in_closure(m, addresses, a)
}

/// The unit at position `i` is in good sequence or stable.
pub open spec fn is_good_or_stable(m: LedgerView, i: int) -> bool {
    m.joints[i].unit.sequence == Sequence::Good || m.joints[i].unit.is_stable()
}

/// The unit at position `i` belongs to the history that `request` asks for:
/// it touches the client's addresses and is good or stable, or it was asked
/// for by hash; and the client does not hold it as stable already.
pub open spec fn is_candidate(m: LedgerView, request: HistoryRequestView, i: int) -> bool {
    &&& 0 <= i < m.len()
    &&& (touches(m, i, request.addresses) && is_good_or_stable(m, i))
        || request.requested_joints.contains(m.id(i))
    &&& !request.known_stable_units.contains(m.id(i))
}

/// The order of a history: the larger main-chain index first, units without
/// one last; then the higher level first; then the unit stored first.
pub open spec fn comes_before(m: LedgerView, i: int, j: int) -> bool {
    let a = m.mci(i);
    let b = m.mci(j);
    if a != b {
        match (a, b) {
            (Some(x), Some(y)) => x > y,
            (Some(_), None) => true,
            _ => false,
        }
    } else if m.level(i) != m.level(j) {
        m.level(i) > m.level(j)
    } else {
        i < j
    }
}

/// `rows` lists the positions in order.
pub open spec fn in_order(m: LedgerView, rows: Seq<int>) -> bool {
    forall|a: int, b: int| 0 <= a < b < rows.len() ==> comes_before(m, rows[a], rows[b])
}

/// `rows` is the history that `request` asks for: the candidates, each
/// once, in order.
pub open spec fn is_selection(m: LedgerView, request: HistoryRequestView, rows: Seq<int>) -> bool {
    &&& forall|i: int| rows.contains(i) <==> is_candidate(m, request, i)
    &&& in_order(m, rows)
}

/// Of two different stored units one comes before the other, and never
/// both ways.
pub proof fn lemma_order_is_strict_and_total(m: LedgerView, i: int, j: int)
    ensures
        !(comes_before(m, i, j) && comes_before(m, j, i)),
        i != j ==> comes_before(m, i, j) || comes_before(m, j, i),
        !comes_before(m, i, i),
{
}

/// A request has one history: two selections for it are the same.
pub proof fn lemma_selection_is_unique(
    m: LedgerView,
    request: HistoryRequestView,
    a: Seq<int>,
    b: Seq<int>,
)
    requires
        is_selection(m, request, a),
        is_selection(m, request, b),
    ensures
        a == b,
{
    lemma_same_members_same_rows(m, a, b);
}

proof fn lemma_same_members_same_rows(m: LedgerView, a: Seq<int>, b: Seq<int>)
    requires
        in_order(m, a),
        in_order(m, b),
        forall|i: int| a.contains(i) <==> b.contains(i),
    ensures
        a == b,
    decreases a.len(),
{
    if a.len() == 0 {
        if b.len() > 0 {
            assert(b.contains(b[0]));
        }
        assert(a =~= b);
    } else {
        assert(a.contains(a[0]));
        assert(b.contains(a[0]));
        let p = choose|p: int| 0 <= p < b.len() && b[p] == a[0];
        assert(b.contains(b[0]));
        let q = choose|q: int| 0 <= q < a.len() && a[q] == b[0];
        if p > 0 && q > 0 {
            assert(comes_before(m, b[0], b[p]));
            assert(comes_before(m, a[0], a[q]));
            lemma_order_is_strict_and_total(m, a[0], b[0]);
        }
        if p > 0 && q == 0 {
            assert(comes_before(m, b[0], b[p]));
            lemma_order_is_strict_and_total(m, a[0], a[0]);
        }
        if p == 0 && q > 0 {
            assert(comes_before(m, a[0], a[q]));
            lemma_order_is_strict_and_total(m, a[0], a[0]);
        }
        assert(a[0] == b[0]);
        let ta = a.drop_first();
        let tb = b.drop_first();
        assert forall|i: int| ta.contains(i) <==> tb.contains(i) by {
            if ta.contains(i) {
                let k = choose|k: int| 0 <= k < ta.len() && ta[k] == i;
                assert(a[k + 1] == i);
                assert(comes_before(m, a[0], a[k + 1]));
                lemma_order_is_strict_and_total(m, a[0], a[0]);
                assert(a.contains(i));
                let r = choose|r: int| 0 <= r < b.len() && b[r] == i;
                assert(r > 0);
                assert(tb[r - 1] == i);
            }
            if tb.contains(i) {
                let k = choose|k: int| 0 <= k < tb.len() && tb[k] == i;
                assert(b[k + 1] == i);
                assert(comes_before(m, b[0], b[k + 1]));
                lemma_order_is_strict_and_total(m, b[0], b[0]);
                assert(b.contains(i));
                let r = choose|r: int| 0 <= r < a.len() && a[r] == i;
                assert(r > 0);
                assert(ta[r - 1] == i);
            }
        }
        assert forall|x: int, y: int| 0 <= x < y < ta.len() implies comes_before(
            m,
            ta[x],
            ta[y],
        ) by {
            assert(comes_before(m, a[x + 1], a[y + 1]));
        }
        assert forall|x: int, y: int| 0 <= x < y < tb.len() implies comes_before(
            m,
            tb[x],
            tb[y],
        ) by {
            assert(comes_before(m, b[x + 1], b[y + 1]));
        }
        lemma_same_members_same_rows(m, ta, tb);
        assert(a =~= seq![a[0]] + ta);
        assert(b =~= seq![b[0]] + tb);
    }
}

/// The joints at the positions `rows`.
pub open spec fn joints_at(m: LedgerView, rows: Seq<int>) -> Seq<JointView> {
    Seq::new(rows.len(), |k: int| m.joints[rows[k]])
}

/// The unit at position `i` lies within the trusted boundary.
pub open spec fn within_boundary(m: LedgerView, i: int, last_ball_mci: u32) -> bool {
    m.mci(i) matches Some(v) && v <= last_ball_mci
}

/// The proof chains of the units at `rows`, one after the other. Each chain
/// starts from the main-chain index where the one before it ended; the
/// first starts from `later_mci`. Units outside the boundary have none.
pub open spec fn chains_of(m: LedgerView, rows: Seq<int>, later_mci: u32, last_ball_mci: u32) -> Chain
    decreases rows.len(),
{
    if rows.len() == 0 {
        Ok(Seq::empty())
    } else if within_boundary(m, rows[0], last_ball_mci) {
        let mci = m.mci(rows[0]).unwrap();
        match proof_chain(m, later_mci, mci, m.id(rows[0])) {
            Err(e) => Err(e),
            Ok(chain) => then_chain(chain, chains_of(m, rows.drop_first(), mci, last_ball_mci)),
        }
    } else {
        chains_of(m, rows.drop_first(), later_mci, last_ball_mci)
    }
}

/// The history made of the units at `rows`: nothing where there are none, a
/// failure where there are more than can be served, and else their joints
/// with their proof chains and what the witness proof holds.
pub open spec fn history_of(m: LedgerView, proof: WitnessProofView, rows: Seq<int>) -> Result<
    HistoryResponseView,
    ErrorView,
> {
    if rows.len() == 0 {
        Ok(empty_response())
    } else if rows.len() > MAX_HISTORY_ITEMS {
        Err(ErrorView::HistoryTooLarge(rows.len() as usize))
    } else {
        match chains_of(m, rows, (proof.last_ball_mci + 1) as u32, proof.last_ball_mci) {
            Err(e) => Err(e),
            Ok(balls) => Ok(
                HistoryResponseView {
                    unstable_mc_joints: proof.unstable_mc_joints,
                    witness_change_and_definition: proof.witness_change_and_definition,
                    joints: joints_at(m, rows),
                    proofchain_balls: balls,
                },
            ),
        }
    }
}

/// Where no unit concerns the client, the history is empty in all its
/// parts, whatever the witness proof holds; that is no failure.
pub proof fn lemma_empty_history(
    m: LedgerView,
    request: HistoryRequestView,
    proof: WitnessProofView,
    rows: Seq<int>,
)
    requires
        is_selection(m, request, rows),
        forall|i: int| !is_candidate(m, request, i),
    ensures
        rows.len() == 0,
        history_of(m, proof, rows) == Ok::<HistoryResponseView, ErrorView>(empty_response()),
        empty_response().unstable_mc_joints.len() == 0,
        empty_response().witness_change_and_definition.len() == 0,
        empty_response().joints.len() == 0,
        empty_response().proofchain_balls.len() == 0,
{
    if rows.len() > 0 {
        assert(rows.contains(rows[0]));
    }
}

proof fn lemma_chains_failure(m: LedgerView, rows: Seq<int>, later_mci: u32, last_ball_mci: u32)
    requires
        m.well_formed(),
    ensures
        chains_of(m, rows, later_mci, last_ball_mci) matches Err(e) ==> is_chain_failure(e),
    decreases rows.len(),
{
    if rows.len() > 0 {
        if within_boundary(m, rows[0], last_ball_mci) {
            let mci = m.mci(rows[0]).unwrap();
            lemma_proof_chain_failure(m, later_mci, mci, m.id(rows[0]));
            lemma_chains_failure(m, rows.drop_first(), mci, last_ball_mci);
        } else {
            lemma_chains_failure(m, rows.drop_first(), later_mci, last_ball_mci);
        }
    }
}

/// A history of more than a thousand units is refused for its size, as a
/// whole. A history of a thousand units or fewer is not: where it fails, a
/// proof chain could not be built.
pub proof fn lemma_history_cap(m: LedgerView, proof: WitnessProofView, rows: Seq<int>)
    requires
        m.well_formed(),
    ensures
        rows.len() > MAX_HISTORY_ITEMS ==> history_of(m, proof, rows) == Err::<
            HistoryResponseView,
            ErrorView,
        >(ErrorView::HistoryTooLarge(rows.len() as usize)),
        rows.len() <= MAX_HISTORY_ITEMS ==> (history_of(m, proof, rows) matches Err(e)
            ==> is_chain_failure(e)),
        rows.len() <= MAX_HISTORY_ITEMS ==> (history_of(m, proof, rows) matches Ok(r)
            ==> r.joints.len() == rows.len()),
{
    lemma_chains_failure(m, rows, (proof.last_ball_mci + 1) as u32, proof.last_ball_mci);
}

/// Whether the unit at position `i` touches one of `expanded`.
fn touches_any(ledger: &Ledger, i: usize, expanded: &Vec<String>, Ghost(start): Ghost<
    Seq<Seq<char>>,
>) -> (r: bool)
    requires
        i < ledger@.len(),
        is_expansion(ledger@, start, texts(expanded@)),
    ensures
        r == touches(ledger@, i as int, start),
{
    let held = ledger.addresses(i);
    let mut k: usize = 0;
    while k < held.len()
        invariant
            k <= held.len(),
            i < ledger@.len(),
            texts(held@) == ledger@.addresses[i as int],
            is_expansion(ledger@, start, texts(expanded@)),
            forall|j: int|
                0 <= j < k ==> !in_closure(ledger@, start, #[trigger] ledger@.addresses[i as int][j]),
        decreases held.len() - k,
    {
        assert(texts(held@)[k as int] == held[k as int]@);
        if contains_string(expanded, &held[k]) {
            assert(ledger@.addresses[i as int].contains(held[k as int]@));
            return true;
        }
        k = k + 1;
    }
    proof {
        if touches(ledger@, i as int, start) {
            let a = choose|a: Seq<char>| #[trigger]
                ledger@.addresses[i as int].contains(a) && in_closure(ledger@, start, a);
            let j = choose|j: int|
                0 <= j < ledger@.addresses[i as int].len() && ledger@.addresses[i as int][j] == a;
            assert(false);
        }
    }
    false
}

/// Whether the unit at position `i` comes before the one at position `j`.
fn precedes(ledger: &Ledger, i: usize, j: usize) -> (r: bool)
    requires
        i < ledger@.len(),
        j < ledger@.len(),
    ensures
        r == comes_before(ledger@, i as int, j as int),
{
    let a = &ledger.joint(i).unit;
    let b = &ledger.joint(j).unit;
    match (a.main_chain_index, b.main_chain_index) {
        (Some(x), Some(y)) => {
            if x != y {
                return x > y;
            }
        },
        (Some(_), None) => {
            return true;
        },
        (None, Some(_)) => {
            return false;
        },
        (None, None) => {},
    }
    if a.level != b.level {
        a.level > b.level
    } else {
        i < j
    }
}

/// The positions as integers.
pub open spec fn positions(rows: Seq<usize>) -> Seq<int> {
    Seq::new(rows.len(), |k: int| rows[k] as int)
}

/// Selects the units of the history that `request` asks for: the units that
/// touch the client's addresses or those connected to them and are good or
/// stable, and the units asked for by hash, without those that the client
/// holds as stable; the larger main-chain index first, then the higher
/// level. The result holds positions in the ledger.
pub fn select_candidates(ledger: &Ledger, request: &HistoryRequest) -> (rows: Vec<usize>)
    ensures
        is_selection(ledger@, request@, positions(rows@)),
        forall|k: int| 0 <= k < rows.len() ==> rows[k] < ledger@.len(),
{
    let n = ledger.len();
    proof {
        use_type_invariant(ledger);
        ledger.lemma_inv();
    }
    let ghost m = ledger@;
    let expanded = add_shared_addresses_of_wallet(ledger, &request.addresses);
    let mut rows: Vec<usize> = Vec::new();
    let mut i: usize = 0;
    while i < n
        invariant
            i <= n,
            n == m.len(),
            m == ledger@,
            is_expansion(m, request@.addresses, texts(expanded@)),
            forall|k: int| 0 <= k < rows.len() ==> rows[k] < i,
            forall|v: int| positions(rows@).contains(v) <==> 0 <= v < i && is_candidate(m, request@, v),
            in_order(m, positions(rows@)),
        decreases n - i,
    {
        let joint = ledger.joint(i);
        let good_or_stable = joint.unit.sequence == Sequence::Good || joint.unit.is_stable();
        let by_address = good_or_stable && touches_any(
            ledger,
            i,
            &expanded,
            Ghost(request@.addresses),
        );
        let wanted = (by_address || contains_string(&request.requested_joints, &joint.unit.unit))
            && !contains_string(&request.known_stable_units, &joint.unit.unit);
        assert(wanted == is_candidate(m, request@, i as int));
        let ghost before = positions(rows@);
        if wanted {
            let mut p: usize = 0;
            while p < rows.len() && !precedes(ledger, i, rows[p])
                invariant
                    p <= rows.len(),
                    i < n,
                    n == m.len(),
                    m == ledger@,
                    forall|k: int| 0 <= k < rows.len() ==> rows[k] < i,
                    forall|k: int| 0 <= k < p ==> !comes_before(m, i as int, rows[k] as int),
                decreases rows.len() - p,
            {
                p = p + 1;
            }
            rows.insert(p, i);
            proof {
                let after = positions(rows@);
                assert(after =~= before.insert(p as int, i as int));
                assert forall|a: int, b: int| 0 <= a < b < after.len() implies comes_before(
                    m,
                    after[a],
                    after[b],
                ) by {
                    if a < p && b > p {
                        assert(comes_before(m, before[a], before[b - 1]));
                    } else if a < p && b < p {
                        assert(comes_before(m, before[a], before[b]));
                    } else if a > p {
                        assert(comes_before(m, before[a - 1], before[b - 1]));
                    } else if a == p {
                        if b - 1 > p {
                            assert(comes_before(m, before[p as int], before[b - 1]));
                        }
                    } else {
                        assert(b == p);
                        assert(!comes_before(m, i as int, before[a]));
                    }
                }
                assert forall|v: int| after.contains(v) <==> 0 <= v < i + 1 && is_candidate(
                    m,
                    request@,
                    v,
                ) by {
                    if after.contains(v) {
                        let k = choose|k: int| 0 <= k < after.len() && after[k] == v;
                        if k < p {
                            assert(before[k] == v);
                            assert(before.contains(v));
                        } else if k > p {
                            assert(before[k - 1] == v);
                            assert(before.contains(v));
                        }
                    }
                    if 0 <= v < i && is_candidate(m, request@, v) {
                        assert(before.contains(v));
                        let k = choose|k: int| 0 <= k < before.len() && before[k] == v;
                        if k < p {
                            assert(after[k] == v);
                        } else {
                            assert(after[k + 1] == v);
                        }
                    }
                    if v == i {
                        assert(after[p as int] == v);
                    }
                }
            }
        }
        i = i + 1;
    }
    rows
}

/// Whether the history of these units depends on the witness proof: whether
/// there are any, and no more than can be served. Where it does not, the
/// witness proof need not be made.
pub fn takes_witness_proof(rows: &Vec<usize>) -> (r: bool)
    ensures
        r == (0 < rows.len() <= MAX_HISTORY_ITEMS),
        !r ==> forall|m: LedgerView, p: WitnessProofView, q: WitnessProofView| #[trigger]
            history_of(m, p, positions(rows@)) == #[trigger] history_of(m, q, positions(rows@)),
{
    0 < rows.len() && rows.len() <= MAX_HISTORY_ITEMS
}

/// Builds the history made of the units at `rows`, which are in order.
pub fn build_history(ledger: &Ledger, rows: &Vec<usize>, witness_proof: &WitnessProof) -> (r: Result<
    HistoryResponse,
    Error,
>)
    requires
        forall|k: int| 0 <= k < rows.len() ==> rows[k] < ledger@.len(),
        witness_proof.last_ball_mci < u32::MAX,
    ensures
        response_view(r) == history_of(ledger@, witness_proof@, positions(rows@)),
{
    let ghost m = ledger@;
    let ghost all = positions(rows@);
    if rows.len() == 0 {
        let r = HistoryResponse {
            unstable_mc_joints: Vec::new(),
            witness_change_and_definition: Vec::new(),
            joints: Vec::new(),
            proofchain_balls: Vec::new(),
        };
        assert(r@.unstable_mc_joints =~= Seq::empty());
        assert(r@.witness_change_and_definition =~= Seq::empty());
        assert(r@.joints =~= Seq::empty());
        assert(r@.proofchain_balls =~= Seq::empty());
        return Ok(r);
    }
    if rows.len() > MAX_HISTORY_ITEMS {
        return Err(Error::HistoryTooLarge(rows.len()));
    }
    let last = witness_proof.last_ball_mci;
    let mut later_mci = last + 1;
    let mut joints: Vec<Joint> = Vec::new();
    let mut balls: Vec<ProofBall> = Vec::new();
    let ghost whole = chains_of(m, all, later_mci, last);
    let mut k: usize = 0;
    proof {
        assert(all.subrange(0, all.len() as int) =~= all);
        assert(ball_views(balls@) =~= Seq::<ProofBallView>::empty());
        match whole {
            Ok(c) => {
                assert(Seq::<ProofBallView>::empty() + c =~= c);
            },
            Err(_) => {},
        }
    }
    while k < rows.len()
        invariant
            k <= rows.len(),
            m == ledger@,
            all == positions(rows@),
            last == witness_proof.last_ball_mci,
            last < u32::MAX,
            0 < rows.len() <= MAX_HISTORY_ITEMS,
            forall|j: int| 0 <= j < rows.len() ==> rows[j] < m.len(),
            whole == chains_of(m, all, (last + 1) as u32, last),
            whole == then_chain(
                ball_views(balls@),
                chains_of(m, all.subrange(k as int, all.len() as int), later_mci, last),
            ),
            joints.len() == k,
            forall|j: int| 0 <= j < k ==> joints[j]@ == m.joints[all[j]],
        decreases rows.len() - k,
    {
        let i = rows[k];
        let joint = ledger.joint(i);
        let ghost rest = all.subrange(k as int, all.len() as int);
        proof {
            assert(rest[0] == i as int);
            assert(rest.drop_first() =~= all.subrange(k + 1, all.len() as int));
        }
        joints.push(joint.clone());
        match joint.unit.main_chain_index {
            Some(mci) => {
                if mci <= last {
                    let ghost held = ball_views(balls@);
                    match build_proof_chain(ledger, later_mci, mci, &joint.unit.unit, &mut balls) {
                        Err(e) => {
                            return Err(e);
                        },
                        Ok(()) => {},
                    }
                    proof {
                        match (
                            proof_chain(m, later_mci, mci, m.id(i as int)),
                            chains_of(m, rest.drop_first(), mci, last),
                        ) {
                            (Ok(chain), Ok(c)) => {
                                assert((held + chain) + c =~= held + (chain + c));
                            },
                            _ => {},
                        }
                    }
                    later_mci = mci;
                }
            },
            None => {},
        }
        k = k + 1;
    }
    proof {
        assert(all.subrange(k as int, all.len() as int) =~= Seq::<int>::empty());
        assert(ball_views(balls@) + Seq::<ProofBallView>::empty() =~= ball_views(balls@));
        assert(joint_views(joints@) =~= joints_at(m, all));
    }
    Ok(
        HistoryResponse {
            unstable_mc_joints: clone_joints(&witness_proof.unstable_mc_joints),
            witness_change_and_definition: clone_joints(
                &witness_proof.witness_change_and_definition,
            ),
            joints,
            proofchain_balls: balls,
        },
    )
}

/// Answers a request for history. The request is checked first, by itself.
/// Then the units that concern the client are selected; where there are
/// none the answer is empty, and where there are more than a thousand the
/// request fails. Else the answer holds their joints, latest first, the
/// proof chain of each one that the witness proof covers, and what the
/// witness proof holds. Where any chain fails the request fails.
pub fn prepare_history(ledger: &Ledger, request: &HistoryRequest, witness_proof: &WitnessProof) -> (r:
    Result<HistoryResponse, Error>)
    requires
        witness_proof.last_ball_mci < u32::MAX,
    ensures
        match validated(request@) {
            Err(e) => response_view(r) == Err::<HistoryResponseView, ErrorView>(e),
            Ok(()) => exists|rows: Seq<int>| #[trigger]
                is_selection(ledger@, request@, rows) && response_view(r) == history_of(
                    ledger@,
                    witness_proof@,
                    rows,
                ),
        },
{
    match validate_history_request(request) {
        Err(e) => {
            return Err(e);
        },
        Ok(()) => {},
    }
    let rows = select_candidates(ledger, request);
    build_history(ledger, &rows, witness_proof)
}

/// Whether a witness list can be used to pick parents for a new unit, and
/// if not, what is wrong with it: it has twelve entries, and no witness has
/// a definition that refers to other addresses.
pub open spec fn witness_list_checked(m: LedgerView, witnesses: Seq<Seq<char>>) -> Result<
    (),
    ErrorView,
> {
    if witnesses.len() != COUNT_WITNESSES {
        Err(ErrorView::WrongNumberOfWitnesses(witnesses.len() as usize))
    } else if m.have_references(witnesses) {
        Err(ErrorView::WitnessesHaveReferences)
    } else {
        Ok(())
    }
}

/// Checks the witness list of a client that asks for parents, a last ball
/// and a witness-list unit to build a new unit on.
pub fn prepare_parents_and_last_ball_and_witness_list_unit(witness: &[String], ledger: &Ledger) -> (r:
    Result<(), Error>)
    ensures
        crate::error::unit_result_view(r) == witness_list_checked(ledger@, texts(witness@)),
{
    if witness.len() != COUNT_WITNESSES {
        return Err(Error::WrongNumberOfWitnesses(witness.len()));
    }
    if ledger.have_references(witness) {
        return Err(Error::WitnessesHaveReferences);
    }
    Ok(())
}

} // verus!
