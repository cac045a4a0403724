//! Proof chains: the balls that lead a client from a main-chain index it
//! already trusts down to the main-chain index of a unit it asked for, and
//! from there to the unit itself.

use crate::error::{Error, ErrorKind, ErrorView};
use crate::graph::{is_ancestor, is_ancestor_of_index};
use crate::ledger::{
    all_some, lemma_main_chain_unit_at, lemma_parent_stored, lemma_references_stored, unwrapped,
    Ledger, LedgerView,
};
use crate::text::{lemma_sort_texts, opt_text, sorted_texts, texts};
use vstd::prelude::*;

verus! {

/// One link of a proof chain: a unit's ball with the balls it was computed
/// from.
#[derive(Debug, PartialEq, Eq)]
pub struct ProofBall {
    pub ball: String,
    pub unit: String,
    /// The balls of the unit's parents, sorted.
    pub parent_balls: Vec<String>,
    /// Hash of the content; never filled in a chain, where `is_nonserial`
    /// says that the content was removed.
    pub content_hash: Option<String>,
    /// Present, and true, where the unit's content was removed.
    pub is_nonserial: Option<bool>,
    /// The balls of the unit's skip-list units, sorted.
    pub skiplist_balls: Vec<String>,
}

/// The mathematical reading of a [`ProofBall`].
pub struct ProofBallView {
    pub ball: Seq<char>,
    pub unit: Seq<char>,
    pub parent_balls: Seq<Seq<char>>,
    pub content_hash: Option<Seq<char>>,
    pub is_nonserial: Option<bool>,
    pub skiplist_balls: Seq<Seq<char>>,
}

impl View for ProofBall {
    type V = ProofBallView;

    open spec fn view(&self) -> ProofBallView {
        ProofBallView {
            ball: self.ball@,
            unit: self.unit@,
            parent_balls: texts(self.parent_balls@),
            content_hash: opt_text(self.content_hash),
            is_nonserial: self.is_nonserial,
            skiplist_balls: texts(self.skiplist_balls@),
        }
    }
}

/// The readings of a sequence of proof balls, in order.
pub open spec fn ball_views(v: Seq<ProofBall>) -> Seq<ProofBallView> {
    Seq::new(v.len(), |i: int| v[i]@)
}

/// A chain, or the failure that kept it from being built.
pub type Chain = Result<Seq<ProofBallView>, ErrorView>;

/// `first` followed by the chain `rest`, where there is one.
pub open spec fn then_chain(first: Seq<ProofBallView>, rest: Chain) -> Chain {
    match rest {
        Ok(r) => Ok(first + r),
        Err(e) => Err(e),
    }
}

/// The proof ball of the unit at position `i`: its ball, the sorted balls of
/// its parents and of its skip-list units, and the mark of removed content.
/// It fails where the unit, a parent or a skip-list unit has no ball.
pub open spec fn proof_ball_of(m: LedgerView, i: int) -> Result<ProofBallView, ErrorView> {
    match m.ball(i) {
        None => Err(ErrorView::NoBall(m.id(i))),
        Some(ball) => match m.sorted_parent_balls(i) {
            Err(e) => Err(e),
            Ok(parent_balls) => match m.sorted_skiplist_balls(i) {
                Err(e) => Err(e),
                Ok(skiplist_balls) => Ok(
                    ProofBallView {
                        ball,
                        unit: m.id(i),
                        parent_balls,
                        content_hash: None,
                        is_nonserial: if m.joints[i].unit.content_hash is Some {
                            Some(true)
                        } else {
                            None
                        },
                        skiplist_balls,
                    },
                ),
            },
        },
    }
}

/// A skip-list target that a walk standing at `mci` may jump to: it lies
/// below `mci` and not below `earlier`.
pub open spec fn is_shortcut(target: Option<u32>, mci: u32, earlier: u32) -> bool {
    target matches Some(t) && earlier <= t < mci
}

/// The largest shortcut among the first `n` targets.
pub open spec fn largest_shortcut(targets: Seq<Option<u32>>, mci: u32, earlier: u32, n: int) -> Option<
    u32,
>
    decreases n,
{
    if n <= 0 {
        None
    } else {
        let before = largest_shortcut(targets, mci, earlier, n - 1);
        let here = targets[n - 1];
        if is_shortcut(here, mci, earlier) && (before is None || before.unwrap() < here.unwrap()) {
            here
        } else {
            before
        }
    }
}

/// Where the walk goes from `mci`: to the largest shortcut, and one index
/// down where there is none.
pub open spec fn next_mci(targets: Seq<Option<u32>>, mci: u32, earlier: u32) -> int {
    match largest_shortcut(targets, mci, earlier, targets.len() as int) {
        Some(t) => t as int,
        None => mci - 1,
    }
}

/// What `largest_shortcut` finds is a shortcut among the targets, no
/// shortcut among them is larger, and it finds one whenever there is one.
pub proof fn lemma_largest_shortcut(targets: Seq<Option<u32>>, mci: u32, earlier: u32, n: int)
    requires
        0 <= n <= targets.len(),
    ensures
        match largest_shortcut(targets, mci, earlier, n) {
            Some(t) => {
                &&& earlier <= t < mci
                &&& exists|k: int| 0 <= k < n && targets[k] == Some(t)
                &&& forall|k: int|
                    0 <= k < n && is_shortcut(#[trigger] targets[k], mci, earlier) ==> targets[k].unwrap()
                        <= t
            },
            None => forall|k: int| 0 <= k < n ==> !is_shortcut(#[trigger] targets[k], mci, earlier),
        },
    decreases n,
{
    if n > 0 {
        lemma_largest_shortcut(targets, mci, earlier, n - 1);
        let before = largest_shortcut(targets, mci, earlier, n - 1);
        let here = targets[n - 1];
        if is_shortcut(here, mci, earlier) && (before is None || before.unwrap() < here.unwrap()) {
            assert(targets[n - 1] == Some(here.unwrap()));
        } else if before is Some {
            let k = choose|k: int| 0 <= k < n - 1 && targets[k] == Some(before.unwrap());
            assert(0 <= k < n && targets[k] == Some(before.unwrap()));
        }
    }
}

/// The walk moves down, and never below `earlier`.
pub proof fn lemma_next_mci_bounds(targets: Seq<Option<u32>>, mci: u32, earlier: u32)
    requires
        earlier < mci,
    ensures
        earlier <= next_mci(targets, mci, earlier) < mci,
{
    lemma_largest_shortcut(targets, mci, earlier, targets.len() as int);
}

/// The chain of the walk that has arrived at main-chain index `mci`. Where
/// that is `earlier`, or index 0, the walk is over and the chain is empty.
/// Else the chain is the proof ball of the main-chain unit at `mci`,
/// followed by the chain of the walk from the next index.
pub open spec fn chain_from(m: LedgerView, mci: u32, earlier: u32) -> Chain
    decreases mci,
    via chain_from_decreases
{
    if mci <= earlier || mci == 0 {
        Ok(Seq::empty())
    } else {
        match m.main_chain_unit_at(mci) {
            Err(e) => Err(e),
            Ok(i) => match proof_ball_of(m, i) {
                Err(e) => Err(e),
                Ok(ball) => then_chain(
                    seq![ball],
                    chain_from(m, next_mci(m.skiplist_mcis(i), mci, earlier) as u32, earlier),
                ),
            },
        }
    }
}

#[via_fn]
proof fn chain_from_decreases(m: LedgerView, mci: u32, earlier: u32) {
    if mci > earlier {
        match m.main_chain_unit_at(mci) {
            Ok(i) => {
                lemma_next_mci_bounds(m.skiplist_mcis(i), mci, earlier);
            },
            Err(_) => {},
        }
    }
}

/// The main-chain part of a proof chain. The walk starts at
/// `later_mci - 1` and is over when it arrives at `earlier_mci`: the chain
/// holds the proof balls of the main-chain units in between, as far as the
/// walk passes them. `later_mci` may not lie below `earlier_mci`.
pub open spec fn proof_chain_on_mc(m: LedgerView, later_mci: u32, earlier_mci: u32) -> Chain {
    if earlier_mci > later_mci {
        Err(ErrorView::EarlierAfterLater(earlier_mci, later_mci))
    } else if earlier_mci == later_mci {
        Ok(Seq::empty())
    } else {
        chain_from(m, (later_mci - 1) as u32, earlier_mci)
    }
}

/// The main-chain indices at which the walk that has arrived at `mci` takes
/// a proof ball, as far as it gets.
pub open spec fn walk_from(m: LedgerView, mci: u32, earlier: u32) -> Seq<u32>
    decreases mci,
    via walk_from_decreases
{
    if mci <= earlier || mci == 0 {
        Seq::empty()
    } else {
        match m.main_chain_unit_at(mci) {
            Err(e) => Seq::empty(),
            Ok(i) => match proof_ball_of(m, i) {
                Err(e) => Seq::empty(),
                Ok(ball) => seq![mci] + walk_from(
                    m,
                    next_mci(m.skiplist_mcis(i), mci, earlier) as u32,
                    earlier,
                ),
            },
        }
    }
}

#[via_fn]
proof fn walk_from_decreases(m: LedgerView, mci: u32, earlier: u32) {
    if mci > earlier {
        match m.main_chain_unit_at(mci) {
            Ok(i) => {
                lemma_next_mci_bounds(m.skiplist_mcis(i), mci, earlier);
            },
            Err(_) => {},
        }
    }
}

/// `ball` says all there is to say of the unit at position `i`: it holds
/// the unit's ball, the balls of all its parents and of all its skip-list
/// units, sorted, and the mark of removed content in place of a content
/// hash.
pub open spec fn is_complete_for(m: LedgerView, i: int, ball: ProofBallView) -> bool {
    &&& ball.unit == m.id(i)
    &&& m.ball(i) == Some(ball.ball)
    &&& all_some(m.balls_of(m.parent_ids(i)))
    &&& sorted_texts(ball.parent_balls)
    &&& ball.parent_balls.to_multiset() == unwrapped(m.balls_of(m.parent_ids(i))).to_multiset()
    &&& all_some(m.balls_of(m.skiplist_ids(i)))
    &&& sorted_texts(ball.skiplist_balls)
    &&& ball.skiplist_balls.to_multiset() == unwrapped(
        m.balls_of(m.skiplist_ids(i)),
    ).to_multiset()
    &&& ball.content_hash is None
    &&& ball.is_nonserial == if m.joints[i].unit.content_hash is Some {
        Some(true)
    } else {
        None::<bool>
    }
}

/// `ball` is complete for some stored unit.
pub open spec fn is_complete_entry(m: LedgerView, ball: ProofBallView) -> bool {
    exists|i: int| 0 <= i < m.len() && is_complete_for(m, i, ball)
}

/// A proof ball is complete or is not built at all.
pub proof fn lemma_proof_ball_is_complete(m: LedgerView, i: int)
    ensures
        proof_ball_of(m, i) matches Ok(ball) ==> is_complete_for(m, i, ball),
{
    lemma_sort_texts(unwrapped(m.balls_of(m.parent_ids(i))));
    lemma_sort_texts(unwrapped(m.balls_of(m.skiplist_ids(i))));
}

/// A proof ball is made of nothing but what its unit's ball was computed
/// from: two ledgers that agree on the unit at position `i`, on the balls
/// of its parents and on the balls of its skip-list units give the same
/// proof ball for it.
pub proof fn lemma_proof_ball_is_determined(m1: LedgerView, m2: LedgerView, i: int)
    requires
        m1.joints[i] == m2.joints[i],
        m1.balls_of(m1.parent_ids(i)) == m2.balls_of(m2.parent_ids(i)),
        m1.balls_of(m1.skiplist_ids(i)) == m2.balls_of(m2.skiplist_ids(i)),
    ensures
        proof_ball_of(m1, i) == proof_ball_of(m2, i),
{
}

/// Every entry of the main-chain part of a proof chain is complete, and the
/// entries are the proof balls of the main-chain units at the indices of
/// the walk.
pub proof fn lemma_chain_from(m: LedgerView, mci: u32, earlier: u32)
    ensures
        chain_from(m, mci, earlier) matches Ok(chain) ==> {
            &&& chain.len() == walk_from(m, mci, earlier).len()
            &&& forall|k: int|
                0 <= k < chain.len() ==> m.main_chain_unit_at(
                    #[trigger] walk_from(m, mci, earlier)[k],
                ) is Ok && proof_ball_of(
                    m,
                    m.main_chain_unit_at(walk_from(m, mci, earlier)[k])->Ok_0,
                ) == Ok::<ProofBallView, ErrorView>(chain[k])
            &&& forall|k: int| 0 <= k < chain.len() ==> is_complete_entry(m, #[trigger] chain[k])
        },
    decreases mci,
{
    if mci <= earlier || mci == 0 {
    } else {
        match m.main_chain_unit_at(mci) {
            Err(_) => {},
            Ok(i) => match proof_ball_of(m, i) {
                Err(_) => {},
                Ok(ball) => {
                    lemma_next_mci_bounds(m.skiplist_mcis(i), mci, earlier);
                    let next = next_mci(m.skiplist_mcis(i), mci, earlier) as u32;
                    lemma_chain_from(m, next, earlier);
                    lemma_main_chain_unit_at(m, mci);
                    lemma_proof_ball_is_complete(m, i);
                    match chain_from(m, next, earlier) {
                        Err(_) => {},
                        Ok(rest) => {
                            let chain = seq![ball] + rest;
                            let walk = walk_from(m, mci, earlier);
                            let tail = walk_from(m, next, earlier);
                            assert(walk == seq![mci] + tail);
                            assert forall|k: int| 0 <= k < chain.len() implies m.main_chain_unit_at(
                                #[trigger] walk[k],
                            ) is Ok && proof_ball_of(m, m.main_chain_unit_at(walk[k])->Ok_0) == Ok::<
                                ProofBallView,
                                ErrorView,
                            >(chain[k]) by {
                                if k > 0 {
                                    assert(walk[k] == tail[k - 1]);
                                    assert(chain[k] == rest[k - 1]);
                                }
                            }
                            assert forall|k: int| 0 <= k < chain.len() implies is_complete_entry(
                                m,
                                #[trigger] chain[k],
                            ) by {
                                if k > 0 {
                                    assert(chain[k] == rest[k - 1]);
                                } else {
                                    assert(is_complete_for(m, i, chain[0]));
                                }
                            }
                        },
                    }
                },
            }
        }
    }
}

/// The walk goes down: each index at which it takes a proof ball lies below
/// the one before it, all lie above `earlier` and none above `mci`; so it
/// takes no more than `mci - earlier` balls.
pub proof fn lemma_walk_goes_down(m: LedgerView, mci: u32, earlier: u32)
    ensures
        forall|k: int|
            0 <= k < walk_from(m, mci, earlier).len() ==> earlier < #[trigger] walk_from(
                m,
                mci,
                earlier,
            )[k] <= mci,
        forall|j: int, k: int|
            0 <= j < k < walk_from(m, mci, earlier).len() ==> walk_from(m, mci, earlier)[j]
                > walk_from(m, mci, earlier)[k],
        earlier <= mci ==> walk_from(m, mci, earlier).len() <= mci - earlier,
        earlier > mci ==> walk_from(m, mci, earlier).len() == 0,
    decreases mci,
{
    if mci <= earlier || mci == 0 {
    } else {
        match m.main_chain_unit_at(mci) {
            Err(_) => {},
            Ok(i) => match proof_ball_of(m, i) {
                Err(_) => {},
                Ok(ball) => {
                    lemma_next_mci_bounds(m.skiplist_mcis(i), mci, earlier);
                    let next = next_mci(m.skiplist_mcis(i), mci, earlier) as u32;
                    lemma_walk_goes_down(m, next, earlier);
                    let walk = walk_from(m, mci, earlier);
                    let tail = walk_from(m, next, earlier);
                    assert(walk == seq![mci] + tail);
                    assert forall|k: int| 0 <= k < walk.len() implies earlier < #[trigger] walk[k]
                        <= mci by {
                        if k > 0 {
                            assert(walk[k] == tail[k - 1]);
                        }
                    }
                    assert forall|j: int, k: int| 0 <= j < k < walk.len() implies walk[j]
                        > walk[k] by {
                        assert(walk[k] == tail[k - 1]);
                        if j > 0 {
                            assert(walk[j] == tail[j - 1]);
                        }
                    }
                },
            }
        }
    }
}

/// Every index from `mci` down to `earlier + 1`, in this order.
pub open spec fn every_index(mci: u32, earlier: u32) -> Seq<u32> {
    Seq::new((mci - earlier) as nat, |j: int| (mci - j) as u32)
}

/// From no main-chain unit at an index above `earlier` and up to `mci` the
/// walk jumps: it goes on one index down.
pub open spec fn no_jumps(m: LedgerView, mci: u32, earlier: u32) -> bool {
    forall|k: u32|
        earlier < k <= mci ==> (#[trigger] m.main_chain_unit_at(k) matches Ok(i) ==> next_mci(
            m.skiplist_mcis(i),
            k,
            earlier,
        ) == k - 1)
}

/// Where the walk never jumps, it takes a proof ball at every index on its
/// way: a chain that is built has `mci - earlier` entries.
pub proof fn lemma_walk_without_jumps(m: LedgerView, mci: u32, earlier: u32)
    requires
        earlier <= mci,
        chain_from(m, mci, earlier) is Ok,
        no_jumps(m, mci, earlier),
    ensures
        walk_from(m, mci, earlier) == every_index(mci, earlier),
    decreases mci,
{
    let walk = walk_from(m, mci, earlier);
    if mci > earlier {
        let i = m.main_chain_unit_at(mci)->Ok_0;
        assert(m.main_chain_unit_at(mci) is Ok);
        let next = (mci - 1) as u32;
        assert(next_mci(m.skiplist_mcis(i), mci, earlier) == mci - 1);
        assert forall|k: u32| earlier < k <= next implies (#[trigger] m.main_chain_unit_at(
            k,
        ) matches Ok(i) ==> next_mci(m.skiplist_mcis(i), k, earlier) == k - 1) by {
            assert(earlier < k <= mci);
        }
        lemma_walk_without_jumps(m, next, earlier);
        assert(walk == seq![mci] + walk_from(m, next, earlier));
    }
    assert(walk =~= every_index(mci, earlier));
}

proof fn lemma_falling_sequence(s: Seq<u32>, a: int, b: int)
    requires
        forall|j: int, k: int| 0 <= j < k < s.len() ==> s[j] > s[k],
        0 <= a <= b < s.len(),
    ensures
        s[a] - s[b] >= b - a,
    decreases b - a,
{
    if a < b {
        lemma_falling_sequence(s, a, b - 1);
        assert(s[b - 1] > s[b]);
    }
}

/// A walk that jumps is shorter: only the walk that takes a proof ball at
/// every index on its way takes `mci - earlier` of them.
pub proof fn lemma_walk_with_jumps(m: LedgerView, mci: u32, earlier: u32)
    requires
        earlier <= mci,
    ensures
        walk_from(m, mci, earlier).len() <= mci - earlier,
        walk_from(m, mci, earlier).len() == mci - earlier ==> walk_from(m, mci, earlier)
            == every_index(mci, earlier),
{
    let walk = walk_from(m, mci, earlier);
    lemma_walk_goes_down(m, mci, earlier);
    if walk.len() == mci - earlier {
        assert forall|j: int| 0 <= j < walk.len() implies walk[j] == mci - j by {
            lemma_falling_sequence(walk, 0, j);
            lemma_falling_sequence(walk, j, walk.len() - 1);
        }
        assert(walk =~= every_index(mci, earlier));
    }
}

/// The main-chain part of a proof chain is a walk down the main chain. Its
/// entries are the proof balls of the main-chain units at indices that fall
/// from entry to entry, all below `later_mci` and above `earlier_mci`; so
/// there are fewer than `later_mci - earlier_mci` of them. Every entry is
/// complete.
pub proof fn lemma_monotonic_walk(m: LedgerView, later_mci: u32, earlier_mci: u32)
    requires
        earlier_mci < later_mci,
        proof_chain_on_mc(m, later_mci, earlier_mci) is Ok,
    ensures
        ({
            let chain = proof_chain_on_mc(m, later_mci, earlier_mci)->Ok_0;
            let walk = walk_from(m, (later_mci - 1) as u32, earlier_mci);
            &&& chain.len() == walk.len()
            &&& chain.len() < later_mci - earlier_mci
            &&& forall|k: int| 0 <= k < walk.len() ==> earlier_mci < #[trigger] walk[k] < later_mci
            &&& forall|j: int, k: int| 0 <= j < k < walk.len() ==> walk[j] > walk[k]
            &&& forall|k: int|
                0 <= k < chain.len() ==> m.main_chain_unit_at(#[trigger] walk[k]) is Ok
                    && proof_ball_of(m, m.main_chain_unit_at(walk[k])->Ok_0) == Ok::<
                    ProofBallView,
                    ErrorView,
                >(chain[k])
            &&& forall|k: int| 0 <= k < chain.len() ==> is_complete_entry(m, #[trigger] chain[k])
        }),
{
    let start = (later_mci - 1) as u32;
    lemma_chain_from(m, start, earlier_mci);
    lemma_walk_goes_down(m, start, earlier_mci);
}

/// The reading of what a builder of a single proof ball returns.
pub open spec fn ball_result_view(r: Result<ProofBall, Error>) -> Result<ProofBallView, ErrorView> {
    match r {
        Ok(b) => Ok(b@),
        Err(e) => Err(e@),
    }
}

/// Builds the proof ball of the unit at position `i`.
pub fn proof_ball(ledger: &Ledger, i: usize) -> (r: Result<ProofBall, Error>)
    requires
        i < ledger@.len(),
    ensures
        ball_result_view(r) == proof_ball_of(ledger@, i as int),
{
    proof {
        use_type_invariant(ledger);
        ledger.lemma_inv();
    }
    let joint = ledger.joint(i);
    let ball = match &joint.ball {
        None => {
            return Err(Error::NoBall(joint.unit.unit.clone()));
        },
        Some(b) => b.clone(),
    };
    proof {
        lemma_references_stored(ledger@, i as int);
        assert forall|k: int| 0 <= k < joint.unit.parent_units.len() implies ledger@.holds(
            #[trigger] joint.unit.parent_units[k]@,
        ) by {
            assert(joint.unit.parent_units[k]@ == ledger@.parent_ids(i as int)[k]);
        }
        assert forall|k: int| 0 <= k < joint.skiplist_units.len() implies ledger@.holds(
            #[trigger] joint.skiplist_units[k]@,
        ) by {
            assert(joint.skiplist_units[k]@ == ledger@.skiplist_ids(i as int)[k]);
        }
    }
    let parent_balls = match ledger.sorted_balls_of(&joint.unit.parent_units) {
        None => {
            return Err(Error::ParentsWithoutBalls(joint.unit.unit.clone()));
        },
        Some(v) => v,
    };
    let skiplist_balls = match ledger.sorted_balls_of(&joint.skiplist_units) {
        None => {
            return Err(Error::SkiplistWithoutBalls(joint.unit.unit.clone()));
        },
        Some(v) => v,
    };
    let is_nonserial = if joint.unit.content_hash.is_some() {
        Some(true)
    } else {
        None
    };
    Ok(
        ProofBall {
            ball,
            unit: joint.unit.unit.clone(),
            parent_balls,
            content_hash: None,
            is_nonserial,
            skiplist_balls,
        },
    )
}

/// Where the walk goes from `mci`, given the main-chain indices that the
/// skip list of the unit there leads to.
pub fn choose_next_mci(targets: &Vec<Option<u32>>, mci: u32, earlier_mci: u32) -> (r: u32)
    requires
        earlier_mci < mci,
    ensures
        r == next_mci(targets@, mci, earlier_mci),
        earlier_mci <= r < mci,
{
    let mut best: Option<u32> = None;
    let mut k: usize = 0;
    while k < targets.len()
        invariant
            k <= targets.len(),
            best == largest_shortcut(targets@, mci, earlier_mci, k as int),
        decreases targets.len() - k,
    {
        match targets[k] {
            Some(t) => {
                if earlier_mci <= t && t < mci {
                    let better = match best {
                        None => true,
                        Some(b) => b < t,
                    };
                    if better {
                        best = Some(t);
                    }
                }
            },
            None => {},
        }
        k = k + 1;
    }
    proof {
        lemma_next_mci_bounds(targets@, mci, earlier_mci);
    }
    match best {
        Some(t) => t,
        None => mci - 1,
    }
}

/// The reading of what a chain builder leaves behind: the balls it added to
/// `before`, or its failure.
pub open spec fn built(before: Seq<ProofBall>, after: Seq<ProofBall>, r: Result<(), Error>, chain: Chain) -> bool {
    match chain {
        Ok(c) => r is Ok && ball_views(after) == ball_views(before) + c,
        Err(e) => r matches Err(f) && f@ == e && ball_views(after) == ball_views(before),
    }
}

/// Appends to `balls` the main-chain part of a proof chain. The walk starts
/// at main-chain index `later_mci - 1`. At each index it takes the proof
/// ball of the main-chain unit there and goes on to the largest index that
/// the unit's skip list leads to and that lies below the index and not below
/// `earlier_mci`, or one index down where there is none. It is over when it
/// arrives at `earlier_mci` or at index 0. Where a main-chain unit or a ball
/// is missing it fails and adds nothing, and so it does where `earlier_mci`
/// lies above `later_mci`.
pub fn build_proof_chain_on_mc(
    ledger: &Ledger,
    later_mci: u32,
    earlier_mci: u32,
    balls: &mut Vec<ProofBall>,
) -> (r: Result<(), Error>)
    ensures
        built(old(balls)@, final(balls)@, r, proof_chain_on_mc(ledger@, later_mci, earlier_mci)),
{
    if earlier_mci > later_mci {
        return Err(Error::EarlierAfterLater(earlier_mci, later_mci));
    }
    if earlier_mci == later_mci {
        assert(ball_views(balls@) + Seq::<ProofBallView>::empty() =~= ball_views(balls@));
        return Ok(());
    }
    proof {
        use_type_invariant(ledger);
        ledger.lemma_inv();
    }
    let start = later_mci - 1;
    let mut mci = start;
    let mut segment: Vec<ProofBall> = Vec::new();
    let ghost whole = chain_from(ledger@, start, earlier_mci);
    assert(ball_views(segment@) =~= Seq::<ProofBallView>::empty());
    proof {
        match chain_from(ledger@, mci, earlier_mci) {
            Ok(c) => {
                assert(Seq::<ProofBallView>::empty() + c =~= c);
            },
            Err(_) => {},
        }
    }
    while mci != earlier_mci && mci != 0
        invariant
            earlier_mci <= mci <= start,
            ledger@.well_formed(),
            *balls == *old(balls),
            whole == proof_chain_on_mc(ledger@, later_mci, earlier_mci),
            whole == then_chain(ball_views(segment@), chain_from(ledger@, mci, earlier_mci)),
        decreases mci,
    {
        let i = match ledger.main_chain_unit_at(mci) {
            Err(e) => {
                return Err(e);
            },
            Ok(i) => i,
        };
        let ball = match proof_ball(ledger, i) {
            Err(e) => {
                return Err(e);
            },
            Ok(b) => b,
        };
        let ghost before = ball_views(segment@);
        segment.push(ball);
        assert(ball_views(segment@) =~= before + seq![ball@]);
        let skips = &ledger.joint(i).skiplist_units;
        proof {
            lemma_references_stored(ledger@, i as int);
            assert forall|k: int| 0 <= k < skips.len() implies ledger@.holds(
                #[trigger] skips[k]@,
            ) by {
                assert(skips[k]@ == ledger@.skiplist_ids(i as int)[k]);
            }
        }
        let targets = ledger.mcis_of(skips);
        let next = choose_next_mci(&targets, mci, earlier_mci);
        proof {
            match chain_from(ledger@, next, earlier_mci) {
                Ok(c) => {
                    assert((before + seq![ball@]) + c =~= before + (seq![ball@] + c));
                },
                Err(_) => {},
            }
        }
        mci = next;
    }
    let ghost held = ball_views(balls@);
    let ghost added = ball_views(segment@);
    assert(added + Seq::<ProofBallView>::empty() =~= added);
    balls.append(&mut segment);
    assert(ball_views(balls@) =~= held + added);
    Ok(())
}

/// The position of the `k`-th parent of the unit at position `i`.
pub open spec fn parent_index(m: LedgerView, i: int, k: int) -> int {
    m.index_of(m.parent_ids(i)[k])
}

/// The unit at position `i` is listed among its own parents and has the
/// main-chain index `mci`.
pub open spec fn is_own_parent_at(m: LedgerView, i: int, mci: u32) -> bool {
    exists|k: int|
        0 <= k < m.parent_ids(i).len() && #[trigger] parent_index(m, i, k) == i && m.mci(i) == Some(
            mci,
        )
}

/// The `k`-th parent of the unit at position `i` has the main-chain index
/// `mci` and is an ancestor of that unit.
pub open spec fn parent_qualifies(m: LedgerView, i: int, mci: u32, k: int) -> bool {
    &&& m.mci(parent_index(m, i, k)) == Some(mci)
    &&& is_ancestor(m, parent_index(m, i, k), i)
}

/// The first parent from the `from`-th on that qualifies, as its position in
/// the ledger.
pub open spec fn first_qualifying_parent(m: LedgerView, i: int, mci: u32, from: int) -> Option<int>
    decreases m.parent_ids(i).len() - from,
{
    if from < 0 || from >= m.parent_ids(i).len() {
        None
    } else if parent_qualifies(m, i, mci, from) {
        Some(parent_index(m, i, from))
    } else {
        first_qualifying_parent(m, i, mci, from + 1)
    }
}

proof fn lemma_first_qualifying_parent(m: LedgerView, i: int, mci: u32, from: int)
    requires
        m.well_formed(),
        0 <= i < m.len(),
        0 <= from,
    ensures
        first_qualifying_parent(m, i, mci, from) matches Some(p) ==> 0 <= p < i,
    decreases m.parent_ids(i).len() - from,
{
    if from < m.parent_ids(i).len() {
        lemma_parent_stored(m, i, from);
        lemma_first_qualifying_parent(m, i, mci, from + 1);
    }
}

/// The chain of the walk that has left the main chain and arrived at the
/// unit at position `interim`, on its way to the unit with the hash `unit`.
/// Where it has arrived at that unit, the walk is over and the chain is
/// empty. Else it looks at the parents of the unit at `interim` that have
/// the main-chain index `mci`. Where that unit is among them, its proof ball
/// ends the chain. Otherwise the first of them that is an ancestor of it is
/// chosen: its proof ball joins the chain, and the walk goes on from the
/// chosen parent. Where no parent can be chosen the walk fails.
pub open spec fn last_mile_from(m: LedgerView, mci: u32, interim: int, unit: Seq<char>) -> Chain
    decreases interim,
    when m.well_formed() && 0 <= interim < m.len()
    via last_mile_from_decreases
{
    if m.id(interim) == unit {
        Ok(Seq::empty())
    } else if is_own_parent_at(m, interim, mci) {
        match proof_ball_of(m, interim) {
            Err(e) => Err(e),
            Ok(ball) => Ok(seq![ball]),
        }
    } else {
        match first_qualifying_parent(m, interim, mci, 0) {
            None => Err(ErrorView::NoQualifyingParent(m.id(interim))),
            Some(parent) => match proof_ball_of(m, interim) {
                Err(e) => Err(e),
                Ok(ball) => then_chain(seq![ball], last_mile_from(m, mci, parent, unit)),
            },
        }
    }
}

#[via_fn]
proof fn last_mile_from_decreases(m: LedgerView, mci: u32, interim: int, unit: Seq<char>) {
    lemma_first_qualifying_parent(m, interim, mci, 0);
}

/// The part of a proof chain that leads from the main chain to `unit`: the
/// chain of the walk that leaves the main chain at the main-chain unit at
/// `earlier_mci`. It is empty where `unit` is that unit.
pub open spec fn last_mile(m: LedgerView, earlier_mci: u32, unit: Seq<char>) -> Chain {
    match m.main_chain_unit_at(earlier_mci) {
        Err(e) => Err(e),
        Ok(i) => last_mile_from(m, earlier_mci, i, unit),
    }
}

/// The chain of the walk to `unit` that starts at the unit with the hash
/// `start`.
pub open spec fn last_mile_from_unit(m: LedgerView, mci: u32, start: Seq<char>, unit: Seq<char>) -> Chain {
    match m.find(start) {
        None => Err(ErrorView::NoQualifyingParent(start)),
        Some(i) => last_mile_from(m, mci, i, unit),
    }
}

/// The whole proof chain for `unit`, whose main-chain index is
/// `earlier_mci`, for a client that knows `later_mci`.
pub open spec fn proof_chain(m: LedgerView, later_mci: u32, earlier_mci: u32, unit: Seq<char>) -> Chain {
    if later_mci > earlier_mci {
        match proof_chain_on_mc(m, later_mci, earlier_mci) {
            Err(e) => Err(e),
            Ok(on_mc) => then_chain(on_mc, last_mile(m, earlier_mci, unit)),
        }
    } else {
        last_mile(m, earlier_mci, unit)
    }
}

/// In a well-formed ledger no unit is among its own parents.
pub proof fn lemma_never_own_parent(m: LedgerView, i: int, mci: u32)
    requires
        m.well_formed(),
        0 <= i < m.len(),
    ensures
        !is_own_parent_at(m, i, mci),
{
    if is_own_parent_at(m, i, mci) {
        let k = choose|k: int|
            0 <= k < m.parent_ids(i).len() && #[trigger] parent_index(m, i, k) == i && m.mci(i)
                == Some(mci);
        lemma_parent_stored(m, i, k);
    }
}

/// Every entry of the chain of a walk off the main chain is complete.
pub proof fn lemma_last_mile_is_complete(m: LedgerView, mci: u32, interim: int, unit: Seq<char>)
    requires
        m.well_formed(),
        0 <= interim < m.len(),
    ensures
        last_mile_from(m, mci, interim, unit) matches Ok(chain) ==> forall|k: int|
            0 <= k < chain.len() ==> is_complete_entry(m, #[trigger] chain[k]),
    decreases interim,
{
    lemma_proof_ball_is_complete(m, interim);
    if m.id(interim) == unit {
    } else if is_own_parent_at(m, interim, mci) {
        match proof_ball_of(m, interim) {
            Err(_) => {},
            Ok(ball) => {
                assert(is_complete_for(m, interim, ball));
            },
        }
    } else {
        match first_qualifying_parent(m, interim, mci, 0) {
            None => {},
            Some(parent) => {
                lemma_first_qualifying_parent(m, interim, mci, 0);
                lemma_last_mile_is_complete(m, mci, parent, unit);
                match (proof_ball_of(m, interim), last_mile_from(m, mci, parent, unit)) {
                    (Ok(ball), Ok(rest)) => {
                        let chain = seq![ball] + rest;
                        assert forall|k: int| 0 <= k < chain.len() implies is_complete_entry(
                            m,
                            #[trigger] chain[k],
                        ) by {
                            if k > 0 {
                                assert(chain[k] == rest[k - 1]);
                            } else {
                                assert(is_complete_for(m, interim, chain[0]));
                            }
                        }
                    },
                    _ => {},
                }
            },
        }
    }
}

/// A proof chain is complete or is not built at all: every entry of a chain
/// holds its unit's ball with the balls of all parents and of all skip-list
/// units of that unit.
pub proof fn lemma_proof_chain_is_complete(
    m: LedgerView,
    later_mci: u32,
    earlier_mci: u32,
    unit: Seq<char>,
)
    requires
        m.well_formed(),
    ensures
        proof_chain(m, later_mci, earlier_mci, unit) matches Ok(chain) ==> forall|k: int|
            0 <= k < chain.len() ==> is_complete_entry(m, #[trigger] chain[k]),
{
    lemma_main_chain_unit_at(m, earlier_mci);
    match m.main_chain_unit_at(earlier_mci) {
        Err(_) => {},
        Ok(i) => {
            lemma_last_mile_is_complete(m, earlier_mci, i, unit);
            if later_mci > earlier_mci {
                match (proof_chain_on_mc(m, later_mci, earlier_mci), last_mile(m, earlier_mci, unit)) {
                    (Ok(on_mc), Ok(off)) => {
                        lemma_monotonic_walk(m, later_mci, earlier_mci);
                        let chain = on_mc + off;
                        assert forall|k: int| 0 <= k < chain.len() implies is_complete_entry(
                            m,
                            #[trigger] chain[k],
                        ) by {
                            if k < on_mc.len() {
                                assert(chain[k] == on_mc[k]);
                            } else {
                                assert(chain[k] == off[k - on_mc.len()]);
                            }
                        }
                    },
                    _ => {},
                }
            }
        },
    }
}

/// A failure that building a chain can end in: something is missing, or the
/// units are not related as the chain supposes.
pub open spec fn is_chain_failure(e: ErrorView) -> bool {
    e.kind() == ErrorKind::NotFound || e.kind() == ErrorKind::AncestryInconsistency
}

proof fn lemma_chain_from_failure(m: LedgerView, mci: u32, earlier: u32)
    ensures
        chain_from(m, mci, earlier) matches Err(e) ==> is_chain_failure(e),
    decreases mci,
{
    if mci <= earlier || mci == 0 {
    } else {
        match m.main_chain_unit_at(mci) {
            Err(_) => {},
            Ok(i) => match proof_ball_of(m, i) {
                Err(_) => {},
                Ok(_) => {
                    lemma_next_mci_bounds(m.skiplist_mcis(i), mci, earlier);
                    lemma_chain_from_failure(
                        m,
                        next_mci(m.skiplist_mcis(i), mci, earlier) as u32,
                        earlier,
                    );
                },
            },
        }
    }
}

proof fn lemma_last_mile_from_failure(m: LedgerView, mci: u32, interim: int, unit: Seq<char>)
    requires
        m.well_formed(),
        0 <= interim < m.len(),
    ensures
        last_mile_from(m, mci, interim, unit) matches Err(e) ==> is_chain_failure(e),
    decreases interim,
{
    if m.id(interim) != unit && !is_own_parent_at(m, interim, mci) {
        match first_qualifying_parent(m, interim, mci, 0) {
            None => {},
            Some(parent) => {
                lemma_first_qualifying_parent(m, interim, mci, 0);
                lemma_last_mile_from_failure(m, mci, parent, unit);
            },
        }
    }
}

/// Where a proof chain is not built, something was missing or the units are
/// not related as supposed: the failure is of no other family.
pub proof fn lemma_proof_chain_failure(m: LedgerView, later_mci: u32, earlier_mci: u32, unit: Seq<char>)
    requires
        m.well_formed(),
    ensures
        proof_chain(m, later_mci, earlier_mci, unit) matches Err(e) ==> is_chain_failure(e),
{
    if later_mci > earlier_mci {
        lemma_chain_from_failure(m, (later_mci - 1) as u32, earlier_mci);
    }
    lemma_main_chain_unit_at(m, earlier_mci);
    match m.main_chain_unit_at(earlier_mci) {
        Err(_) => {},
        Ok(i) => {
            lemma_last_mile_from_failure(m, earlier_mci, i, unit);
        },
    }
}

/// The walk off the main chain to `unit`, from the unit at position `start`.
fn walk_last_mile(
    ledger: &Ledger,
    mci: u32,
    start: usize,
    unit: &String,
    balls: &mut Vec<ProofBall>,
) -> (r: Result<(), Error>)
    requires
        start < ledger@.len(),
    ensures
        built(old(balls)@, final(balls)@, r, last_mile_from(ledger@, mci, start as int, unit@)),
{
    let ghost n = ledger@.len();
    proof {
        use_type_invariant(ledger);
        ledger.lemma_inv();
    }
    let ghost m = ledger@;
    let ghost whole = last_mile_from(m, mci, start as int, unit@);
    let mut interim = start;
    let mut segment: Vec<ProofBall> = Vec::new();
    assert(ball_views(segment@) =~= Seq::<ProofBallView>::empty());
    proof {
        match last_mile_from(m, mci, start as int, unit@) {
            Ok(c) => {
                assert(Seq::<ProofBallView>::empty() + c =~= c);
            },
            Err(_) => {},
        }
    }
    loop
        invariant_except_break
            whole == then_chain(ball_views(segment@), last_mile_from(m, mci, interim as int, unit@)),
        invariant
            m == ledger@,
            m.well_formed(),
            n == m.len(),
            interim < n,
            start < n,
            *balls == *old(balls),
            whole == last_mile_from(m, mci, start as int, unit@),
        ensures
            *balls == *old(balls),
            whole == Ok::<Seq<ProofBallView>, ErrorView>(ball_views(segment@)),
        decreases interim,
    {
        let joint = ledger.joint(interim);
        if joint.unit.unit == *unit {
            assert(ball_views(segment@) + Seq::<ProofBallView>::empty() =~= ball_views(segment@));
            break ;
        }
        let parents = &joint.unit.parent_units;
        let here = joint.unit.main_chain_index == Some(mci);
        let mut own = false;
        let mut chosen: Option<usize> = None;
        let mut k: usize = 0;
        while k < parents.len()
            invariant
                k <= parents.len(),
                m == ledger@,
                m.well_formed(),
                n == m.len(),
                interim < n,
                texts(parents@) == m.parent_ids(interim as int),
                here == (m.mci(interim as int) == Some(mci)),
                own == exists|j: int|
                    0 <= j < k && #[trigger] parent_index(m, interim as int, j) == interim && here,
                match chosen {
                    Some(p) => first_qualifying_parent(m, interim as int, mci, 0) == Some(p as int)
                        && p < interim,
                    None => first_qualifying_parent(m, interim as int, mci, 0)
                        == first_qualifying_parent(m, interim as int, mci, k as int),
                },
            decreases parents.len() - k,
        {
            proof {
                lemma_parent_stored(m, interim as int, k as int);
                assert(parents[k as int]@ == m.parent_ids(interim as int)[k as int]);
            }
            match ledger.find(&parents[k]) {
                Some(p) => {
                    assert(p as int == parent_index(m, interim as int, k as int));
                    if p == interim && here {
                        own = true;
                    }
                    if chosen.is_none() && ledger.joint(p).unit.main_chain_index == Some(mci) {
                        let mut seeds: Vec<usize> = Vec::new();
                        seeds.push(interim);
                        let included = is_ancestor_of_index(ledger, p, &seeds);
                        proof {
                            let idx = seeds@.map_values(|s: usize| s as int);
                            assert(idx[0] == interim as int);
                            if is_ancestor(m, p as int, interim as int) {
                                assert(is_ancestor(m, p as int, idx[0]));
                            }
                        }
                        if included {
                            chosen = Some(p);
                        }
                    }
                },
                None => {},
            }
            k = k + 1;
        }
        proof {
            assert(own == is_own_parent_at(m, interim as int, mci));
        }
        if own {
            match proof_ball(ledger, interim) {
                Err(e) => {
                    return Err(e);
                },
                Ok(ball) => {
                    let ghost before = ball_views(segment@);
                    segment.push(ball);
                    assert(ball_views(segment@) =~= before + seq![ball@]);
                    break ;
                },
            }
        }
        let parent = match chosen {
            None => {
                return Err(Error::NoQualifyingParent(joint.unit.unit.clone()));
            },
            Some(p) => p,
        };
        let ball = match proof_ball(ledger, interim) {
            Err(e) => {
                return Err(e);
            },
            Ok(b) => b,
        };
        let ghost before = ball_views(segment@);
        segment.push(ball);
        proof {
            assert(ball_views(segment@) =~= before + seq![ball@]);
            match last_mile_from(m, mci, parent as int, unit@) {
                Ok(c) => {
                    assert((before + seq![ball@]) + c =~= before + (seq![ball@] + c));
                },
                Err(_) => {},
            }
        }
        interim = parent;
    }
    let ghost held = ball_views(balls@);
    let ghost added = ball_views(segment@);
    balls.append(&mut segment);
    assert(ball_views(balls@) =~= held + added);
    Ok(())
}

/// Appends to `balls` the chain of the walk off the main chain that starts
/// at the unit `interim_unit` and is to lead to `unit`. The walk is over
/// when it arrives at `unit`. At every other unit it looks at the unit's
/// parents with the main-chain index `mci`: it adds the unit's proof ball,
/// and goes on from the first of them that is an ancestor of the unit.
/// At a unit that is among its own parents it adds the proof ball and ends.
/// It fails, adding nothing, where no parent can be chosen or a ball is
/// missing.
pub fn find_parent_and_add_ball(
    ledger: &Ledger,
    mci: u32,
    interim_unit: &String,
    unit: &String,
    balls: &mut Vec<ProofBall>,
) -> (r: Result<(), Error>)
    ensures
        built(
            old(balls)@,
            final(balls)@,
            r,
            last_mile_from_unit(ledger@, mci, interim_unit@, unit@),
        ),
{
    match ledger.find(interim_unit) {
        None => Err(Error::NoQualifyingParent(interim_unit.clone())),
        Some(i) => walk_last_mile(ledger, mci, i, unit, balls),
    }
}

/// Appends to `balls` what leads from the main chain at `earlier_mci` to
/// `unit`: the chain of the walk off the main chain that starts at the
/// main-chain unit there. Nothing is added where `unit` is that unit, and
/// nothing where the walk fails.
pub fn build_last_mile_of_proof_chain(
    ledger: &Ledger,
    earlier_mci: u32,
    unit: &String,
    balls: &mut Vec<ProofBall>,
) -> (r: Result<(), Error>)
    ensures
        built(old(balls)@, final(balls)@, r, last_mile(ledger@, earlier_mci, unit@)),
{
    let i = match ledger.main_chain_unit_at(earlier_mci) {
        Err(e) => {
            return Err(e);
        },
        Ok(i) => i,
    };
    walk_last_mile(ledger, earlier_mci, i, unit, balls)
}

/// Appends to `balls` the proof chain for `unit`, whose main-chain index is
/// `earlier_mci`, for a client that knows `later_mci`: the main-chain part
/// where `later_mci` is above `earlier_mci`, then the last mile. Where either
/// part fails, nothing is added.
pub fn build_proof_chain(
    ledger: &Ledger,
    later_mci: u32,
    earlier_mci: u32,
    unit: &String,
    balls: &mut Vec<ProofBall>,
) -> (r: Result<(), Error>)
    ensures
        built(
            old(balls)@,
            final(balls)@,
            r,
            proof_chain(ledger@, later_mci, earlier_mci, unit@),
        ),
{
    let mut segment: Vec<ProofBall> = Vec::new();
    assert(ball_views(segment@) =~= Seq::<ProofBallView>::empty());
    if later_mci > earlier_mci {
        match build_proof_chain_on_mc(ledger, later_mci, earlier_mci, &mut segment) {
            Err(e) => {
                return Err(e);
            },
            Ok(()) => {},
        }
    }
    let ghost on_mc = ball_views(segment@);
    match build_last_mile_of_proof_chain(ledger, earlier_mci, unit, &mut segment) {
        Err(e) => {
            return Err(e);
        },
        Ok(()) => {},
    }
    let ghost held = ball_views(balls@);
    let ghost added = ball_views(segment@);
    balls.append(&mut segment);
    proof {
        assert(ball_views(balls@) =~= held + added);
        assert(Seq::<ProofBallView>::empty() + on_mc =~= on_mc);
        match last_mile(ledger@, earlier_mci, unit@) {
            Ok(c) => {
                assert(Seq::<ProofBallView>::empty() + c =~= c);
            },
            Err(_) => {},
        }
    }
    Ok(())
}

} // verus!
