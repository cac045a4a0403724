//! Link proofs: for a later unit and an earlier one in its history, the
//! joints that lead from the one to the other.

use crate::error::{Error, ErrorView};
use crate::graph::{
    is_ancestor, is_ancestor_of_index, lemma_ancestor_through_parent, lemma_parent_is_ancestor,
};
use crate::joint::{joint_views, Joint, JointView};
use crate::ledger::{lemma_best_parent_stored, lemma_parent_stored, Ledger, LedgerView};
use crate::proof_chain::parent_index;
use crate::text::texts;
use vstd::prelude::*;

verus! {

/// The `k`-th parent of the unit at position `i` has the same main-chain
/// index as that unit.
pub open spec fn is_same_mci_parent(m: LedgerView, i: int, k: int) -> bool {
    &&& 0 <= k < m.parent_ids(i).len()
    &&& m.mci(i) is Some
    &&& m.mci(parent_index(m, i, k)) == m.mci(i)
}

/// The unit at position `i` has a parent with its own main-chain index.
pub open spec fn has_same_mci_parent(m: LedgerView, i: int) -> bool {
    exists|k: int| is_same_mci_parent(m, i, k)
}

/// The unit at position `e` is among the parents of the unit at position `i`
/// that have the main-chain index of that unit.
pub open spec fn leads_to(m: LedgerView, i: int, e: int) -> bool {
    exists|k: int| #[trigger] is_same_mci_parent(m, i, k) && parent_index(m, i, k) == e
}

/// The units to pass on the way from the unit at position `cur` to the unit
/// at position `e`, going only to parents that have the main-chain index of
/// the unit they are reached from. Where `e` is such a parent of `cur` there
/// is nothing to pass. Else the parents are tried, the one named last
/// first; the first from which there is a way is passed, followed by the
/// way from it. There is no way where every parent is a dead end.
pub open spec fn path_from(m: LedgerView, cur: int, e: int) -> Option<Seq<int>>
    decreases cur, 1int, 0int,
    when m.well_formed() && 0 <= cur < m.len()
{
    if leads_to(m, cur, e) {
        Some(Seq::empty())
    } else {
        try_parents(m, cur, e, m.parent_ids(cur).len() as int)
    }
}

/// The way from the unit at position `cur` through one of its first `n`
/// parents, the `n`-th tried first.
pub open spec fn try_parents(m: LedgerView, cur: int, e: int, n: int) -> Option<Seq<int>>
    decreases cur, 0int, n,
    when m.well_formed() && 0 <= cur < m.len()
    via try_parents_decreases
{
    if n <= 0 || n > m.parent_ids(cur).len() {
        None
    } else if is_same_mci_parent(m, cur, n - 1) {
        match path_from(m, parent_index(m, cur, n - 1), e) {
            Some(rest) => Some(seq![parent_index(m, cur, n - 1)] + rest),
            None => try_parents(m, cur, e, n - 1),
        }
    } else {
        try_parents(m, cur, e, n - 1)
    }
}

#[via_fn]
proof fn try_parents_decreases(m: LedgerView, cur: int, e: int, n: int) {
    if 0 < n <= m.parent_ids(cur).len() {
        lemma_parent_stored(m, cur, n - 1);
    }
}

/// A way leads only to ancestors: where there is a way from the unit at
/// `cur` to the unit at `e`, that unit is an ancestor of the one at `cur`.
pub proof fn lemma_path_reaches_ancestor(m: LedgerView, cur: int, e: int)
    requires
        m.well_formed(),
        0 <= cur < m.len(),
        path_from(m, cur, e) is Some,
    ensures
        is_ancestor(m, e, cur),
    decreases cur, 1int, 0int,
{
    if leads_to(m, cur, e) {
        let k = choose|k: int| #[trigger] is_same_mci_parent(m, cur, k) && parent_index(m, cur, k) == e;
        lemma_parent_stored(m, cur, k);
        lemma_parent_is_ancestor(m, cur, e);
    } else {
        lemma_try_reaches_ancestor(m, cur, e, m.parent_ids(cur).len() as int);
    }
}

proof fn lemma_try_reaches_ancestor(m: LedgerView, cur: int, e: int, n: int)
    requires
        m.well_formed(),
        0 <= cur < m.len(),
        try_parents(m, cur, e, n) is Some,
    ensures
        is_ancestor(m, e, cur),
    decreases cur, 0int, n,
{
    if n <= 0 || n > m.parent_ids(cur).len() {
    } else {
        let p = parent_index(m, cur, n - 1);
        lemma_parent_stored(m, cur, n - 1);
        if is_same_mci_parent(m, cur, n - 1) && path_from(m, p, e) is Some {
            lemma_path_reaches_ancestor(m, p, e);
            lemma_ancestor_through_parent(m, cur, p, e);
        } else {
            lemma_try_reaches_ancestor(m, cur, e, n - 1);
        }
    }
}

/// `way` leads from the unit at position `cur` to the unit at position `e`:
/// from each unit to a parent that has its main-chain index, `e` being
/// such a parent of the last one.
pub open spec fn is_way(m: LedgerView, cur: int, way: Seq<int>, e: int) -> bool {
    let full = seq![cur] + way + seq![e];
    forall|k: int| 0 <= k < full.len() - 1 ==> leads_to(m, #[trigger] full[k], full[k + 1])
}

/// What the search finds is a way.
pub proof fn lemma_path_is_a_way(m: LedgerView, cur: int, e: int)
    requires
        m.well_formed(),
        0 <= cur < m.len(),
        path_from(m, cur, e) is Some,
    ensures
        is_way(m, cur, path_from(m, cur, e).unwrap(), e),
    decreases cur, 1int, 0int,
{
    if leads_to(m, cur, e) {
        let full = seq![cur] + Seq::<int>::empty() + seq![e];
        assert(full[0] == cur && full[1] == e);
    } else {
        lemma_try_is_a_way(m, cur, e, m.parent_ids(cur).len() as int);
    }
}

proof fn lemma_try_is_a_way(m: LedgerView, cur: int, e: int, n: int)
    requires
        m.well_formed(),
        0 <= cur < m.len(),
        try_parents(m, cur, e, n) is Some,
    ensures
        is_way(m, cur, try_parents(m, cur, e, n).unwrap(), e),
    decreases cur, 0int, n,
{
    if n <= 0 || n > m.parent_ids(cur).len() {
    } else {
        let p = parent_index(m, cur, n - 1);
        lemma_parent_stored(m, cur, n - 1);
        if is_same_mci_parent(m, cur, n - 1) && path_from(m, p, e) is Some {
            lemma_path_is_a_way(m, p, e);
            let rest = path_from(m, p, e).unwrap();
            let inner = seq![p] + rest + seq![e];
            let full = seq![cur] + (seq![p] + rest) + seq![e];
            assert forall|k: int| 0 <= k < full.len() - 1 implies leads_to(
                m,
                #[trigger] full[k],
                full[k + 1],
            ) by {
                if k == 0 {
                    assert(full[0] == cur && full[1] == p);
                } else {
                    assert(full[k] == inner[k - 1]);
                    assert(full[k + 1] == inner[k - 1 + 1]);
                }
            }
        } else {
            lemma_try_is_a_way(m, cur, e, n - 1);
        }
    }
}

/// Where there is a way, the search finds one.
pub proof fn lemma_way_is_found(m: LedgerView, cur: int, way: Seq<int>, e: int)
    requires
        m.well_formed(),
        0 <= cur < m.len(),
        is_way(m, cur, way, e),
    ensures
        path_from(m, cur, e) is Some,
    decreases cur,
{
    if !leads_to(m, cur, e) {
        let full = seq![cur] + way + seq![e];
        assert(leads_to(m, full[0int], full[0int + 1]));
        if way.len() == 0 {
            assert(full[1] == e);
        } else {
            let next = way[0];
            assert(full[1] == next);
            let k = choose|k: int| #[trigger]
                is_same_mci_parent(m, cur, k) && parent_index(m, cur, k) == next;
            lemma_parent_stored(m, cur, k);
            let rest = way.drop_first();
            let inner = seq![next] + rest + seq![e];
            assert forall|j: int| 0 <= j < inner.len() - 1 implies leads_to(
                m,
                #[trigger] inner[j],
                inner[j + 1],
            ) by {
                assert(inner[j] == full[j + 1]);
                assert(inner[j + 1] == full[j + 1 + 1]);
                assert(leads_to(m, full[j + 1], full[j + 1 + 1]));
            }
            lemma_way_is_found(m, next, rest, e);
            lemma_try_finds(m, cur, e, m.parent_ids(cur).len() as int, k);
        }
    }
}

proof fn lemma_try_finds(m: LedgerView, cur: int, e: int, n: int, k: int)
    requires
        m.well_formed(),
        0 <= cur < m.len(),
        0 <= k < n <= m.parent_ids(cur).len(),
        is_same_mci_parent(m, cur, k),
        path_from(m, parent_index(m, cur, k), e) is Some,
    ensures
        try_parents(m, cur, e, n) is Some,
    decreases n,
{
    lemma_parent_stored(m, cur, n - 1);
    if k < n - 1 {
        lemma_try_finds(m, cur, e, n - 1, k);
    }
}

/// A branch point of the search: a unit and how many of its parents are
/// still to be tried.
#[derive(Clone, Copy)]
struct Frame {
    /// Position of the unit.
    unit: usize,
    /// The parents before this one are still to be tried, the last first.
    left: usize,
    /// Whether the unit has more than one parent with its main-chain index.
    branching: bool,
}

/// The units passed to get to the top frame: those of all frames but the
/// first.
spec fn passed(frames: Seq<Frame>) -> Seq<int> {
    Seq::new((frames.len() - 1) as nat, |j: int| frames[j + 1].unit as int)
}

/// What the search finds when it goes on from `frames`: the way through the
/// parents left at the top frame, or else what it finds after giving that
/// frame up.
spec fn resume(m: LedgerView, e: int, frames: Seq<Frame>) -> Option<Seq<int>>
    decreases frames.len(),
{
    if frames.len() == 0 {
        None
    } else {
        let top = frames.last();
        match try_parents(m, top.unit as int, e, top.left as int) {
            Some(rest) => Some(passed(frames) + rest),
            None => resume(m, e, frames.drop_last()),
        }
    }
}

/// A bound on the steps that trying the first `n` parents of the unit at
/// position `u` takes.
spec fn effort(m: LedgerView, u: int, n: int) -> int
    decreases u, n,
    when m.well_formed() && 0 <= u < m.len()
    via effort_decreases
{
    if n <= 0 || n > m.parent_ids(u).len() {
        1
    } else {
        let p = parent_index(m, u, n - 1);
        1 + effort(m, u, n - 1) + effort(m, p, m.parent_ids(p).len() as int)
    }
}

#[via_fn]
proof fn effort_decreases(m: LedgerView, u: int, n: int) {
    if 0 < n <= m.parent_ids(u).len() {
        lemma_parent_stored(m, u, n - 1);
    }
}

proof fn lemma_effort_positive(m: LedgerView, u: int, n: int)
    requires
        m.well_formed(),
        0 <= u < m.len(),
    ensures
        effort(m, u, n) >= 1,
    decreases u, n,
{
    if 0 < n <= m.parent_ids(u).len() {
        let p = parent_index(m, u, n - 1);
        lemma_parent_stored(m, u, n - 1);
        lemma_effort_positive(m, u, n - 1);
        lemma_effort_positive(m, p, m.parent_ids(p).len() as int);
    }
}

/// A bound on the steps that the search takes from `frames`.
spec fn total_effort(m: LedgerView, frames: Seq<Frame>) -> int
    decreases frames.len(),
{
    if frames.len() == 0 {
        0
    } else {
        total_effort(m, frames.drop_last()) + effort(
            m,
            frames.last().unit as int,
            frames.last().left as int,
        )
    }
}

proof fn lemma_total_effort_bound(m: LedgerView, frames: Seq<Frame>)
    requires
        m.well_formed(),
        forall|j: int| 0 <= j < frames.len() ==> (#[trigger] frames[j]).unit < m.len(),
    ensures
        total_effort(m, frames) >= 0,
    decreases frames.len(),
{
    if frames.len() > 0 {
        lemma_total_effort_bound(m, frames.drop_last());
        lemma_effort_positive(m, frames.last().unit as int, frames.last().left as int);
    }
}

/// The position of the `k`-th parent of the unit at position `u`.
fn parent_position(ledger: &Ledger, u: usize, k: usize) -> (p: usize)
    requires
        u < ledger@.len(),
        k < ledger@.parent_ids(u as int).len(),
    ensures
        p == parent_index(ledger@, u as int, k as int),
        p < u,
{
    proof {
        use_type_invariant(ledger);
        ledger.lemma_inv();
    }
    let parents = &ledger.joint(u).unit.parent_units;
    proof {
        lemma_parent_stored(ledger@, u as int, k as int);
        assert(parents[k as int]@ == ledger@.parent_ids(u as int)[k as int]);
    }
    match ledger.find(&parents[k]) {
        Some(p) => p,
        None => 0,
    }
}

/// How many parents the unit at position `u` has.
fn parent_count(ledger: &Ledger, u: usize) -> (n: usize)
    requires
        u < ledger@.len(),
    ensures
        n == ledger@.parent_ids(u as int).len(),
{
    let parents = &ledger.joint(u).unit.parent_units;
    assert(texts(parents@).len() == parents.len());
    parents.len()
}

/// Whether the `k`-th parent of the unit at position `u` has the main-chain
/// index of that unit.
fn same_mci_parent(ledger: &Ledger, u: usize, k: usize) -> (r: bool)
    requires
        u < ledger@.len(),
        k < ledger@.parent_ids(u as int).len(),
    ensures
        r == is_same_mci_parent(ledger@, u as int, k as int),
{
    let p = parent_position(ledger, u, k);
    match (ledger.joint(u).unit.main_chain_index, ledger.joint(p).unit.main_chain_index) {
        (Some(a), Some(b)) => a == b,
        _ => false,
    }
}

/// Looks at the parents of the unit at position `u` that have its
/// main-chain index: whether the unit at position `e` is among them, and how
/// many they are.
fn survey(ledger: &Ledger, u: usize, e: usize) -> (r: (bool, usize))
    requires
        u < ledger@.len(),
    ensures
        r.0 == leads_to(ledger@, u as int, e as int),
        (r.1 > 0) == has_same_mci_parent(ledger@, u as int),
{
    let count = parent_count(ledger, u);
    let mut found = false;
    let mut same: usize = 0;
    let mut k: usize = 0;
    while k < count
        invariant
            k <= count,
            u < ledger@.len(),
            count == ledger@.parent_ids(u as int).len(),
            same <= k,
            found == exists|j: int|
                0 <= j < k && #[trigger] is_same_mci_parent(ledger@, u as int, j) && parent_index(
                    ledger@,
                    u as int,
                    j,
                ) == e,
            (same > 0) == exists|j: int| 0 <= j < k && is_same_mci_parent(ledger@, u as int, j),
        decreases count - k,
    {
        if same_mci_parent(ledger, u, k) {
            same = same + 1;
            if parent_position(ledger, u, k) == e {
                found = true;
            }
        }
        k = k + 1;
    }
    (found, same)
}

/// The positions as integers.
pub open spec fn steps(path: Seq<usize>) -> Seq<int> {
    Seq::new(path.len(), |k: int| path[k] as int)
}

/// The reading of what the search returns.
pub open spec fn way_view(r: Option<Vec<usize>>) -> Option<Seq<int>> {
    match r {
        Some(v) => Some(steps(v@)),
        None => None,
    }
}

/// Searches the way from the unit at position `start` to the unit at
/// position `e` through parents of equal main-chain index. The search keeps
/// a stack of branch points; at a unit with several such parents it only
/// follows those that have the unit at `e` in their history, and it comes
/// back to the last branch point where a branch ends without reaching it.
pub fn find_path(ledger: &Ledger, start: usize, e: usize) -> (r: Option<Vec<usize>>)
    requires
        start < ledger@.len(),
        e < ledger@.len(),
    ensures
        way_view(r) == path_from(ledger@, start as int, e as int),
        r matches Some(v) ==> forall|k: int| 0 <= k < v.len() ==> v[k] < ledger@.len(),
{
    let ghost n = ledger@.len();
    proof {
        use_type_invariant(ledger);
        ledger.lemma_inv();
    }
    let ghost m = ledger@;
    let ghost whole = path_from(m, start as int, e as int);
    let first = survey(ledger, start, e);
    if first.0 {
        let v: Vec<usize> = Vec::new();
        assert(steps(v@) =~= Seq::<int>::empty());
        return Some(v);
    }
    let mut frames: Vec<Frame> = Vec::new();
    frames.push(Frame { unit: start, left: parent_count(ledger, start), branching: first.1 > 1 });
    let mut path: Vec<usize> = Vec::new();
    let mut seeds: Vec<usize> = Vec::new();
    proof {
        assert(frames@.drop_last() =~= Seq::<Frame>::empty());
        assert(passed(frames@) =~= Seq::<int>::empty());
        match try_parents(m, start as int, e as int, m.parent_ids(start as int).len() as int) {
            Some(rest) => {
                assert(Seq::<int>::empty() + rest =~= rest);
            },
            None => {
                assert(resume(m, e as int, frames@.drop_last()) is None);
            },
        }
        assert(steps(path@) =~= passed(frames@));
        lemma_total_effort_bound(m, frames@);
    }
    while frames.len() > 0
        invariant
            m == ledger@,
            m.well_formed(),
            n == m.len(),
            e < n,
            whole == path_from(m, start as int, e as int),
            whole == resume(m, e as int, frames@),
            frames.len() > 0 ==> steps(path@) == passed(frames@),
            forall|j: int|
                0 <= j < frames.len() ==> (#[trigger] frames[j]).unit < n && frames[j].left
                    <= m.parent_ids(frames[j].unit as int).len(),
            forall|j: int| 0 <= j < path.len() ==> path[j] < n,
            total_effort(m, frames@) >= 0,
        decreases total_effort(m, frames@),
    {
        let ghost old_frames = frames@;
        let ghost below = frames@.drop_last();
        let top = frames.len() - 1;
        let f = frames[top];
        let ghost budget = total_effort(m, old_frames);
        proof {
            lemma_total_effort_bound(m, below);
            lemma_effort_positive(m, f.unit as int, f.left as int);
            assert(budget == total_effort(m, below) + effort(m, f.unit as int, f.left as int));
        }
        if f.left == 0 {
            let ghost old_path = steps(path@);
            frames.pop();
            if path.len() > 0 {
                path.pop();
            }
            proof {
                assert(frames@ =~= below);
                assert(try_parents(m, f.unit as int, e as int, 0) is None);
                assert(whole == resume(m, e as int, frames@));
                if frames.len() > 0 {
                    assert(steps(path@) =~= old_path.drop_last());
                    assert(steps(path@) =~= passed(frames@));
                }
            }
        } else {
            let k = f.left - 1;
            let g = Frame { unit: f.unit, left: k, branching: f.branching };
            frames.set(top, g);
            proof {
                assert(frames@.drop_last() =~= below);
                assert(passed(frames@) =~= passed(old_frames));
                lemma_parent_stored(m, f.unit as int, k as int);
                lemma_effort_positive(m, f.unit as int, k as int);
                let p = parent_index(m, f.unit as int, k as int);
                lemma_effort_positive(m, p, m.parent_ids(p).len() as int);
                assert(effort(m, f.unit as int, f.left as int) == 1 + effort(
                    m,
                    f.unit as int,
                    k as int,
                ) + effort(m, p, m.parent_ids(p).len() as int));
                assert(total_effort(m, frames@) == total_effort(m, below) + effort(
                    m,
                    f.unit as int,
                    k as int,
                ));
            }
            let mut follow = same_mci_parent(ledger, f.unit, k);
            let c = parent_position(ledger, f.unit, k);
            if follow && f.branching {
                seeds.clear();
                seeds.push(c);
                let included = is_ancestor_of_index(ledger, e, &seeds);
                proof {
                    let idx = seeds@.map_values(|s: usize| s as int);
                    assert(idx[0] == c as int);
                    if is_ancestor(m, e as int, c as int) {
                        assert(is_ancestor(m, e as int, idx[0]));
                    }
                    if !included && path_from(m, c as int, e as int) is Some {
                        lemma_path_reaches_ancestor(m, c as int, e as int);
                    }
                }
                follow = included;
            }
            assert(!follow ==> try_parents(m, f.unit as int, e as int, f.left as int)
                == try_parents(m, f.unit as int, e as int, k as int));
            assert(frames@.last() == g);
            assert(!follow ==> whole == resume(m, e as int, frames@));
            if follow {
                let look = survey(ledger, c, e);
                if look.0 {
                    let ghost before = steps(path@);
                    path.push(c);
                    proof {
                        assert(steps(path@) =~= before + seq![c as int]);
                        assert(seq![c as int] + Seq::<int>::empty() =~= seq![c as int]);
                    }
                    return Some(path);
                }
                let ghost before = steps(path@);
                let ghost mid = frames@;
                frames.push(Frame { unit: c, left: parent_count(ledger, c), branching: look.1 > 1 });
                path.push(c);
                proof {
                    assert(frames@.drop_last() =~= mid);
                    assert(steps(path@) =~= before + seq![c as int]);
                    assert(passed(frames@) =~= passed(mid) + seq![c as int]);
                    assert(mid.drop_last() =~= below);
                    assert(mid.last() == g);
                    assert(is_same_mci_parent(m, f.unit as int, k as int));
                    assert(path_from(m, c as int, e as int) == try_parents(
                        m,
                        c as int,
                        e as int,
                        m.parent_ids(c as int).len() as int,
                    ));
                    match try_parents(m, c as int, e as int, m.parent_ids(c as int).len() as int) {
                        Some(rest) => {
                            assert((passed(mid) + seq![c as int]) + rest =~= passed(mid) + (
                            seq![c as int] + rest));
                            assert(try_parents(m, f.unit as int, e as int, f.left as int) == Some(
                                seq![c as int] + rest,
                            ));
                        },
                        None => {
                            assert(try_parents(m, f.unit as int, e as int, f.left as int)
                                == try_parents(m, f.unit as int, e as int, k as int));
                        },
                    }
                    assert(whole == resume(m, e as int, frames@));
                    assert(total_effort(m, frames@) == total_effort(m, mid) + effort(
                        m,
                        c as int,
                        m.parent_ids(c as int).len() as int,
                    ));
                }
            }
            proof {
                lemma_total_effort_bound(m, frames@);
            }
        }
    }
    None
}

/// The best parent of the unit at position `i`, as a position.
pub open spec fn best_parent_index(m: LedgerView, i: int) -> Option<int> {
    match m.joints[i].unit.best_parent_unit {
        Some(b) => if m.holds(b) {
            Some(m.index_of(b))
        } else {
            None
        },
        None => None,
    }
}

/// The main-chain index `a` is below `b`; a missing index is below every
/// index.
pub open spec fn mci_below(a: Option<u32>, b: Option<u32>) -> bool {
    match (a, b) {
        (None, Some(_)) => true,
        (Some(x), Some(y)) => x < y,
        _ => false,
    }
}

/// A way, or the failure that kept it from being found.
pub type Way = Result<Seq<int>, ErrorView>;

/// `first` followed by the way `rest`, where there is one.
pub open spec fn then_way(first: Seq<int>, rest: Way) -> Way {
    match rest {
        Ok(r) => Ok(first + r),
        Err(e) => Err(e),
    }
}

/// The way from the unit at position `cur` to the unit at position `e`
/// among units of one main-chain index, or why there is none.
pub open spec fn same_mci_way(m: LedgerView, cur: int, e: int) -> Way {
    match path_from(m, cur, e) {
        Some(p) => Ok(p),
        None => if has_same_mci_parent(m, cur) {
            Err(ErrorView::NoQualifyingParent(m.id(cur)))
        } else {
            Err(ErrorView::NoParentsWithSameMci(m.id(cur)))
        },
    }
}

/// The way from the unit at position `cur` towards the unit at position `e`
/// along best parents. Where the best parent is the unit at `e`, the way
/// has arrived. Else the best parent is passed, until one has the
/// main-chain index of `e`: from there the way goes on among units of that
/// index. Where a best parent lies below that index, the way goes on from
/// the unit before it, among units of its index.
pub open spec fn best_parent_way(m: LedgerView, cur: int, e: int) -> Way
    decreases cur,
    when m.well_formed() && 0 <= cur < m.len()
    via best_parent_way_decreases
{
    match best_parent_index(m, cur) {
        None => Err(ErrorView::NoBestParent(m.id(cur))),
        Some(b) => if b == e {
            Ok(Seq::empty())
        } else if mci_below(m.mci(b), m.mci(e)) {
            same_mci_way(m, cur, e)
        } else if m.mci(b) == m.mci(e) {
            then_way(seq![b], same_mci_way(m, b, e))
        } else {
            then_way(seq![b], best_parent_way(m, b, e))
        },
    }
}

#[via_fn]
proof fn best_parent_way_decreases(m: LedgerView, cur: int, e: int) {
    if m.joints[cur].unit.best_parent_unit is Some {
        lemma_best_parent_stored(m, cur);
    }
}

/// The units to pass between the unit at position `later` and the unit at
/// position `earlier`: none where they are the same unit; the way among
/// units of one main-chain index where they share theirs; and else the way
/// along best parents.
pub open spec fn way_between(m: LedgerView, later: int, earlier: int) -> Way {
    if later == earlier {
        Ok(Seq::empty())
    } else if m.mci(later) == m.mci(earlier) {
        same_mci_way(m, later, earlier)
    } else {
        best_parent_way(m, later, earlier)
    }
}

proof fn lemma_best_parent_way_reaches_ancestor(m: LedgerView, cur: int, e: int)
    requires
        m.well_formed(),
        0 <= cur < m.len(),
        best_parent_way(m, cur, e) is Ok,
    ensures
        is_ancestor(m, e, cur),
    decreases cur,
{
    let b = best_parent_index(m, cur)->Some_0;
    lemma_best_parent_stored(m, cur);
    if b == e {
        lemma_parent_is_ancestor(m, cur, e);
    } else if mci_below(m.mci(b), m.mci(e)) {
        lemma_path_reaches_ancestor(m, cur, e);
    } else if m.mci(b) == m.mci(e) {
        lemma_path_reaches_ancestor(m, b, e);
        lemma_ancestor_through_parent(m, cur, b, e);
    } else {
        lemma_best_parent_way_reaches_ancestor(m, b, e);
        lemma_ancestor_through_parent(m, cur, b, e);
    }
}

/// A way is found only into the history of the later unit: where there is a
/// way between two different units, the earlier one is an ancestor of the
/// later one.
pub proof fn lemma_way_reaches_ancestor(m: LedgerView, later: int, earlier: int)
    requires
        m.well_formed(),
        0 <= later < m.len(),
        later != earlier,
        way_between(m, later, earlier) is Ok,
    ensures
        is_ancestor(m, earlier, later),
{
    if m.mci(later) == m.mci(earlier) {
        lemma_path_reaches_ancestor(m, later, earlier);
    } else {
        lemma_best_parent_way_reaches_ancestor(m, later, earlier);
    }
}

/// The way between the unit at position `l` and the unit at position `e`,
/// as positions.
fn find_way(ledger: &Ledger, l: usize, e: usize) -> (r: Result<Vec<usize>, Error>)
    requires
        l < ledger@.len(),
        e < ledger@.len(),
    ensures
        way_result_view(r) == way_between(ledger@, l as int, e as int),
        r matches Ok(v) ==> forall|k: int| 0 <= k < v.len() ==> v[k] < ledger@.len(),
{
    if l == e {
        let v: Vec<usize> = Vec::new();
        assert(steps(v@) =~= Seq::<int>::empty());
        Ok(v)
    } else if same_mci(
        ledger.joint(l).unit.main_chain_index,
        ledger.joint(e).unit.main_chain_index,
    ) {
        build_path_to_earlier_unit(ledger, l, e)
    } else {
        go_up(ledger, l, e)
    }
}

/// The joints of the units at `way`.
pub open spec fn joints_on(m: LedgerView, way: Seq<int>) -> Seq<JointView> {
    Seq::new(way.len(), |k: int| m.joints[way[k]])
}

/// The reading of what a search for a way returns.
pub open spec fn way_result_view(r: Result<Vec<usize>, Error>) -> Way {
    match r {
        Ok(v) => Ok(steps(v@)),
        Err(e) => Err(e@),
    }
}

/// The way among units of one main-chain index, as positions.
fn build_path_to_earlier_unit(ledger: &Ledger, cur: usize, e: usize) -> (r: Result<Vec<usize>, Error>)
    requires
        cur < ledger@.len(),
        e < ledger@.len(),
    ensures
        way_result_view(r) == same_mci_way(ledger@, cur as int, e as int),
        r matches Ok(v) ==> forall|k: int| 0 <= k < v.len() ==> v[k] < ledger@.len(),
{
    match find_path(ledger, cur, e) {
        Some(v) => Ok(v),
        None => {
            let look = survey(ledger, cur, e);
            if look.1 > 0 {
                Err(Error::NoQualifyingParent(ledger.joint(cur).unit.unit.clone()))
            } else {
                Err(Error::NoParentsWithSameMci(ledger.joint(cur).unit.unit.clone()))
            }
        },
    }
}

/// Whether the main-chain index `a` is below `b`.
fn below(a: Option<u32>, b: Option<u32>) -> (r: bool)
    ensures
        r == mci_below(a, b),
{
    match (a, b) {
        (None, Some(_)) => true,
        (Some(x), Some(y)) => x < y,
        _ => false,
    }
}

/// Whether two main-chain indices are the same.
fn same_mci(a: Option<u32>, b: Option<u32>) -> (r: bool)
    ensures
        r == (a == b),
{
    match (a, b) {
        (None, None) => true,
        (Some(x), Some(y)) => x == y,
        _ => false,
    }
}

/// The way along best parents, as positions.
fn go_up(ledger: &Ledger, later: usize, e: usize) -> (r: Result<Vec<usize>, Error>)
    requires
        later < ledger@.len(),
        e < ledger@.len(),
    ensures
        way_result_view(r) == best_parent_way(ledger@, later as int, e as int),
        r matches Ok(v) ==> forall|k: int| 0 <= k < v.len() ==> v[k] < ledger@.len(),
{
    let ghost n = ledger@.len();
    proof {
        use_type_invariant(ledger);
        ledger.lemma_inv();
    }
    let ghost m = ledger@;
    let ghost whole = best_parent_way(m, later as int, e as int);
    let target = ledger.joint(e).unit.main_chain_index;
    let mut cur = later;
    let mut way: Vec<usize> = Vec::new();
    proof {
        assert(steps(way@) =~= Seq::<int>::empty());
        match whole {
            Ok(w) => {
                assert(Seq::<int>::empty() + w =~= w);
            },
            Err(_) => {},
        }
    }
    loop
        invariant
            m == ledger@,
            m.well_formed(),
            n == m.len(),
            cur < n,
            e < n,
            target == m.mci(e as int),
            whole == best_parent_way(m, later as int, e as int),
            whole == then_way(steps(way@), best_parent_way(m, cur as int, e as int)),
            forall|k: int| 0 <= k < way.len() ==> way[k] < n,
        decreases cur,
    {
        let b = match &ledger.joint(cur).unit.best_parent_unit {
            None => {
                return Err(Error::NoBestParent(ledger.joint(cur).unit.unit.clone()));
            },
            Some(name) => {
                proof {
                    lemma_best_parent_stored(m, cur as int);
                }
                match ledger.find(name) {
                    None => {
                        return Err(Error::NoBestParent(ledger.joint(cur).unit.unit.clone()));
                    },
                    Some(b) => b,
                }
            },
        };
        assert(best_parent_index(m, cur as int) == Some(b as int));
        let hop = ledger.joint(b).unit.main_chain_index;
        let ghost before = steps(way@);
        if b == e {
            assert(before + Seq::<int>::empty() =~= before);
            return Ok(way);
        }
        if below(hop, target) {
            return match build_path_to_earlier_unit(ledger, cur, e) {
                Err(x) => Err(x),
                Ok(mut rest) => {
                    let ghost tail = steps(rest@);
                    way.append(&mut rest);
                    assert(steps(way@) =~= before + tail);
                    Ok(way)
                },
            };
        }
        way.push(b);
        assert(steps(way@) =~= before + seq![b as int]);
        if same_mci(hop, target) {
            return match build_path_to_earlier_unit(ledger, b, e) {
                Err(x) => Err(x),
                Ok(mut rest) => {
                    let ghost tail = steps(rest@);
                    let ghost held = steps(way@);
                    way.append(&mut rest);
                    proof {
                        assert(steps(way@) =~= held + tail);
                        assert((before + seq![b as int]) + tail =~= before + (seq![b as int]
                            + tail));
                    }
                    Ok(way)
                },
            };
        }
        proof {
            match best_parent_way(m, b as int, e as int) {
                Ok(w) => {
                    assert((before + seq![b as int]) + w =~= before + (seq![b as int] + w));
                },
                Err(_) => {},
            }
        }
        cur = b;
    }
}

/// The reading of what a builder of joints leaves behind: the joints it
/// added to `before`, or its failure.
pub open spec fn linked(
    before: Seq<Joint>,
    after: Seq<Joint>,
    r: Result<(), Error>,
    joints: Result<Seq<JointView>, ErrorView>,
) -> bool {
    match joints {
        Ok(j) => r is Ok && joint_views(after) == joint_views(before) + j,
        Err(e) => r matches Err(f) && f@ == e && joint_views(after) == joint_views(before),
    }
}

/// The joints to pass between the unit with the hash `later` and the unit
/// with the hash `earlier`, both of which must be stored.
pub open spec fn path_between(m: LedgerView, later: Seq<char>, earlier: Seq<char>) -> Result<
    Seq<JointView>,
    ErrorView,
> {
    match m.find(later) {
        None => Err(ErrorView::UnitNotFound(later)),
        Some(l) => match m.find(earlier) {
            None => Err(ErrorView::UnitNotFound(earlier)),
            Some(e) => match way_between(m, l, e) {
                Err(x) => Err(x),
                Ok(way) => Ok(joints_on(m, way)),
            },
        },
    }
}

/// Appends to `chains` the joints of the units at `way`.
fn add_joints(ledger: &Ledger, way: &Vec<usize>, chains: &mut Vec<Joint>)
    requires
        forall|k: int| 0 <= k < way.len() ==> way[k] < ledger@.len(),
    ensures
        joint_views(final(chains)@) == joint_views(old(chains)@) + joints_on(ledger@, steps(way@)),
{
    let ghost held = joint_views(chains@);
    let mut k: usize = 0;
    while k < way.len()
        invariant
            k <= way.len(),
            forall|j: int| 0 <= j < way.len() ==> way[j] < ledger@.len(),
            joint_views(chains@) == held + joints_on(ledger@, steps(way@).subrange(0, k as int)),
        decreases way.len() - k,
    {
        let ghost before = joint_views(chains@);
        let joint = ledger.joint(way[k]).clone();
        chains.push(joint);
        proof {
            let done = steps(way@).subrange(0, k as int);
            let next = steps(way@).subrange(0, k + 1);
            assert(joint_views(chains@) =~= before + seq![joint@]);
            assert(joints_on(ledger@, next) =~= joints_on(ledger@, done) + seq![joint@]);
            assert(held + joints_on(ledger@, next) =~= (held + joints_on(ledger@, done)) + seq![
                joint@,
            ]);
        }
        k = k + 1;
    }
    proof {
        assert(steps(way@).subrange(0, k as int) =~= steps(way@));
        assert(joints_on(ledger@, Seq::<int>::empty()) =~= Seq::<JointView>::empty());
    }
}

/// Appends to `chains` the joints that lead from the unit `later_unit` to
/// the unit `earlier_unit`, neither of them included. For one and the same
/// unit that is nothing. For two units of one main-chain index it is the
/// way from parent to parent among the units of that index, found with a
/// stack of branch points and, where a unit has several such parents, with
/// the question which of them has the earlier unit in its history. Else it
/// is the way along best parents down to the main-chain index of the
/// earlier unit, and on from there. Where there is no way it fails and
/// adds nothing.
pub fn build_path(
    ledger: &Ledger,
    later_unit: &String,
    earlier_unit: &String,
    chains: &mut Vec<Joint>,
) -> (r: Result<(), Error>)
    ensures
        linked(old(chains)@, final(chains)@, r, path_between(ledger@, later_unit@, earlier_unit@)),
{
    let l = match ledger.find(later_unit) {
        None => {
            return Err(Error::UnitNotFound(later_unit.clone()));
        },
        Some(l) => l,
    };
    let e = match ledger.find(earlier_unit) {
        None => {
            return Err(Error::UnitNotFound(earlier_unit.clone()));
        },
        Some(e) => e,
    };
    let way = match find_way(ledger, l, e) {
        Err(x) => {
            return Err(x);
        },
        Ok(v) => v,
    };
    add_joints(ledger, &way, chains);
    Ok(())
}

/// Joints, or the failure that kept them from being gathered.
pub type Joints = Result<Seq<JointView>, ErrorView>;

/// `first` followed by the joints `rest`, where there are any.
pub open spec fn then_joints(first: Seq<JointView>, rest: Joints) -> Joints {
    match rest {
        Ok(r) => Ok(first + r),
        Err(e) => Err(e),
    }
}

/// The link proof for the unit with the hash `later` and the unit with the
/// hash `earlier`: the joint of the later unit, and behind it the joints
/// between the two where the last ball that the later unit names lies below
/// the earlier unit on the main chain. It fails where a unit, the later
/// unit's last-ball unit or a main-chain index is missing, and where the
/// earlier unit is not in the history of the later one.
pub open spec fn link_proof(m: LedgerView, later: Seq<char>, earlier: Seq<char>) -> Joints {
    match m.find(later) {
        None => Err(ErrorView::UnitNotFound(later)),
        Some(l) => match m.joints[l].unit.last_ball_unit {
            None => Err(ErrorView::NoLastBallUnit(later)),
            Some(last_ball_unit) => match m.find(last_ball_unit) {
                None => Err(ErrorView::UnitNotFound(last_ball_unit)),
                Some(lb) => match m.mci(lb) {
                    None => Err(ErrorView::NoMainChainIndex(last_ball_unit)),
                    Some(last_ball_mci) => match m.find(earlier) {
                        None => Err(ErrorView::UnitNotFound(earlier)),
                        Some(e) => match m.mci(e) {
                            None => Err(ErrorView::NoMainChainIndex(earlier)),
                            Some(earlier_mci) => if mci_below(m.mci(l), Some(earlier_mci)) {
                                Err(ErrorView::NotIncluded)
                            } else if last_ball_mci >= earlier_mci {
                                Ok(seq![m.joints[l]])
                            } else if !is_ancestor(m, e, l) {
                                Err(ErrorView::NotIncluded)
                            } else {
                                match way_between(m, l, e) {
                                    Err(x) => Err(x),
                                    Ok(way) => Ok(seq![m.joints[l]] + joints_on(m, way)),
                                }
                            },
                        },
                    },
                },
            },
        },
    }
}

/// The link proofs of each unit of `units` from the `k`-th on with the one
/// that follows it, one after the other.
pub open spec fn link_proofs_from(m: LedgerView, units: Seq<Seq<char>>, k: int) -> Joints
    decreases units.len() - k,
{
    if k < 0 || k + 1 >= units.len() {
        Ok(Seq::empty())
    } else {
        match link_proof(m, units[k], units[k + 1]) {
            Err(e) => Err(e),
            Ok(joints) => then_joints(joints, link_proofs_from(m, units, k + 1)),
        }
    }
}

/// The link proofs for a chain of units, each of which is to lie in the
/// history of the one before it. A chain has at least two units.
pub open spec fn link_proofs(m: LedgerView, units: Seq<Seq<char>>) -> Joints {
    if units.len() == 0 {
        Err(ErrorView::NoUnits)
    } else if units.len() == 1 {
        Err(ErrorView::ChainOfOneElement)
    } else {
        link_proofs_from(m, units, 0)
    }
}

/// Appends to `chains` the link proof for `later_unit` and `earlier_unit`.
/// Where it fails it adds nothing.
pub fn create_link_proof(
    ledger: &Ledger,
    later_unit: &String,
    earlier_unit: &String,
    chains: &mut Vec<Joint>,
) -> (r: Result<(), Error>)
    ensures
        linked(old(chains)@, final(chains)@, r, link_proof(ledger@, later_unit@, earlier_unit@)),
{
    let ghost m = ledger@;
    proof {
        use_type_invariant(ledger);
        ledger.lemma_inv();
    }
    let l = match ledger.find(later_unit) {
        None => {
            return Err(Error::UnitNotFound(later_unit.clone()));
        },
        Some(l) => l,
    };
    let later_joint = ledger.joint(l);
    let last_ball_unit = match &later_joint.unit.last_ball_unit {
        None => {
            return Err(Error::NoLastBallUnit(later_unit.clone()));
        },
        Some(u) => u,
    };
    let lb = match ledger.find(last_ball_unit) {
        None => {
            return Err(Error::UnitNotFound(last_ball_unit.clone()));
        },
        Some(lb) => lb,
    };
    let last_ball_mci = match ledger.joint(lb).unit.main_chain_index {
        None => {
            return Err(Error::NoMainChainIndex(last_ball_unit.clone()));
        },
        Some(v) => v,
    };
    let e = match ledger.find(earlier_unit) {
        None => {
            return Err(Error::UnitNotFound(earlier_unit.clone()));
        },
        Some(e) => e,
    };
    let earlier_mci = match ledger.joint(e).unit.main_chain_index {
        None => {
            return Err(Error::NoMainChainIndex(earlier_unit.clone()));
        },
        Some(v) => v,
    };
    if below(later_joint.unit.main_chain_index, Some(earlier_mci)) {
        return Err(Error::NotIncluded);
    }
    let ghost held = joint_views(chains@);
    if last_ball_mci >= earlier_mci {
        let copy = later_joint.clone();
        chains.push(copy);
        assert(joint_views(chains@) =~= held + seq![m.joints[l as int]]);
        return Ok(());
    }
    let mut seeds: Vec<usize> = Vec::new();
    seeds.push(l);
    let included = is_ancestor_of_index(ledger, e, &seeds);
    proof {
        let idx = seeds@.map_values(|s: usize| s as int);
        assert(idx[0] == l as int);
        if is_ancestor(m, e as int, l as int) {
            assert(is_ancestor(m, e as int, idx[0]));
        }
    }
    if !included {
        return Err(Error::NotIncluded);
    }
    let way = match find_way(ledger, l, e) {
        Err(x) => {
            return Err(x);
        },
        Ok(v) => v,
    };
    let copy = later_joint.clone();
    chains.push(copy);
    let ghost mid = joint_views(chains@);
    add_joints(ledger, &way, chains);
    proof {
        assert(mid =~= held + seq![m.joints[l as int]]);
        assert(joint_views(chains@) =~= held + (seq![m.joints[l as int]] + joints_on(
            m,
            steps(way@),
        )));
    }
    Ok(())
}

/// The reading of what gathering joints returns.
pub open spec fn joints_result_view(r: Result<Vec<Joint>, Error>) -> Joints {
    match r {
        Ok(v) => Ok(joint_views(v@)),
        Err(e) => Err(e@),
    }
}

/// The link proofs for a chain of units: for each unit and the one that
/// follows it, the later unit's joint and what leads from it to the earlier
/// one. A chain of no unit or of one unit is refused, and so is the whole
/// chain where one of its links fails.
pub fn prepare_link_proofs(ledger: &Ledger, units: &Vec<String>) -> (r: Result<Vec<Joint>, Error>)
    ensures
        joints_result_view(r) == link_proofs(ledger@, texts(units@)),
{
    if units.len() == 0 {
        return Err(Error::NoUnits);
    }
    if units.len() == 1 {
        return Err(Error::ChainOfOneElement);
    }
    let ghost m = ledger@;
    let ghost names = texts(units@);
    let ghost whole = link_proofs_from(m, names, 0);
    let mut chains: Vec<Joint> = Vec::new();
    let mut k: usize = 0;
    proof {
        assert(joint_views(chains@) =~= Seq::<JointView>::empty());
        match whole {
            Ok(j) => {
                assert(Seq::<JointView>::empty() + j =~= j);
            },
            Err(_) => {},
        }
    }
    while k + 1 < units.len()
        invariant
            k < units.len(),
            units.len() >= 2,
            m == ledger@,
            names == texts(units@),
            whole == link_proofs(m, names),
            whole == then_joints(joint_views(chains@), link_proofs_from(m, names, k as int)),
        decreases units.len() - k,
    {
        let ghost held = joint_views(chains@);
        assert(names[k as int] == units[k as int]@);
        assert(names[k + 1] == units[k + 1]@);
        match create_link_proof(ledger, &units[k], &units[k + 1], &mut chains) {
            Err(e) => {
                return Err(e);
            },
            Ok(()) => {},
        }
        proof {
            match (
                link_proof(m, names[k as int], names[k + 1]),
                link_proofs_from(m, names, k + 1),
            ) {
                (Ok(j), Ok(rest)) => {
                    assert((held + j) + rest =~= held + (j + rest));
                },
                _ => {},
            }
        }
        k = k + 1;
    }
    proof {
        assert(joint_views(chains@) + Seq::<JointView>::empty() =~= joint_views(chains@));
    }
    Ok(chains)
}

} // verus!
