//! Ancestry in the DAG: whether one unit lies in the history of another.

use crate::ledger::{lemma_index_of, lemma_parent_is_earlier, lemma_parent_stored, Ledger, LedgerView};
use crate::text::texts;
use vstd::prelude::*;

verus! {

/// `path` leads from a unit to a parent of it, from there to a parent of
/// that one, and so on.
pub open spec fn is_descent(m: LedgerView, path: Seq<int>) -> bool {
    &&& path.len() >= 1
    &&& forall|k: int| 0 <= k < path.len() - 1 ==> m.is_parent(#[trigger] path[k], path[k + 1])
}

/// The unit at `ancestor` can be reached from the unit at `unit` by going
/// from child to parent at least once.
pub open spec fn is_ancestor(m: LedgerView, ancestor: int, unit: int) -> bool {
    exists|path: Seq<int>|
        path.len() >= 2 && #[trigger] is_descent(m, path) && path[0] == unit && path.last()
            == ancestor
}

/// The unit at `ancestor` is an ancestor of one of the units at `units`.
pub open spec fn is_ancestor_of_some(m: LedgerView, ancestor: int, units: Seq<int>) -> bool {
    exists|k: int| 0 <= k < units.len() && is_ancestor(m, ancestor, #[trigger] units[k])
}

/// The unit with the hash `candidate` is stored and is an ancestor of a
/// stored unit whose hash is among `targets`.
pub open spec fn is_ancestor_of_any(m: LedgerView, candidate: Seq<char>, targets: Seq<Seq<char>>) -> bool {
    &&& m.holds(candidate)
    &&& exists|k: int|
        0 <= k < targets.len() && m.holds(#[trigger] targets[k]) && is_ancestor(
            m,
            m.index_of(candidate),
            m.index_of(targets[k]),
        )
}

/// A parent is an ancestor.
pub proof fn lemma_parent_is_ancestor(m: LedgerView, child: int, parent: int)
    requires
        m.is_parent(child, parent),
    ensures
        is_ancestor(m, parent, child),
{
    let path = seq![child, parent];
    assert(is_descent(m, path));
    assert(path.last() == parent);
}

/// A parent of an ancestor is an ancestor.
pub proof fn lemma_ancestor_of_ancestor(m: LedgerView, unit: int, ancestor: int, parent: int)
    requires
        is_ancestor(m, ancestor, unit),
        m.is_parent(ancestor, parent),
    ensures
        is_ancestor(m, parent, unit),
{
    let path = choose|path: Seq<int>|
        path.len() >= 2 && #[trigger] is_descent(m, path) && path[0] == unit && path.last()
            == ancestor;
    let longer = path.push(parent);
    assert forall|k: int| 0 <= k < longer.len() - 1 implies m.is_parent(
        #[trigger] longer[k],
        longer[k + 1],
    ) by {
        if k < path.len() - 1 {
            assert(m.is_parent(path[k], path[k + 1]));
        }
    }
    assert(is_descent(m, longer));
    assert(longer[0] == unit && longer.last() == parent);
}

/// An ancestor of a parent is an ancestor.
pub proof fn lemma_ancestor_through_parent(m: LedgerView, child: int, parent: int, ancestor: int)
    requires
        m.is_parent(child, parent),
        is_ancestor(m, ancestor, parent),
    ensures
        is_ancestor(m, ancestor, child),
{
    let path = choose|path: Seq<int>|
        path.len() >= 2 && #[trigger] is_descent(m, path) && path[0] == parent && path.last()
            == ancestor;
    let longer = seq![child] + path;
    assert forall|k: int| 0 <= k < longer.len() - 1 implies m.is_parent(
        #[trigger] longer[k],
        longer[k + 1],
    ) by {
        if k > 0 {
            assert(m.is_parent(path[k - 1], path[k - 1 + 1]));
        }
    }
    assert(is_descent(m, longer));
    assert(longer[0] == child && longer.last() == ancestor);
}

/// Along a descent in a well-formed ledger the levels fall, and each unit is
/// stored before the one it was reached from.
pub proof fn lemma_descent_falls(m: LedgerView, path: Seq<int>, a: int, b: int)
    requires
        m.well_formed(),
        is_descent(m, path),
        0 <= a < b < path.len(),
    ensures
        m.level(path[b]) < m.level(path[a]),
        path[b] < path[a],
    decreases b - a,
{
    assert(m.is_parent(path[b - 1], path[b]));
    lemma_parent_is_earlier(m, path[b - 1], path[b]);
    if a < b - 1 {
        lemma_descent_falls(m, path, a, b - 1);
    }
}

/// In a well-formed ledger an ancestor is stored before its descendants, on
/// a lower level; so no unit is its own ancestor.
pub proof fn lemma_ancestor_is_earlier(m: LedgerView, ancestor: int, unit: int)
    requires
        m.well_formed(),
        is_ancestor(m, ancestor, unit),
    ensures
        ancestor < unit,
        m.level(ancestor) < m.level(unit),
{
    let path = choose|path: Seq<int>|
        path.len() >= 2 && #[trigger] is_descent(m, path) && path[0] == unit && path.last()
            == ancestor;
    lemma_descent_falls(m, path, 0, path.len() - 1);
}

/// How many entries are set.
spec fn count_true(s: Seq<bool>) -> int
    decreases s.len(),
{
    if s.len() == 0 {
        0
    } else {
        count_true(s.drop_last()) + if s.last() {
            1int
        } else {
            0int
        }
    }
}

proof fn lemma_count_true_bound(s: Seq<bool>)
    ensures
        0 <= count_true(s) <= s.len(),
    decreases s.len(),
{
    if s.len() > 0 {
        lemma_count_true_bound(s.drop_last());
    }
}

proof fn lemma_count_true_set(s: Seq<bool>, i: int)
    requires
        0 <= i < s.len(),
        !s[i],
    ensures
        count_true(s.update(i, true)) == count_true(s) + 1,
    decreases s.len(),
{
    let t = s.update(i, true);
    if i == s.len() - 1 {
        assert(t.drop_last() =~= s.drop_last());
    } else {
        assert(t.drop_last() =~= s.drop_last().update(i, true));
        lemma_count_true_set(s.drop_last(), i);
    }
}

/// The unit at `v` is a seed or has a seed among its descendants.
spec fn from_seeds(m: LedgerView, seeds: Seq<int>, v: int) -> bool {
    exists|k: int| 0 <= k < seeds.len() && (#[trigger] seeds[k] == v || is_ancestor(m, v, seeds[k]))
}

/// The unit at `p` has been looked at: it is not the unit at `c`, and it is
/// marked unless its level rules it out.
spec fn seen(m: LedgerView, marked: Seq<bool>, c: int, p: int) -> bool {
    p != c && (m.level(p) <= m.level(c) || marked[p])
}

/// All parents of the unit at `v` have been looked at.
spec fn expanded(m: LedgerView, marked: Seq<bool>, c: int, v: int) -> bool {
    forall|p: int| #[trigger] m.is_parent(v, p) ==> seen(m, marked, c, p)
}

proof fn lemma_closed_marks_hold_no_descendant(
    m: LedgerView,
    marked: Seq<bool>,
    c: int,
    path: Seq<int>,
    j: int,
)
    requires
        m.well_formed(),
        marked.len() == m.len(),
        forall|v: int| 0 <= v < m.len() && marked[v] ==> expanded(m, marked, c, v),
        is_descent(m, path),
        path.len() >= 2,
        path.last() == c,
        0 <= path[0] < m.len(),
        marked[path[0]],
        0 <= j <= path.len() - 2,
    ensures
        0 <= path[j] < m.len(),
        marked[path[j]],
    decreases j,
{
    if j > 0 {
        lemma_closed_marks_hold_no_descendant(m, marked, c, path, j - 1);
        assert(expanded(m, marked, c, path[j - 1]));
        assert(m.is_parent(path[j - 1], path[j]));
        lemma_descent_falls(m, path, j, path.len() - 1);
    }
}

/// Whether the unit at position `c` is an ancestor of one of the units at
/// the positions `seeds`. The search goes from the seeds towards their
/// parents with a work list, marks what it has seen, and leaves out every
/// unit whose level shows that the unit at `c` cannot lie behind it.
pub fn is_ancestor_of_index(ledger: &Ledger, c: usize, seeds: &Vec<usize>) -> (r: bool)
    requires
        c < ledger@.len(),
        forall|k: int| 0 <= k < seeds.len() ==> seeds[k] < ledger@.len(),
    ensures
        r == is_ancestor_of_some(ledger@, c as int, seeds@.map_values(|s: usize| s as int)),
{
    let n = ledger.len();
    proof {
        use_type_invariant(ledger);
        ledger.lemma_inv();
    }
    let ghost m = ledger@;
    let ghost targets = seeds@.map_values(|s: usize| s as int);
    let level_c = ledger.joint(c).unit.level;
    let mut marked: Vec<bool> = Vec::new();
    let mut i: usize = 0;
    while i < n
        invariant
            i <= n,
            marked.len() == i,
            forall|j: int| 0 <= j < i ==> !marked[j],
        decreases n - i,
    {
        marked.push(false);
        i = i + 1;
    }
    let mut work: Vec<usize> = Vec::new();
    let mut k: usize = 0;
    while k < seeds.len()
        invariant
            k <= seeds.len(),
            n == m.len(),
            marked.len() == n,
            targets == seeds@.map_values(|s: usize| s as int),
            forall|j: int| 0 <= j < seeds.len() ==> seeds[j] < n,
            forall|j: int| 0 <= j < work.len() ==> work[j] < n && marked[work[j] as int],
            forall|v: int| 0 <= v < n && marked[v] ==> from_seeds(m, targets, v),
            forall|j: int| 0 <= j < k ==> marked[seeds[j] as int],
            forall|v: int| 0 <= v < n && marked[v] ==> work@.contains(v as usize),
        decreases seeds.len() - k,
    {
        let s = seeds[k];
        if !marked[s] {
            marked.set(s, true);
            let ghost before = work@;
            work.push(s);
            proof {
                assert(targets[k as int] == s as int);
                assert forall|v: int| 0 <= v < n && marked[v] implies work@.contains(
                    v as usize,
                ) by {
                    if v == s {
                        assert(work@[work.len() - 1] == s);
                    } else {
                        let j = choose|j: int| 0 <= j < before.len() && before[j] == v as usize;
                        assert(work@[j] == v as usize);
                    }
                }
            }
        }
        k = k + 1;
    }
    proof {
        lemma_count_true_bound(marked@);
    }
    while work.len() > 0
        invariant
            n == m.len(),
            m == ledger@,
            m.well_formed(),
            c < n,
            level_c == m.level(c as int),
            marked.len() == n,
            targets == seeds@.map_values(|s: usize| s as int),
            forall|j: int| 0 <= j < seeds.len() ==> seeds[j] < n,
            forall|j: int| 0 <= j < work.len() ==> work[j] < n && marked[work[j] as int],
            forall|v: int| 0 <= v < n && marked[v] ==> from_seeds(m, targets, v),
            forall|j: int| 0 <= j < seeds.len() ==> marked[seeds[j] as int],
            forall|v: int|
                0 <= v < n && marked[v] && !work@.contains(v as usize) ==> expanded(
                    m,
                    marked@,
                    c as int,
                    v,
                ),
            0 <= count_true(marked@) <= n,
        decreases n - count_true(marked@) + work.len(),
    {
        let ghost work_before = work@;
        let ghost measure = n - count_true(marked@) + work.len();
        let u = work.pop().unwrap();
        assert(work_before =~= work@.push(u));
        proof {
            assert forall|v: int|
                0 <= v < n && marked[v] && !work@.contains(v as usize) && v != u implies expanded(
                m,
                marked@,
                c as int,
                v,
            ) by {
                if work_before.contains(v as usize) {
                    let j = choose|j: int| 0 <= j < work_before.len() && work_before[j] == v as usize;
                    assert(work@[j] == v as usize);
                }
            }
        }
        let parents = &ledger.joint(u).unit.parent_units;
        let mut k: usize = 0;
        while k < parents.len()
            invariant
                k <= parents.len(),
                n == m.len(),
                m == ledger@,
                m.well_formed(),
                c < n,
                u < n,
                level_c == m.level(c as int),
                marked.len() == n,
                marked[u as int],
                texts(parents@) == m.parent_ids(u as int),
                targets == seeds@.map_values(|s: usize| s as int),
                forall|j: int| 0 <= j < seeds.len() ==> seeds[j] < n,
                forall|j: int| 0 <= j < work.len() ==> work[j] < n && marked[work[j] as int],
                forall|v: int| 0 <= v < n && marked[v] ==> from_seeds(m, targets, v),
                forall|j: int| 0 <= j < seeds.len() ==> marked[seeds[j] as int],
                forall|v: int|
                    0 <= v < n && marked[v] && !work@.contains(v as usize) && v != u ==> expanded(
                        m,
                        marked@,
                        c as int,
                        v,
                    ),
                forall|j: int|
                    0 <= j < k ==> seen(
                        m,
                        marked@,
                        c as int,
                        m.index_of(#[trigger] m.parent_ids(u as int)[j]),
                    ),
                0 <= count_true(marked@) <= n,
                n - count_true(marked@) + work.len() < measure,
            decreases parents.len() - k,
        {
            proof {
                lemma_parent_stored(m, u as int, k as int);
                assert(parents[k as int]@ == m.parent_ids(u as int)[k as int]);
            }
            match ledger.find(&parents[k]) {
                Some(p) => {
                    if p == c {
                        proof {
                            let s = choose|s: int|
                                0 <= s < targets.len() && (#[trigger] targets[s] == u as int
                                    || is_ancestor(m, u as int, targets[s]));
                            if targets[s] == u as int {
                                lemma_parent_is_ancestor(m, u as int, c as int);
                            } else {
                                lemma_ancestor_of_ancestor(m, targets[s], u as int, c as int);
                            }
                            assert(is_ancestor(m, c as int, targets[s]));
                        }
                        return true;
                    }
                    let ghost marked_entry = marked@;
                    assert(m.index_of(m.parent_ids(u as int)[k as int]) == p);
                    if ledger.joint(p).unit.level > level_c && !marked[p] {
                        let ghost marked_before = marked@;
                        let ghost work_inner = work@;
                        marked.set(p, true);
                        work.push(p);
                        proof {
                            lemma_count_true_set(marked_before, p as int);
                            lemma_count_true_bound(marked@);
                            assert forall|v: int| 0 <= v < n && marked[v] implies from_seeds(
                                m,
                                targets,
                                v,
                            ) by {
                                if v == p {
                                    let s = choose|s: int|
                                        0 <= s < targets.len() && (#[trigger] targets[s] == u as int
                                            || is_ancestor(m, u as int, targets[s]));
                                    if targets[s] == u as int {
                                        lemma_parent_is_ancestor(m, u as int, p as int);
                                    } else {
                                        lemma_ancestor_of_ancestor(
                                            m,
                                            targets[s],
                                            u as int,
                                            p as int,
                                        );
                                    }
                                    assert(is_ancestor(m, p as int, targets[s]));
                                }
                            }
                            assert forall|v: int|
                                0 <= v < n && marked[v] && !work@.contains(v as usize) && v
                                    != u implies expanded(m, marked@, c as int, v) by {
                                if v == p {
                                    assert(work@[work.len() - 1] == p);
                                } else {
                                    if work_inner.contains(v as usize) {
                                        let j = choose|j: int|
                                            0 <= j < work_inner.len() && work_inner[j]
                                                == v as usize;
                                        assert(work@[j] == v as usize);
                                    }
                                    assert(expanded(m, marked_before, c as int, v));
                                }
                            }
                        }
                    }
                    proof {
                        assert(seen(m, marked@, c as int, p as int));
                        assert forall|j: int| 0 <= j < k implies seen(
                            m,
                            marked@,
                            c as int,
                            m.index_of(#[trigger] m.parent_ids(u as int)[j]),
                        ) by {
                            lemma_parent_stored(m, u as int, j);
                            let q = m.index_of(m.parent_ids(u as int)[j]);
                            assert(seen(m, marked_entry, c as int, q));
                            assert(marked_entry[q] ==> marked@[q]);
                        }
                    }
                },
                None => {},
            }
            k = k + 1;
        }
        proof {
            assert forall|p: int| #[trigger] m.is_parent(u as int, p) implies seen(
                m,
                marked@,
                c as int,
                p,
            ) by {
                let j = choose|j: int|
                    0 <= j < m.parent_ids(u as int).len() && m.parent_ids(u as int)[j] == m.id(p);
                lemma_index_of(m, p);
                assert(m.index_of(m.parent_ids(u as int)[j]) == p);
            }
            assert(expanded(m, marked@, c as int, u as int));
        }
    }
    proof {
        assert forall|v: int| 0 <= v < n && marked[v] implies expanded(m, marked@, c as int, v) by {
            assert(!work@.contains(v as usize));
        }
        if is_ancestor_of_some(m, c as int, targets) {
            let s = choose|s: int|
                0 <= s < targets.len() && is_ancestor(m, c as int, #[trigger] targets[s]);
            let path = choose|path: Seq<int>|
                path.len() >= 2 && #[trigger] is_descent(m, path) && path[0] == targets[s]
                    && path.last() == c as int;
            assert(targets[s] == seeds[s] as int);
            lemma_closed_marks_hold_no_descendant(m, marked@, c as int, path, path.len() - 2);
            let last = path[path.len() - 2];
            assert(expanded(m, marked@, c as int, last));
            assert(m.is_parent(last, path[path.len() - 2 + 1]));
            assert(false);
        }
    }
    false
}

/// Whether the unit with the hash `candidate` is an ancestor of one of the
/// units whose hashes are `targets`: whether it can be reached from one of
/// them by going from child to parent, at least once. Hashes that are not
/// stored are related to nothing.
pub fn is_ancestor_of(ledger: &Ledger, candidate: &String, targets: &Vec<String>) -> (r: bool)
    ensures
        r == is_ancestor_of_any(ledger@, candidate@, texts(targets@)),
{
    proof {
        use_type_invariant(ledger);
        ledger.lemma_inv();
    }
    let c = match ledger.find(candidate) {
        None => {
            return false;
        },
        Some(c) => c,
    };
    let mut seeds: Vec<usize> = Vec::new();
    let ghost mut origin: Seq<int> = Seq::empty();
    let mut k: usize = 0;
    while k < targets.len()
        invariant
            k <= targets.len(),
            ledger@.well_formed(),
            seeds.len() == origin.len(),
            forall|j: int| 0 <= j < seeds.len() ==> seeds[j] < ledger@.len(),
            forall|j: int|
                0 <= j < seeds.len() ==> 0 <= #[trigger] origin[j] < k && ledger@.find(
                    targets[origin[j]]@,
                ) == Some(seeds[j] as int),
            forall|t: int|
                0 <= t < k && ledger@.holds(#[trigger] targets[t]@) ==> exists|j: int|
                    0 <= j < seeds.len() && #[trigger] seeds[j] as int == ledger@.index_of(
                        targets[t]@,
                    ),
        decreases targets.len() - k,
    {
        match ledger.find(&targets[k]) {
            Some(t) => {
                let ghost before = seeds@;
                seeds.push(t);
                proof {
                    origin = origin.push(k as int);
                    assert forall|t2: int|
                        0 <= t2 < k + 1 && ledger@.holds(
                            #[trigger] targets[t2]@,
                        ) implies exists|j: int|
                        0 <= j < seeds.len() && #[trigger] seeds[j] as int == ledger@.index_of(
                            targets[t2]@,
                        ) by {
                        if t2 < k {
                            let j = choose|j: int|
                                0 <= j < before.len() && #[trigger] before[j] as int
                                    == ledger@.index_of(targets[t2]@);
                            assert(seeds[j] == before[j]);
                        } else {
                            assert(seeds[seeds.len() - 1] == t);
                        }
                    }
                }
            },
            None => {},
        }
        k = k + 1;
    }
    let r = is_ancestor_of_index(ledger, c, &seeds);
    proof {
        let m = ledger@;
        let idx = seeds@.map_values(|s: usize| s as int);
        let names = texts(targets@);
        if r {
            let j = choose|j: int| 0 <= j < idx.len() && is_ancestor(m, c as int, #[trigger] idx[j]);
            let t = origin[j];
            assert(names[t] == targets[t]@);
            assert(m.holds(names[t]) && is_ancestor(m, m.index_of(candidate@), m.index_of(names[t])));
        }
        if is_ancestor_of_any(m, candidate@, names) {
            let t = choose|t: int|
                0 <= t < names.len() && m.holds(#[trigger] names[t]) && is_ancestor(
                    m,
                    m.index_of(candidate@),
                    m.index_of(names[t]),
                );
            assert(names[t] == targets[t]@);
            let j = choose|j: int|
                0 <= j < seeds.len() && #[trigger] seeds[j] as int == m.index_of(targets[t]@);
            assert(idx[j] == seeds[j] as int);
            assert(is_ancestor(m, c as int, idx[j]));
        }
    }
    r
}

} // verus!
