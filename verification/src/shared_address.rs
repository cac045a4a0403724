//! A wallet's addresses, together with every address that signs with one of
//! them for a shared address, directly or through further addresses.

use crate::ledger::{Ledger, LedgerView};
use crate::text::{clone_strings, contains_string, texts};
use vstd::prelude::*;

verus! {

/// Each address of `path` signs with the next one.
pub open spec fn is_cosign_chain(m: LedgerView, path: Seq<Seq<char>>) -> bool {
    &&& path.len() >= 1
    &&& forall|k: int| 0 <= k < path.len() - 1 ==> m.cosign(#[trigger] path[k], path[k + 1])
}

/// A chain of co-signers leads from `a` to `b`; every address is connected
/// to itself.
pub open spec fn connected(m: LedgerView, a: Seq<char>, b: Seq<char>) -> bool {
    exists|path: Seq<Seq<char>>| #[trigger]
        is_cosign_chain(m, path) && path[0] == a && path.last() == b
}

/// `x` is connected to one of the addresses `start`.
pub open spec fn in_closure(m: LedgerView, start: Seq<Seq<char>>, x: Seq<char>) -> bool {
    exists|k: int| 0 <= k < start.len() && connected(m, #[trigger] start[k], x)
}

/// `out` is what expanding `start` gives: `start` itself, followed by the
/// other addresses connected to it, each once.
pub open spec fn is_expansion(m: LedgerView, start: Seq<Seq<char>>, out: Seq<Seq<char>>) -> bool {
    &&& start.len() <= out.len()
    &&& out.subrange(0, start.len() as int) == start
    &&& forall|x: Seq<char>| out.contains(x) <==> in_closure(m, start, x)
    &&& forall|i: int, j: int| start.len() <= i < out.len() && 0 <= j < i ==> out[j] != out[i]
}

/// `list` holds, with an address, all that sign with it.
pub open spec fn is_closed(m: LedgerView, list: Seq<Seq<char>>) -> bool {
    forall|a: Seq<char>, b: Seq<char>| #[trigger] m.cosign(a, b) && list.contains(a) ==> list.contains(b)
}

/// How many ends of the first `n` pairs are not in `list`.
spec fn ends_outside(pairs: Seq<(Seq<char>, Seq<char>)>, list: Seq<Seq<char>>, n: int) -> int
    decreases n,
{
    if n <= 0 {
        0
    } else {
        ends_outside(pairs, list, n - 1) + if list.contains(pairs[n - 1].0) {
            0int
        } else {
            1int
        } + if list.contains(pairs[n - 1].1) {
            0int
        } else {
            1int
        }
    }
}

proof fn lemma_ends_outside_shrinks(
    pairs: Seq<(Seq<char>, Seq<char>)>,
    small: Seq<Seq<char>>,
    large: Seq<Seq<char>>,
    n: int,
)
    requires
        forall|x: Seq<char>| small.contains(x) ==> large.contains(x),
    ensures
        0 <= ends_outside(pairs, large, n) <= ends_outside(pairs, small, n),
    decreases n,
{
    if n > 0 {
        lemma_ends_outside_shrinks(pairs, small, large, n - 1);
    }
}

proof fn lemma_ends_outside_shrinks_strictly(
    pairs: Seq<(Seq<char>, Seq<char>)>,
    small: Seq<Seq<char>>,
    large: Seq<Seq<char>>,
    n: int,
    i: int,
    end: Seq<char>,
)
    requires
        forall|x: Seq<char>| small.contains(x) ==> large.contains(x),
        0 <= i < n,
        pairs[i].0 == end || pairs[i].1 == end,
        !small.contains(end),
        large.contains(end),
    ensures
        ends_outside(pairs, large, n) < ends_outside(pairs, small, n),
    decreases n,
{
    if i == n - 1 {
        lemma_ends_outside_shrinks(pairs, small, large, n - 1);
    } else {
        lemma_ends_outside_shrinks_strictly(pairs, small, large, n - 1, i, end);
    }
}

/// An address is connected to itself.
pub proof fn lemma_connected_reflexive(m: LedgerView, a: Seq<char>)
    ensures
        connected(m, a, a),
{
    let path = seq![a];
    assert(is_cosign_chain(m, path));
    assert(path[0] == a && path.last() == a);
}

/// What signs with a connected address is connected.
pub proof fn lemma_connected_step(m: LedgerView, a: Seq<char>, b: Seq<char>, c: Seq<char>)
    requires
        connected(m, a, b),
        m.cosign(b, c),
    ensures
        connected(m, a, c),
{
    let path = choose|path: Seq<Seq<char>>| #[trigger]
        is_cosign_chain(m, path) && path[0] == a && path.last() == b;
    let longer = path.push(c);
    assert forall|k: int| 0 <= k < longer.len() - 1 implies m.cosign(
        #[trigger] longer[k],
        longer[k + 1],
    ) by {
        if k < path.len() - 1 {
            assert(m.cosign(path[k], path[k + 1]));
        }
    }
    assert(is_cosign_chain(m, longer));
    assert(longer[0] == a && longer.last() == c);
}

proof fn lemma_closed_holds_chain(m: LedgerView, list: Seq<Seq<char>>, path: Seq<Seq<char>>, j: int)
    requires
        is_closed(m, list),
        is_cosign_chain(m, path),
        list.contains(path[0]),
        0 <= j < path.len(),
    ensures
        list.contains(path[j]),
    decreases j,
{
    if j > 0 {
        lemma_closed_holds_chain(m, list, path, j - 1);
        assert(m.cosign(path[j - 1], path[j]));
    }
}

/// A closed list that holds `start` holds all that is connected to it.
pub proof fn lemma_closed_holds_closure(m: LedgerView, start: Seq<Seq<char>>, list: Seq<Seq<char>>)
    requires
        is_closed(m, list),
        forall|k: int| 0 <= k < start.len() ==> list.contains(#[trigger] start[k]),
    ensures
        forall|x: Seq<char>| in_closure(m, start, x) ==> list.contains(x),
{
    assert forall|x: Seq<char>| in_closure(m, start, x) implies list.contains(x) by {
        let k = choose|k: int| 0 <= k < start.len() && connected(m, #[trigger] start[k], x);
        let path = choose|path: Seq<Seq<char>>| #[trigger]
            is_cosign_chain(m, path) && path[0] == start[k] && path.last() == x;
        lemma_closed_holds_chain(m, list, path, path.len() - 1);
    }
}

/// Expanding what an expansion gave changes nothing.
pub proof fn lemma_expansion_is_idempotent(
    m: LedgerView,
    start: Seq<Seq<char>>,
    once: Seq<Seq<char>>,
    twice: Seq<Seq<char>>,
)
    requires
        is_expansion(m, start, once),
        is_expansion(m, once, twice),
    ensures
        twice == once,
{
    if twice.len() > once.len() {
        let i = once.len() as int;
        let x = twice[i];
        assert(twice.contains(x));
        assert(in_closure(m, once, x));
        let k = choose|k: int| 0 <= k < once.len() && connected(m, #[trigger] once[k], x);
        assert(once.contains(once[k]));
        assert(in_closure(m, start, once[k]));
        let s = choose|s: int| 0 <= s < start.len() && connected(m, #[trigger] start[s], once[k]);
        lemma_connected_join(m, start[s], once[k], x);
        assert(in_closure(m, start, x));
        assert(once.contains(x));
        let j = choose|j: int| 0 <= j < once.len() && once[j] == x;
        assert(twice.subrange(0, once.len() as int)[j] == once[j]);
        assert(twice[j] != twice[i]);
    }
    assert(twice =~= twice.subrange(0, once.len() as int));
}

/// Chains of co-signers can be joined.
pub proof fn lemma_connected_join(m: LedgerView, a: Seq<char>, b: Seq<char>, c: Seq<char>)
    requires
        connected(m, a, b),
        connected(m, b, c),
    ensures
        connected(m, a, c),
{
    let first = choose|path: Seq<Seq<char>>| #[trigger]
        is_cosign_chain(m, path) && path[0] == a && path.last() == b;
    let second = choose|path: Seq<Seq<char>>| #[trigger]
        is_cosign_chain(m, path) && path[0] == b && path.last() == c;
    let joined = first + second.drop_first();
    assert forall|k: int| 0 <= k < joined.len() - 1 implies m.cosign(
        #[trigger] joined[k],
        joined[k + 1],
    ) by {
        if k < first.len() - 1 {
            assert(m.cosign(first[k], first[k + 1]));
        } else {
            let t = k - first.len() + 1;
            assert(m.cosign(second[t], second[t + 1]));
            if k == first.len() - 1 {
                assert(joined[k] == first.last());
            }
        }
    }
    assert(is_cosign_chain(m, joined));
    assert(joined[0] == a);
    if second.len() == 1 {
        assert(joined.last() == first.last());
    } else {
        assert(joined.last() == second.last());
    }
}

/// Some address of `held` signs with `x`.
spec fn signs_with_member(m: LedgerView, held: Seq<Seq<char>>, x: Seq<char>) -> bool {
    exists|a: Seq<char>| held.contains(a) && #[trigger] m.cosign(a, x)
}

/// `x` is an end of the `p`-th pair.
spec fn is_end_at(m: LedgerView, p: int, x: Seq<char>) -> bool {
    0 <= p < m.cosigners.len() && (m.cosigners[p].0 == x || m.cosigners[p].1 == x)
}

/// `x` is an end of some pair.
spec fn is_end(m: LedgerView, x: Seq<char>) -> bool {
    exists|p: int| is_end_at(m, p, x)
}

/// The pair `(a, b)` has been dealt with: where `list` holds `a`, `b` is in
/// `list` or among the newly found `found`.
spec fn end_followed(list: Seq<Seq<char>>, found: Seq<Seq<char>>, a: Seq<char>, b: Seq<char>) -> bool {
    list.contains(a) ==> list.contains(b) || found.contains(b)
}

/// The addresses `addresses`, followed by every other address that signs
/// for a shared address with one of them or with an address found so:
/// the relation of co-signers is followed, round after round, until a
/// round finds nothing new. No address is added twice, and the addresses
/// given come back unchanged at the front.
pub fn add_shared_addresses_of_wallet(ledger: &Ledger, addresses: &Vec<String>) -> (r: Vec<String>)
    ensures
        is_expansion(ledger@, texts(addresses@), texts(r@)),
{
    let ghost m = ledger@;
    let ghost start = texts(addresses@);
    let count = ledger.cosigner_count();
    let mut list = clone_strings(addresses);
    proof {
        assert(texts(list@).subrange(0, start.len() as int) =~= start);
        assert forall|x: Seq<char>| texts(list@).contains(x) implies in_closure(m, start, x) by {
            let k = choose|k: int| 0 <= k < start.len() && start[k] == x;
            lemma_connected_reflexive(m, x);
        }
        lemma_ends_outside_shrinks(m.cosigners, texts(list@), texts(list@), count as int);
    }
    loop
        invariant
            m == ledger@,
            start == texts(addresses@),
            count == m.cosigners.len(),
            start.len() <= list.len(),
            texts(list@).subrange(0, start.len() as int) == start,
            forall|x: Seq<char>| texts(list@).contains(x) ==> in_closure(m, start, x),
            forall|i: int, j: int|
                start.len() <= i < list.len() && 0 <= j < i ==> texts(list@)[j] != texts(list@)[i],
            0 <= ends_outside(m.cosigners, texts(list@), count as int),
        decreases ends_outside(m.cosigners, texts(list@), count as int),
    {
        let ghost held = texts(list@);
        let mut found: Vec<String> = Vec::new();
        let mut i: usize = 0;
        while i < count
            invariant
                i <= count,
                m == ledger@,
                count == m.cosigners.len(),
                held == texts(list@),
                forall|t: int|
                    0 <= t < found.len() ==> !held.contains(#[trigger] texts(found@)[t]),
                forall|t: int|
                    0 <= t < found.len() ==> #[trigger] signs_with_member(
                        m,
                        held,
                        texts(found@)[t],
                    ),
                forall|t: int| 0 <= t < found.len() ==> #[trigger] is_end(m, texts(found@)[t]),
                forall|s: int, t: int|
                    0 <= s < t < found.len() ==> texts(found@)[s] != texts(found@)[t],
                forall|p: int|
                    0 <= p < i ==> end_followed(
                        held,
                        texts(found@),
                        (#[trigger] m.cosigners[p]).0,
                        m.cosigners[p].1,
                    ) && end_followed(held, texts(found@), m.cosigners[p].1, m.cosigners[p].0),
            decreases count - i,
        {
            let (a, b) = ledger.cosigner_pair(i);
            let ghost pair = m.cosigners[i as int];
            assert(pair == (a@, b@));
            let ghost found_entry = texts(found@);
            if contains_string(&list, a) && !contains_string(&list, b) && !contains_string(
                &found,
                b,
            ) {
                let ghost before = texts(found@);
                found.push(b.clone());
                proof {
                    assert(texts(found@) =~= before.push(b@));
                    assert(m.cosign(a@, b@));
                    assert(signs_with_member(m, held, b@));
                    assert(is_end_at(m, i as int, b@));
                }
            }
            let ghost found_middle = texts(found@);
            if contains_string(&list, b) && !contains_string(&list, a) && !contains_string(
                &found,
                a,
            ) {
                let ghost before = texts(found@);
                found.push(a.clone());
                proof {
                    assert(texts(found@) =~= before.push(a@));
                    assert(m.cosign(b@, a@));
                    assert(signs_with_member(m, held, a@));
                    assert(is_end_at(m, i as int, a@));
                }
            }
            proof {
                let now = texts(found@);
                assert forall|x: Seq<char>| found_entry.contains(x) implies now.contains(x) by {
                    let t = choose|t: int| 0 <= t < found_entry.len() && found_entry[t] == x;
                    assert(found_middle[t] == x);
                    assert(now[t] == x);
                }
                assert forall|x: Seq<char>| found_middle.contains(x) implies now.contains(x) by {
                    let t = choose|t: int| 0 <= t < found_middle.len() && found_middle[t] == x;
                    assert(now[t] == x);
                }
                if found_middle.len() > found_entry.len() {
                    assert(found_middle[found_middle.len() - 1] == b@);
                    assert(found_middle.contains(b@));
                }
                if now.len() > found_middle.len() {
                    assert(now[now.len() - 1] == a@);
                    assert(now.contains(a@));
                }
                assert(end_followed(held, now, a@, b@));
                assert(end_followed(held, now, b@, a@));
                assert forall|p: int| 0 <= p < i + 1 implies end_followed(
                    held,
                    now,
                    (#[trigger] m.cosigners[p]).0,
                    m.cosigners[p].1,
                ) && end_followed(held, now, m.cosigners[p].1, m.cosigners[p].0) by {
                    if p < i {
                        assert(end_followed(
                            held,
                            found_entry,
                            m.cosigners[p].0,
                            m.cosigners[p].1,
                        ));
                        assert(end_followed(
                            held,
                            found_entry,
                            m.cosigners[p].1,
                            m.cosigners[p].0,
                        ));
                    }
                }
            }
            i = i + 1;
        }
        if found.len() == 0 {
            proof {
                assert forall|a: Seq<char>, b: Seq<char>| #[trigger]
                    m.cosign(a, b) && held.contains(a) implies held.contains(b) by {
                    let p = choose|p: int|
                        0 <= p < m.cosigners.len() && (#[trigger] m.cosigners[p] == (a, b)
                            || m.cosigners[p] == (b, a));
                    assert(end_followed(held, texts(found@), m.cosigners[p].0, m.cosigners[p].1));
                    assert(end_followed(held, texts(found@), m.cosigners[p].1, m.cosigners[p].0));
                    assert(!texts(found@).contains(b));
                }
                assert(is_closed(m, held));
                assert forall|k: int| 0 <= k < start.len() implies held.contains(
                    #[trigger] start[k],
                ) by {
                    assert(held.subrange(0, start.len() as int)[k] == held[k]);
                }
                lemma_closed_holds_closure(m, start, held);
            }
            return list;
        }
        let ghost news = texts(found@);
        list.append(&mut found);
        proof {
            let grown = texts(list@);
            assert(grown =~= held + news);
            assert(grown.subrange(0, start.len() as int) =~= held.subrange(0, start.len() as int));
            assert forall|x: Seq<char>| held.contains(x) implies grown.contains(x) by {
                let t = choose|t: int| 0 <= t < held.len() && held[t] == x;
                assert(grown[t] == x);
            }
            assert forall|x: Seq<char>| grown.contains(x) implies in_closure(m, start, x) by {
                let t = choose|t: int| 0 <= t < grown.len() && grown[t] == x;
                if t < held.len() {
                    assert(held[t] == x);
                    assert(held.contains(x));
                } else {
                    let u = t - held.len();
                    assert(news[u] == x);
                    assert(signs_with_member(m, held, news[u]));
                    let a = choose|a: Seq<char>| held.contains(a) && #[trigger] m.cosign(a, news[u]);
                    assert(in_closure(m, start, a));
                    let k = choose|k: int| 0 <= k < start.len() && connected(m, #[trigger] start[k], a);
                    lemma_connected_step(m, start[k], a, x);
                }
            }
            assert forall|i: int, j: int| start.len() <= i < grown.len() && 0 <= j < i implies grown[j]
                != grown[i] by {
                if i < held.len() {
                    assert(held[j] != held[i]);
                } else {
                    let u = i - held.len();
                    assert(!held.contains(news[u]));
                    if j < held.len() {
                        assert(held.contains(held[j]));
                    } else {
                        assert(news[j - held.len()] != news[u]);
                    }
                }
            }
            assert(is_end(m, news[0]));
            let p = choose|p: int| is_end_at(m, p, news[0]);
            assert(grown[held.len() as int] == news[0]);
            assert(grown.contains(news[0]));
            lemma_ends_outside_shrinks_strictly(
                m.cosigners,
                held,
                grown,
                count as int,
                p,
                news[0],
            );
            lemma_ends_outside_shrinks(m.cosigners, grown, grown, count as int);
        }
    }
}

} // verus!
