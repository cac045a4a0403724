//! A read-only picture of the ledger: the units in the order in which they
//! were stored, each after its parents, with what the indexing layer keeps
//! beside them. Everything else in this library only reads it.

use crate::config::MAX_PARENT_PER_UNIT;
use crate::error::{Error, ErrorView};
use crate::joint::{Joint, JointView};
use crate::text::{contains_string, insert_sorted, sort_texts, texts};
use vstd::prelude::*;

verus! {

/// The mathematical reading of a [`Ledger`].
pub struct LedgerView {
    /// The stored joints; a position in this sequence stands for its unit.
    pub joints: Seq<JointView>,
    /// For each unit, the addresses that author it or receive its outputs.
    pub addresses: Seq<Seq<Seq<char>>>,
    /// Pairs of addresses that sign for one shared address.
    pub cosigners: Seq<(Seq<char>, Seq<char>)>,
    /// Addresses whose definition refers to other addresses.
    pub referencing: Seq<Seq<char>>,
}

impl LedgerView {
    /// Number of stored units.
    pub open spec fn len(self) -> int {
        self.joints.len() as int
    }

    /// The hash of the unit at position `i`.
    pub open spec fn id(self, i: int) -> Seq<char> {
        self.joints[i].unit.unit
    }

    /// Whether a unit with this hash is stored.
    pub open spec fn holds(self, id: Seq<char>) -> bool {
        exists|i: int| 0 <= i < self.len() && #[trigger] self.id(i) == id
    }

    /// The position of the unit with this hash.
    pub open spec fn index_of(self, id: Seq<char>) -> int {
        choose|i: int| 0 <= i < self.len() && #[trigger] self.id(i) == id
    }

    /// The position of the unit with this hash, if it is stored.
    pub open spec fn find(self, id: Seq<char>) -> Option<int> {
        if self.holds(id) {
            Some(self.index_of(id))
        } else {
            None
        }
    }

    /// The level of the unit at position `i`.
    pub open spec fn level(self, i: int) -> int {
        self.joints[i].unit.level as int
    }

    /// The main-chain index of the unit at position `i`.
    pub open spec fn mci(self, i: int) -> Option<u32> {
        self.joints[i].unit.main_chain_index
    }

    /// The parents of the unit at position `i`, as their hashes.
    pub open spec fn parent_ids(self, i: int) -> Seq<Seq<char>> {
        self.joints[i].unit.parent_units
    }

    /// The skip-list units of the unit at position `i`, as their hashes.
    pub open spec fn skiplist_ids(self, i: int) -> Seq<Seq<char>> {
        self.joints[i].skiplist_units
    }

    /// The unit at `parent` is one of the parents of the unit at `child`.
    pub open spec fn is_parent(self, child: int, parent: int) -> bool {
        &&& 0 <= child < self.len()
        &&& 0 <= parent < self.len()
        &&& self.parent_ids(child).contains(self.id(parent))
    }

    /// No hash is stored twice.
    pub open spec fn ids_unique(self) -> bool {
        forall|i: int, j: int| 0 <= i < j < self.len() ==> self.id(i) != self.id(j)
    }

    /// The unit at position `i` stands after what it refers to: each parent
    /// is stored before it, on a lower level, and so is each skip-list unit.
    /// Its best parent, where it names one, is one of its parents.
    pub open spec fn unit_grounded(self, i: int) -> bool {
        &&& self.parent_ids(i).len() <= MAX_PARENT_PER_UNIT
        &&& self.joints[i].unit.best_parent_unit matches Some(b) ==> self.parent_ids(i).contains(b)
        &&& forall|k: int|
            0 <= k < self.parent_ids(i).len() ==> #[trigger] self.stored_below(
                self.parent_ids(i)[k],
                i,
            )
        &&& forall|k: int|
            0 <= k < self.skiplist_ids(i).len() ==> #[trigger] self.stored_before(
                self.skiplist_ids(i)[k],
                i,
            )
    }

    /// A unit with this hash is stored before position `i`.
    pub open spec fn stored_before(self, id: Seq<char>, i: int) -> bool {
        exists|p: int| 0 <= p < i && #[trigger] self.id(p) == id
    }

    /// A unit with this hash is stored before position `i`, on a lower level
    /// than the unit there.
    pub open spec fn stored_below(self, id: Seq<char>, i: int) -> bool {
        exists|p: int| 0 <= p < i && #[trigger] self.id(p) == id && self.level(p) < self.level(i)
    }

    /// What holds of every ledger.
    pub open spec fn well_formed(self) -> bool {
        &&& self.addresses.len() == self.joints.len()
        &&& self.ids_unique()
        &&& forall|i: int| 0 <= i < self.len() ==> #[trigger] self.unit_grounded(i)
    }

    /// The ledger with one more unit at its end.
    pub open spec fn with_unit(self, joint: JointView, addresses: Seq<Seq<char>>) -> LedgerView {
        LedgerView {
            joints: self.joints.push(joint),
            addresses: self.addresses.push(addresses),
            cosigners: self.cosigners,
            referencing: self.referencing,
        }
    }

    /// The ledger with one more pair of co-signers.
    pub open spec fn with_cosigners(self, a: Seq<char>, b: Seq<char>) -> LedgerView {
        LedgerView {
            joints: self.joints,
            addresses: self.addresses,
            cosigners: self.cosigners.push((a, b)),
            referencing: self.referencing,
        }
    }

    /// The ledger with one more address whose definition refers to others.
    pub open spec fn with_referencing(self, a: Seq<char>) -> LedgerView {
        LedgerView {
            joints: self.joints,
            addresses: self.addresses,
            cosigners: self.cosigners,
            referencing: self.referencing.push(a),
        }
    }

    /// The addresses `a` and `b` sign for one shared address. The relation
    /// is symmetric.
    pub open spec fn cosign(self, a: Seq<char>, b: Seq<char>) -> bool {
        exists|i: int|
            0 <= i < self.cosigners.len() && (#[trigger] self.cosigners[i] == (a, b)
                || self.cosigners[i] == (b, a))
    }

    /// Some of these addresses has a definition that refers to other
    /// addresses.
    pub open spec fn have_references(self, addresses: Seq<Seq<char>>) -> bool {
        exists|k: int| 0 <= k < addresses.len() && self.referencing.contains(#[trigger] addresses[k])
    }

    /// Whether `joint` can be stored next, and if not, why not.
    pub open spec fn admits(self, joint: JointView) -> Result<(), InsertError> {
        let parents = joint.unit.parent_units;
        let skips = joint.skiplist_units;
        if self.holds(joint.unit.unit) {
            Err(InsertError::DuplicateUnit)
        } else if parents.len() > MAX_PARENT_PER_UNIT {
            Err(InsertError::TooManyParents)
        } else if exists|k: int| 0 <= k < parents.len() && !self.holds(#[trigger] parents[k]) {
            Err(InsertError::UnknownParent)
        } else if exists|k: int|
            0 <= k < parents.len() && self.level(self.index_of(#[trigger] parents[k]))
                >= joint.unit.level {
            Err(InsertError::LevelNotAboveParents)
        } else if exists|k: int| 0 <= k < skips.len() && !self.holds(#[trigger] skips[k]) {
            Err(InsertError::UnknownSkiplistUnit)
        } else if joint.unit.best_parent_unit matches Some(b) && !parents.contains(b) {
            Err(InsertError::BestParentNotAParent)
        } else {
            Ok(())
        }
    }
}

/// What storage knows of a unit's place in the DAG.
#[derive(Clone, Copy, Debug, PartialEq, Eq, Structural)]
pub struct UnitProps {
    pub main_chain_index: Option<u32>,
    pub level: u32,
}

/// Why a unit cannot be stored.
#[derive(Clone, Copy, Debug, PartialEq, Eq, Structural)]
pub enum InsertError {
    /// A unit with the same hash is stored already.
    DuplicateUnit,
    /// The unit names more parents than a unit may have.
    TooManyParents,
    /// Some parent is not stored yet.
    UnknownParent,
    /// Some parent is on the unit's own level or above it.
    LevelNotAboveParents,
    /// Some skip-list unit is not stored yet.
    UnknownSkiplistUnit,
    /// The best parent is not among the parents.
    BestParentNotAParent,
}

/// A hash determines its position.
pub proof fn lemma_index_of(m: LedgerView, i: int)
    requires
        m.ids_unique(),
        0 <= i < m.len(),
    ensures
        m.holds(m.id(i)),
        m.index_of(m.id(i)) == i,
        m.find(m.id(i)) == Some(i),
{
    let j = m.index_of(m.id(i));
    assert(0 <= j < m.len() && m.id(j) == m.id(i));
    if j < i {
        assert(m.id(j) != m.id(i));
    } else if i < j {
        assert(m.id(i) != m.id(j));
    }
}

/// In a well-formed ledger a parent is stored before its child, on a lower
/// level.
pub proof fn lemma_parent_is_earlier(m: LedgerView, child: int, parent: int)
    requires
        m.well_formed(),
        m.is_parent(child, parent),
    ensures
        parent < child,
        m.level(parent) < m.level(child),
{
    assert(m.unit_grounded(child));
    let k = choose|k: int|
        0 <= k < m.parent_ids(child).len() && m.parent_ids(child)[k] == m.id(parent);
    assert(m.stored_below(m.parent_ids(child)[k], child));
    let p = choose|p: int|
        0 <= p < child && #[trigger] m.id(p) == m.parent_ids(child)[k] && m.level(p) < m.level(
            child,
        );
    lemma_index_of(m, p);
    lemma_index_of(m, parent);
}

/// In a well-formed ledger every parent hash of a stored unit is stored,
/// before the unit and on a lower level.
pub proof fn lemma_parent_stored(m: LedgerView, child: int, k: int)
    requires
        m.well_formed(),
        0 <= child < m.len(),
        0 <= k < m.parent_ids(child).len(),
    ensures
        m.holds(m.parent_ids(child)[k]),
        0 <= m.index_of(m.parent_ids(child)[k]) < child,
        m.is_parent(child, m.index_of(m.parent_ids(child)[k])),
        m.level(m.index_of(m.parent_ids(child)[k])) < m.level(child),
{
    assert(m.unit_grounded(child));
    assert(m.stored_below(m.parent_ids(child)[k], child));
    let p = choose|p: int|
        0 <= p < child && #[trigger] m.id(p) == m.parent_ids(child)[k] && m.level(p) < m.level(
            child,
        );
    lemma_index_of(m, p);
}

/// In a well-formed ledger every skip-list hash of a stored unit is stored
/// before the unit.
pub proof fn lemma_skiplist_stored(m: LedgerView, i: int, k: int)
    requires
        m.well_formed(),
        0 <= i < m.len(),
        0 <= k < m.skiplist_ids(i).len(),
    ensures
        m.holds(m.skiplist_ids(i)[k]),
        0 <= m.index_of(m.skiplist_ids(i)[k]) < i,
{
    assert(m.unit_grounded(i));
    assert(m.stored_before(m.skiplist_ids(i)[k], i));
    let p = choose|p: int| 0 <= p < i && #[trigger] m.id(p) == m.skiplist_ids(i)[k];
    lemma_index_of(m, p);
}

/// In a well-formed ledger the best parent of a stored unit is stored before
/// the unit and is one of its parents.
pub proof fn lemma_best_parent_stored(m: LedgerView, i: int)
    requires
        m.well_formed(),
        0 <= i < m.len(),
        m.joints[i].unit.best_parent_unit is Some,
    ensures
        m.holds(m.joints[i].unit.best_parent_unit.unwrap()),
        0 <= m.index_of(m.joints[i].unit.best_parent_unit.unwrap()) < i,
        m.is_parent(i, m.index_of(m.joints[i].unit.best_parent_unit.unwrap())),
{
    assert(m.unit_grounded(i));
    let b = m.joints[i].unit.best_parent_unit.unwrap();
    let k = choose|k: int| 0 <= k < m.parent_ids(i).len() && m.parent_ids(i)[k] == b;
    lemma_parent_stored(m, i, k);
}

/// In a well-formed ledger all that a stored unit refers to is stored.
pub proof fn lemma_references_stored(m: LedgerView, i: int)
    requires
        m.well_formed(),
        0 <= i < m.len(),
    ensures
        forall|k: int| 0 <= k < m.parent_ids(i).len() ==> m.holds(#[trigger] m.parent_ids(i)[k]),
        forall|k: int|
            0 <= k < m.skiplist_ids(i).len() ==> m.holds(#[trigger] m.skiplist_ids(i)[k]),
{
    assert forall|k: int| 0 <= k < m.parent_ids(i).len() implies m.holds(
        #[trigger] m.parent_ids(i)[k],
    ) by {
        lemma_parent_stored(m, i, k);
    }
    assert forall|k: int| 0 <= k < m.skiplist_ids(i).len() implies m.holds(
        #[trigger] m.skiplist_ids(i)[k],
    ) by {
        lemma_skiplist_stored(m, i, k);
    }
}

/// Whether a ledger is well formed is a matter of its units alone.
proof fn lemma_same_units(a: LedgerView, b: LedgerView)
    requires
        a.well_formed(),
        a.joints == b.joints,
        a.addresses == b.addresses,
    ensures
        b.well_formed(),
{
    assert forall|i: int, j: int| 0 <= i < j < b.len() implies b.id(i) != b.id(j) by {
        assert(a.id(i) != a.id(j));
    }
    assert forall|i: int| 0 <= i < b.len() implies #[trigger] b.unit_grounded(i) by {
        assert(a.unit_grounded(i));
        assert(b.parent_ids(i) == a.parent_ids(i));
        assert(b.skiplist_ids(i) == a.skiplist_ids(i));
        assert forall|k: int| 0 <= k < b.parent_ids(i).len() implies #[trigger] b.stored_below(
            b.parent_ids(i)[k],
            i,
        ) by {
            assert(a.stored_below(a.parent_ids(i)[k], i));
            let p = choose|p: int|
                0 <= p < i && #[trigger] a.id(p) == a.parent_ids(i)[k] && a.level(p) < a.level(i);
            assert(b.id(p) == a.id(p));
        }
        assert forall|k: int| 0 <= k < b.skiplist_ids(i).len() implies #[trigger] b.stored_before(
            b.skiplist_ids(i)[k],
            i,
        ) by {
            assert(a.stored_before(a.skiplist_ids(i)[k], i));
            let p = choose|p: int| 0 <= p < i && #[trigger] a.id(p) == a.skiplist_ids(i)[k];
            assert(b.id(p) == a.id(p));
        }
    }
}

proof fn lemma_with_unit_well_formed(m: LedgerView, joint: JointView, addresses: Seq<Seq<char>>)
    requires
        m.well_formed(),
        m.admits(joint) is Ok,
    ensures
        m.with_unit(joint, addresses).well_formed(),
{
    let n = m.with_unit(joint, addresses);
    let last = m.len();
    assert forall|i: int, j: int| 0 <= i < j < n.len() implies n.id(i) != n.id(j) by {
        if j == last {
            assert(m.id(i) == n.id(i));
        } else {
            assert(m.id(i) != m.id(j));
        }
    }
    assert forall|i: int| 0 <= i < n.len() implies #[trigger] n.unit_grounded(i) by {
        if i < last {
            assert(m.unit_grounded(i));
            assert(n.parent_ids(i) == m.parent_ids(i));
            assert(n.skiplist_ids(i) == m.skiplist_ids(i));
            assert forall|k: int| 0 <= k < n.parent_ids(i).len() implies #[trigger] n.stored_below(
                n.parent_ids(i)[k],
                i,
            ) by {
                assert(m.stored_below(m.parent_ids(i)[k], i));
                let p = choose|p: int|
                    0 <= p < i && #[trigger] m.id(p) == m.parent_ids(i)[k] && m.level(p) < m.level(
                        i,
                    );
                assert(n.id(p) == m.id(p));
            }
            assert forall|k: int|
                0 <= k < n.skiplist_ids(i).len() implies #[trigger] n.stored_before(
                n.skiplist_ids(i)[k],
                i,
            ) by {
                assert(m.stored_before(m.skiplist_ids(i)[k], i));
                let p = choose|p: int| 0 <= p < i && #[trigger] m.id(p) == m.skiplist_ids(i)[k];
                assert(n.id(p) == m.id(p));
            }
        } else {
            let parents = joint.unit.parent_units;
            let skips = joint.skiplist_units;
            assert forall|k: int| 0 <= k < n.parent_ids(i).len() implies #[trigger] n.stored_below(
                n.parent_ids(i)[k],
                i,
            ) by {
                assert(m.holds(parents[k]));
                let p = m.index_of(parents[k]);
                assert(n.id(p) == m.id(p));
            }
            assert forall|k: int|
                0 <= k < n.skiplist_ids(i).len() implies #[trigger] n.stored_before(
                n.skiplist_ids(i)[k],
                i,
            ) by {
                assert(m.holds(skips[k]));
                let p = m.index_of(skips[k]);
                assert(n.id(p) == m.id(p));
            }
        }
    }
}

/// A stored joint with the addresses that its unit touches.
struct Entry {
    joint: Joint,
    addresses: Vec<String>,
}

/// The ledger as far as proofs for light clients read it.
pub struct Ledger {
    entries: Vec<Entry>,
    cosigners: Vec<(String, String)>,
    referencing: Vec<String>,
}

impl View for Ledger {
    type V = LedgerView;

    closed spec fn view(&self) -> LedgerView {
        LedgerView {
            joints: Seq::new(self.entries.len() as nat, |i: int| self.entries[i].joint@),
            addresses: Seq::new(
                self.entries.len() as nat,
                |i: int| texts(self.entries[i].addresses@),
            ),
            cosigners: Seq::new(
                self.cosigners.len() as nat,
                |i: int| (self.cosigners[i].0@, self.cosigners[i].1@),
            ),
            referencing: texts(self.referencing@),
        }
    }
}

impl Ledger {
    /// The reading of the units alone.
    pub closed spec fn units_view(self) -> LedgerView {
        LedgerView {
            joints: Seq::new(self.entries.len() as nat, |i: int| self.entries[i].joint@),
            addresses: Seq::new(
                self.entries.len() as nat,
                |i: int| texts(self.entries[i].addresses@),
            ),
            cosigners: Seq::empty(),
            referencing: Seq::empty(),
        }
    }

    /// What holds of every ledger at all times.
    #[verifier::type_invariant]
    pub open spec fn inv(self) -> bool {
        self.units_view().well_formed()
    }

    /// Every ledger is well formed.
    pub proof fn lemma_inv(self)
        requires
            self.inv(),
        ensures
            self@.well_formed(),
    {
        lemma_same_units(self.units_view(), self@);
    }

    /// A ledger that holds nothing.
    pub fn new() -> (r: Ledger)
        ensures
            r@.joints.len() == 0,
            r@.addresses.len() == 0,
            r@.cosigners.len() == 0,
            r@.referencing.len() == 0,
    {
        Ledger { entries: Vec::new(), cosigners: Vec::new(), referencing: Vec::new() }
    }

    /// Records that the addresses `a` and `b` sign for one shared address.
    pub fn add_cosigners(&mut self, a: String, b: String)
        ensures
            final(self)@ == old(self)@.with_cosigners(a@, b@),
    {
        proof {
            use_type_invariant(&*self);
            self.lemma_inv();
        }
        let ghost m = self@;
        let ghost av = a@;
        let ghost bv = b@;
        let mut pairs: Vec<(String, String)> = Vec::new();
        std::mem::swap(&mut pairs, &mut self.cosigners);
        pairs.push((a, b));
        assert(Seq::new(pairs.len() as nat, |i: int| (pairs[i].0@, pairs[i].1@))
            =~= m.cosigners.push((av, bv)));
        self.cosigners = pairs;
    }

    /// Records that the definition of address `a` refers to other addresses.
    pub fn add_referencing_address(&mut self, a: String)
        ensures
            final(self)@ == old(self)@.with_referencing(a@),
    {
        proof {
            use_type_invariant(&*self);
            self.lemma_inv();
        }
        let ghost m = self@;
        let ghost av = a@;
        let mut held: Vec<String> = Vec::new();
        std::mem::swap(&mut held, &mut self.referencing);
        held.push(a);
        assert(texts(held@) =~= m.referencing.push(av));
        self.referencing = held;
    }

    /// Number of recorded pairs of co-signers.
    pub fn cosigner_count(&self) -> (n: usize)
        ensures
            n == self@.cosigners.len(),
    {
        self.cosigners.len()
    }

    /// The `i`-th recorded pair of co-signers.
    pub fn cosigner_pair(&self, i: usize) -> (r: (&String, &String))
        requires
            i < self@.cosigners.len(),
        ensures
            (r.0@, r.1@) == self@.cosigners[i as int],
    {
        (&self.cosigners[i].0, &self.cosigners[i].1)
    }

    /// Whether some of `addresses` has a definition that refers to other
    /// addresses.
    pub fn have_references(&self, addresses: &[String]) -> (r: bool)
        ensures
            r == self@.have_references(texts(addresses@)),
    {
        let mut k: usize = 0;
        while k < addresses.len()
            invariant
                k <= addresses.len(),
                forall|j: int|
                    0 <= j < k ==> !self@.referencing.contains(#[trigger] texts(addresses@)[j]),
            decreases addresses.len() - k,
        {
            if contains_string(&self.referencing, &addresses[k]) {
                assert(texts(addresses@)[k as int] == addresses[k as int]@);
                return true;
            }
            assert(texts(addresses@)[k as int] == addresses[k as int]@);
            k = k + 1;
        }
        false
    }

    /// Number of stored units.
    pub fn len(&self) -> (n: usize)
        ensures
            n == self@.len(),
    {
        self.entries.len()
    }

    /// The position of the unit with this hash.
    pub fn find(&self, unit: &String) -> (r: Option<usize>)
        ensures
            match r {
                Some(i) => self@.find(unit@) == Some(i as int) && i < self@.len() && self@.id(
                    i as int,
                ) == unit@,
                None => self@.find(unit@) is None,
            },
    {
        proof {
            use_type_invariant(self);
            self.lemma_inv();
        }
        let mut i: usize = 0;
        while i < self.entries.len()
            invariant
                i <= self.entries.len(),
                self@.ids_unique(),
                forall|j: int| 0 <= j < i ==> self@.id(j) != unit@,
            decreases self.entries.len() - i,
        {
            if self.entries[i].joint.unit.unit == *unit {
                proof {
                    lemma_index_of(self@, i as int);
                }
                return Some(i);
            }
            i = i + 1;
        }
        None
    }

    /// The joint at position `i`.
    pub fn joint(&self, i: usize) -> (r: &Joint)
        requires
            i < self@.len(),
        ensures
            r@ == self@.joints[i as int],
    {
        &self.entries[i].joint
    }

    /// A copy of the joint of the unit with this hash.
    pub fn read_joint(&self, unit: &String) -> (r: Result<Joint, Error>)
        ensures
            match self@.find(unit@) {
                Some(i) => r matches Ok(joint) && joint@ == self@.joints[i],
                None => r matches Err(e) && e@ == ErrorView::UnitNotFound(unit@),
            },
    {
        match self.find(unit) {
            Some(i) => Ok(self.entries[i].joint.clone()),
            None => Err(Error::UnitNotFound(unit.clone())),
        }
    }

    /// The main-chain index and the level of the unit with this hash.
    pub fn read_unit_props(&self, unit: &String) -> (r: Result<UnitProps, Error>)
        ensures
            match self@.find(unit@) {
                Some(i) => r matches Ok(props) && props.main_chain_index == self@.mci(i)
                    && props.level == self@.level(i),
                None => r matches Err(e) && e@ == ErrorView::UnitNotFound(unit@),
            },
    {
        match self.find(unit) {
            Some(i) => Ok(
                UnitProps {
                    main_chain_index: self.entries[i].joint.unit.main_chain_index,
                    level: self.entries[i].joint.unit.level,
                },
            ),
            None => Err(Error::UnitNotFound(unit.clone())),
        }
    }

    /// The addresses that the unit at position `i` touches.
    pub fn addresses(&self, i: usize) -> (r: &Vec<String>)
        requires
            i < self@.len(),
        ensures
            texts(r@) == self@.addresses[i as int],
    {
        proof {
            use_type_invariant(self);
            self.lemma_inv();
        }
        &self.entries[i].addresses
    }

    /// Stores `joint` behind the units held so far, with the addresses that
    /// author its unit or receive its outputs. The unit must be new, and what
    /// it refers to must be stored already; otherwise nothing changes.
    #[verifier::loop_isolation(false)]
    pub fn add_unit(&mut self, joint: Joint, addresses: Vec<String>) -> (r: Result<
        (),
        InsertError,
    >)
        ensures
            r == old(self)@.admits(joint@),
            r is Ok ==> final(self)@ == old(self)@.with_unit(joint@, texts(addresses@)),
            r is Err ==> final(self)@ == old(self)@,
    {
        proof {
            use_type_invariant(&*self);
            self.lemma_inv();
        }
        let ghost m = self@;
        if self.find(&joint.unit.unit).is_some() {
            return Err(InsertError::DuplicateUnit);
        }
        if joint.unit.parent_units.len() > MAX_PARENT_PER_UNIT {
            return Err(InsertError::TooManyParents);
        }
        let ghost parents = joint@.unit.parent_units;
        let ghost skips = joint@.skiplist_units;
        let mut k: usize = 0;
        while k < joint.unit.parent_units.len()
            invariant
                k <= joint.unit.parent_units.len(),
                m == self@,
                parents == texts(joint.unit.parent_units@),
                forall|j: int| 0 <= j < k ==> m.holds(#[trigger] parents[j]),
            decreases joint.unit.parent_units.len() - k,
        {
            if self.find(&joint.unit.parent_units[k]).is_none() {
                assert(!m.holds(parents[k as int]));
                return Err(InsertError::UnknownParent);
            }
            k = k + 1;
        }
        let mut k: usize = 0;
        while k < joint.unit.parent_units.len()
            invariant
                k <= joint.unit.parent_units.len(),
                m == self@,
                parents == texts(joint.unit.parent_units@),
                forall|j: int| 0 <= j < parents.len() ==> m.holds(#[trigger] parents[j]),
                forall|j: int|
                    0 <= j < k ==> m.level(m.index_of(#[trigger] parents[j])) < joint.unit.level,
            decreases joint.unit.parent_units.len() - k,
        {
            match self.find(&joint.unit.parent_units[k]) {
                Some(p) => {
                    if self.entries[p].joint.unit.level >= joint.unit.level {
                        assert(m.level(m.index_of(parents[k as int])) >= joint.unit.level);
                        return Err(InsertError::LevelNotAboveParents);
                    }
                },
                None => {},
            }
            k = k + 1;
        }
        let mut k: usize = 0;
        while k < joint.skiplist_units.len()
            invariant
                k <= joint.skiplist_units.len(),
                m == self@,
                skips == texts(joint.skiplist_units@),
                forall|j: int| 0 <= j < k ==> m.holds(#[trigger] skips[j]),
            decreases joint.skiplist_units.len() - k,
        {
            if self.find(&joint.skiplist_units[k]).is_none() {
                assert(!m.holds(skips[k as int]));
                return Err(InsertError::UnknownSkiplistUnit);
            }
            k = k + 1;
        }
        match &joint.unit.best_parent_unit {
            Some(b) => {
                if !contains_string(&joint.unit.parent_units, b) {
                    return Err(InsertError::BestParentNotAParent);
                }
            },
            None => {},
        }
        assert(m.admits(joint@) is Ok);
        let ghost units = self.units_view();
        proof {
            lemma_with_unit_well_formed(m, joint@, texts(addresses@));
            lemma_same_units(
                m.with_unit(joint@, texts(addresses@)),
                units.with_unit(joint@, texts(addresses@)),
            );
        }
        let ghost jv = joint@;
        let ghost av = texts(addresses@);
        let mut entries: Vec<Entry> = Vec::new();
        std::mem::swap(&mut entries, &mut self.entries);
        entries.push(Entry { joint, addresses });
        assert(Seq::new(entries.len() as nat, |i: int| entries[i].joint@) =~= m.joints.push(jv));
        assert(Seq::new(entries.len() as nat, |i: int| texts(entries[i].addresses@))
            =~= m.addresses.push(av));
        self.entries = entries;
        Ok(())
    }
}

/// Every entry is present.
pub open spec fn all_some(s: Seq<Option<Seq<char>>>) -> bool {
    forall|k: int| 0 <= k < s.len() ==> s[k] is Some
}

/// The entries themselves, where all are present.
pub open spec fn unwrapped(s: Seq<Option<Seq<char>>>) -> Seq<Seq<char>> {
    Seq::new(s.len(), |k: int| s[k].unwrap())
}

// What storage answers; each question is a function of the ledger alone.
impl LedgerView {
    /// The unit at position `i` lies on the main chain at index `mci`.
    pub open spec fn is_main_chain_at(self, i: int, mci: u32) -> bool {
        &&& 0 <= i < self.len()
        &&& self.mci(i) == Some(mci)
        &&& self.joints[i].unit.is_on_main_chain
    }

    /// How many of the first `n` units lie on the main chain at index `mci`.
    pub open spec fn count_main_chain_at(self, mci: u32, n: int) -> int
        decreases n,
    {
        if n <= 0 {
            0
        } else {
            self.count_main_chain_at(mci, n - 1) + if self.is_main_chain_at(n - 1, mci) {
                1int
            } else {
                0int
            }
        }
    }

    /// The one unit on the main chain at index `mci`; a failure where there
    /// is none, or more than one.
    pub open spec fn main_chain_unit_at(self, mci: u32) -> Result<int, ErrorView> {
        let count = self.count_main_chain_at(mci, self.len());
        if count == 1 {
            Ok(choose|i: int| self.is_main_chain_at(i, mci))
        } else {
            Err(ErrorView::NoMainChainUnit(mci, count as usize))
        }
    }

    /// The ball of the unit at position `i`.
    pub open spec fn ball(self, i: int) -> Option<Seq<char>> {
        self.joints[i].ball
    }

    /// The balls of the units with these hashes, in the order of the hashes.
    pub open spec fn balls_of(self, ids: Seq<Seq<char>>) -> Seq<Option<Seq<char>>> {
        Seq::new(ids.len(), |k: int| self.ball(self.index_of(ids[k])))
    }

    /// The main-chain indices of the units with these hashes, in the order of
    /// the hashes.
    pub open spec fn mcis_of(self, ids: Seq<Seq<char>>) -> Seq<Option<u32>> {
        Seq::new(ids.len(), |k: int| self.mci(self.index_of(ids[k])))
    }

    /// The balls of the parents of the unit at position `i`, sorted; a
    /// failure where a parent has none.
    pub open spec fn sorted_parent_balls(self, i: int) -> Result<Seq<Seq<char>>, ErrorView> {
        let balls = self.balls_of(self.parent_ids(i));
        if all_some(balls) {
            Ok(sort_texts(unwrapped(balls)))
        } else {
            Err(ErrorView::ParentsWithoutBalls(self.id(i)))
        }
    }

    /// The balls of the skip-list units of the unit at position `i`, sorted;
    /// a failure where one of them has none.
    pub open spec fn sorted_skiplist_balls(self, i: int) -> Result<Seq<Seq<char>>, ErrorView> {
        let balls = self.balls_of(self.skiplist_ids(i));
        if all_some(balls) {
            Ok(sort_texts(unwrapped(balls)))
        } else {
            Err(ErrorView::SkiplistWithoutBalls(self.id(i)))
        }
    }

    /// The main-chain indices that the skip list of the unit at position `i`
    /// leads to.
    pub open spec fn skiplist_mcis(self, i: int) -> Seq<Option<u32>> {
        self.mcis_of(self.skiplist_ids(i))
    }
}

/// The count of main-chain units grows with the range counted and never
/// exceeds it.
pub proof fn lemma_count_main_chain_monotonic(m: LedgerView, mci: u32, a: int, b: int)
    requires
        0 <= a <= b,
    ensures
        0 <= m.count_main_chain_at(mci, a) <= m.count_main_chain_at(mci, b) <= b,
    decreases b,
{
    if a < b {
        lemma_count_main_chain_monotonic(m, mci, a, b - 1);
    } else if a > 0 {
        lemma_count_main_chain_monotonic(m, mci, a - 1, a - 1);
    }
}

proof fn lemma_counted_unit_exists(m: LedgerView, mci: u32, n: int)
    requires
        m.count_main_chain_at(mci, n) > 0,
    ensures
        exists|i: int| m.is_main_chain_at(i, mci),
    decreases n,
{
    if n > 0 {
        if m.is_main_chain_at(n - 1, mci) {
        } else {
            lemma_counted_unit_exists(m, mci, n - 1);
        }
    }
}

/// The unit found on the main chain at `mci` lies there.
pub proof fn lemma_main_chain_unit_at(m: LedgerView, mci: u32)
    ensures
        m.main_chain_unit_at(mci) matches Ok(i) ==> m.is_main_chain_at(i, mci),
{
    if m.count_main_chain_at(mci, m.len()) == 1 {
        lemma_counted_unit_exists(m, mci, m.len());
    }
}

/// Where exactly one unit lies on the main chain at `mci`, any unit found
/// there is that one.
pub proof fn lemma_main_chain_unit_unique(m: LedgerView, mci: u32, i: int)
    requires
        m.is_main_chain_at(i, mci),
        m.count_main_chain_at(mci, m.len()) == 1,
    ensures
        m.main_chain_unit_at(mci) == Ok::<int, ErrorView>(i),
{
    let j = choose|j: int| m.is_main_chain_at(j, mci);
    if i != j {
        let (a, b) = if i < j {
            (i, j)
        } else {
            (j, i)
        };
        lemma_count_main_chain_monotonic(m, mci, 0, a);
        lemma_count_main_chain_monotonic(m, mci, a + 1, b);
        lemma_count_main_chain_monotonic(m, mci, b + 1, m.len());
    }
}

impl Ledger {
    /// The one unit on the main chain at index `mci`.
    pub fn main_chain_unit_at(&self, mci: u32) -> (r: Result<usize, Error>)
        ensures
            match r {
                Ok(i) => self@.main_chain_unit_at(mci) == Ok::<int, ErrorView>(i as int) && i
                    < self@.len(),
                Err(e) => self@.main_chain_unit_at(mci) == Err::<int, ErrorView>(e@),
            },
    {
        let mut count: usize = 0;
        let mut found: usize = 0;
        let mut i: usize = 0;
        while i < self.entries.len()
            invariant
                i <= self.entries.len(),
                self.entries.len() == self@.len(),
                count == self@.count_main_chain_at(mci, i as int),
                count <= i,
                count > 0 ==> self@.is_main_chain_at(found as int, mci),
            decreases self.entries.len() - i,
        {
            let unit = &self.entries[i].joint.unit;
            let here = match unit.main_chain_index {
                Some(v) => v == mci && unit.is_on_main_chain,
                None => false,
            };
            assert(here == self@.is_main_chain_at(i as int, mci));
            if here {
                count = count + 1;
                found = i;
            }
            i = i + 1;
        }
        if count == 1 {
            proof {
                lemma_main_chain_unit_unique(self@, mci, found as int);
            }
            Ok(found)
        } else {
            Err(Error::NoMainChainUnit(mci, count))
        }
    }

    /// The sorted balls of the units with the hashes `ids`, all of which are
    /// stored; nothing where one of the units has no ball.
    pub fn sorted_balls_of(&self, ids: &Vec<String>) -> (r: Option<Vec<String>>)
        requires
            forall|k: int| 0 <= k < ids.len() ==> self@.holds(#[trigger] ids[k]@),
        ensures
            match r {
                Some(v) => all_some(self@.balls_of(texts(ids@))) && texts(v@) == sort_texts(
                    unwrapped(self@.balls_of(texts(ids@))),
                ),
                None => !all_some(self@.balls_of(texts(ids@))),
            },
    {
        let ghost balls = self@.balls_of(texts(ids@));
        let mut out: Vec<String> = Vec::new();
        let mut k: usize = 0;
        while k < ids.len()
            invariant
                k <= ids.len(),
                balls == self@.balls_of(texts(ids@)),
                forall|j: int| 0 <= j < ids.len() ==> self@.holds(#[trigger] ids[j]@),
                forall|j: int| 0 <= j < k ==> balls[j] is Some,
                texts(out@) == sort_texts(unwrapped(balls).subrange(0, k as int)),
            decreases ids.len() - k,
        {
            assert(self@.holds(ids[k as int]@));
            match self.find(&ids[k]) {
                Some(p) => {
                    assert(balls[k as int] == self@.ball(p as int));
                    match &self.entries[p].joint.ball {
                        Some(b) => {
                            proof {
                                let u = unwrapped(balls);
                                let next = u.subrange(0, k + 1);
                                assert(next.drop_last() =~= u.subrange(0, k as int));
                                assert(next.last() == b@);
                            }
                            insert_sorted(&mut out, b.clone());
                        },
                        None => {
                            return None;
                        },
                    }
                },
                None => {},
            }
            k = k + 1;
        }
        assert(unwrapped(balls).subrange(0, k as int) =~= unwrapped(balls));
        Some(out)
    }

    /// The main-chain indices of the units with the hashes `ids`, all of
    /// which are stored.
    pub fn mcis_of(&self, ids: &Vec<String>) -> (r: Vec<Option<u32>>)
        requires
            forall|k: int| 0 <= k < ids.len() ==> self@.holds(#[trigger] ids[k]@),
        ensures
            r@ == self@.mcis_of(texts(ids@)),
    {
        let mut out: Vec<Option<u32>> = Vec::new();
        let mut k: usize = 0;
        while k < ids.len()
            invariant
                k <= ids.len(),
                out.len() == k,
                forall|j: int| 0 <= j < ids.len() ==> self@.holds(#[trigger] ids[j]@),
                forall|j: int| 0 <= j < k ==> out[j] == self@.mcis_of(texts(ids@))[j],
            decreases ids.len() - k,
        {
            assert(self@.holds(ids[k as int]@));
            match self.find(&ids[k]) {
                Some(p) => {
                    out.push(self.entries[p].joint.unit.main_chain_index);
                },
                None => {},
            }
            k = k + 1;
        }
        assert(out@ =~= self@.mcis_of(texts(ids@)));
        out
    }
}

} // verus!
