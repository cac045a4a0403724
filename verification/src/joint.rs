//! The ledger's objects as this library reads them: units, and joints, the
//! form in which units travel between peers.

use crate::text::{clone_opt_string, clone_strings, opt_text, texts};
use vstd::prelude::*;

verus! {

/// Whether a unit conflicts with another unit of one of its authors.
#[derive(Clone, Copy, Debug, PartialEq, Eq, Structural)]
pub enum Sequence {
    /// No conflict is known.
    Good,
    /// The unit conflicts with another one and was voided.
    Nonserial,
}

/// A signed node of the DAG.
#[derive(Debug, PartialEq, Eq)]
pub struct Unit {
    /// The hash of the unit's content, by which it is known.
    pub unit: String,
    /// The units this one builds on.
    pub parent_units: Vec<String>,
    /// The parent through which the unit is tied to the main chain.
    pub best_parent_unit: Option<String>,
    /// The unit that its author took for the last stable one.
    pub last_ball_unit: Option<String>,
    /// One more than the largest level among the parents.
    pub level: u32,
    /// Position on the main chain; absent while the unit is unstable.
    pub main_chain_index: Option<u32>,
    /// Whether the unit itself lies on the main chain.
    pub is_on_main_chain: bool,
    /// Conflict status.
    pub sequence: Sequence,
    /// Whether the unit changes its author's witness list or definition.
    pub is_witness_affecting: bool,
    /// Hash that stands for the content once the content was removed.
    pub content_hash: Option<String>,
}

/// The mathematical reading of a [`Unit`].
pub struct UnitView {
    pub unit: Seq<char>,
    pub parent_units: Seq<Seq<char>>,
    pub best_parent_unit: Option<Seq<char>>,
    pub last_ball_unit: Option<Seq<char>>,
    pub level: u32,
    pub main_chain_index: Option<u32>,
    pub is_on_main_chain: bool,
    pub sequence: Sequence,
    pub is_witness_affecting: bool,
    pub content_hash: Option<Seq<char>>,
}

impl View for Unit {
    type V = UnitView;

    open spec fn view(&self) -> UnitView {
        UnitView {
            unit: self.unit@,
            parent_units: texts(self.parent_units@),
            best_parent_unit: opt_text(self.best_parent_unit),
            last_ball_unit: opt_text(self.last_ball_unit),
            level: self.level,
            main_chain_index: self.main_chain_index,
            is_on_main_chain: self.is_on_main_chain,
            sequence: self.sequence,
            is_witness_affecting: self.is_witness_affecting,
            content_hash: opt_text(self.content_hash),
        }
    }
}

impl UnitView {
    /// A unit is stable once it has its place on the main chain.
    pub open spec fn is_stable(self) -> bool {
        self.main_chain_index is Some
    }
}

impl Unit {
    /// Whether the unit has been given its place on the main chain.
    pub fn is_stable(&self) -> (r: bool)
        ensures
            r == self@.is_stable(),
    {
        self.main_chain_index.is_some()
    }
}

impl Clone for Unit {
    fn clone(&self) -> (r: Self)
        ensures
            r@ == self@,
    {
        Unit {
            unit: self.unit.clone(),
            parent_units: clone_strings(&self.parent_units),
            best_parent_unit: clone_opt_string(&self.best_parent_unit),
            last_ball_unit: clone_opt_string(&self.last_ball_unit),
            level: self.level,
            main_chain_index: self.main_chain_index,
            is_on_main_chain: self.is_on_main_chain,
            sequence: self.sequence,
            is_witness_affecting: self.is_witness_affecting,
            content_hash: clone_opt_string(&self.content_hash),
        }
    }
}

/// A unit with what accompanies it on the wire.
#[derive(Debug, PartialEq, Eq)]
pub struct Joint {
    pub unit: Unit,
    /// The unit's ball; present once the unit is stable.
    pub ball: Option<String>,
    /// Earlier main-chain units that the ball also commits to.
    pub skiplist_units: Vec<String>,
}

/// The mathematical reading of a [`Joint`].
pub struct JointView {
    pub unit: UnitView,
    pub ball: Option<Seq<char>>,
    pub skiplist_units: Seq<Seq<char>>,
}

impl View for Joint {
    type V = JointView;

    open spec fn view(&self) -> JointView {
        JointView {
            unit: self.unit@,
            ball: opt_text(self.ball),
            skiplist_units: texts(self.skiplist_units@),
        }
    }
}

impl Clone for Joint {
    fn clone(&self) -> (r: Self)
        ensures
            r@ == self@,
    {
        Joint {
            unit: self.unit.clone(),
            ball: clone_opt_string(&self.ball),
            skiplist_units: clone_strings(&self.skiplist_units),
        }
    }
}

/// The readings of a sequence of joints, in order.
pub open spec fn joint_views(v: Seq<Joint>) -> Seq<JointView> {
    Seq::new(v.len(), |i: int| v[i]@)
}

/// A copy of `v`, joint for joint.
pub fn clone_joints(v: &Vec<Joint>) -> (r: Vec<Joint>)
    ensures
        joint_views(r@) == joint_views(v@),
{
    let mut r: Vec<Joint> = Vec::new();
    let mut i: usize = 0;
    while i < v.len()
        invariant
            i <= v.len(),
            r.len() == i,
            forall|j: int| 0 <= j < i ==> r[j]@ == v[j]@,
        decreases v.len() - i,
    {
        r.push(v[i].clone());
        i = i + 1;
    }
    assert(joint_views(r@) =~= joint_views(v@));
    r
}

} // verus!
