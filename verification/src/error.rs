//! What can go wrong while a request is answered. A failure always ends the
//! whole request: nothing is retried and nothing partial is handed out.

use vstd::prelude::*;

verus! {

/// The four families of failure.
#[derive(Clone, Copy, Debug, PartialEq, Eq, Structural)]
pub enum ErrorKind {
    /// The request itself is malformed, empty or too large.
    RequestValidation,
    /// A unit, ball or link that had to be there is missing.
    NotFound,
    /// The units are not related by ancestry as the request supposes.
    AncestryInconsistency,
    /// The storage behind the ledger failed.
    Storage,
}

/// A failure, with the unit, position or count that it is about.
#[derive(Debug, PartialEq, Eq)]
pub enum Error {
    /// The request names no address.
    NoAddresses,
    /// The request names no unit that the client knows to be stable.
    NoKnownStableUnits,
    /// The request names no joint.
    NoRequestedJoints,
    /// The witness list has this many entries in place of twelve.
    WrongNumberOfWitnesses(usize),
    /// The history would cover this many units, more than is served.
    HistoryTooLarge(usize),
    /// A link proof was asked for no units at all.
    NoUnits,
    /// A link proof was asked for a single unit.
    ChainOfOneElement,
    /// Some witness address has a definition that refers to other addresses.
    WitnessesHaveReferences,
    /// No unit with this hash is stored.
    UnitNotFound(String),
    /// The main chain holds this many units, not one, at this index.
    NoMainChainUnit(u32, usize),
    /// The unit has no ball.
    NoBall(String),
    /// Some parent of the unit has no ball.
    ParentsWithoutBalls(String),
    /// Some skip-list unit of the unit has no ball.
    SkiplistWithoutBalls(String),
    /// The unit names no last-ball unit.
    NoLastBallUnit(String),
    /// The unit has no main-chain index.
    NoMainChainIndex(String),
    /// The unit has no best parent in storage.
    NoBestParent(String),
    /// A chain was asked from a main-chain index up to a later one.
    EarlierAfterLater(u32, u32),
    /// The earlier unit is not in the history of the later one.
    NotIncluded,
    /// None of the unit's parents continues the path.
    NoQualifyingParent(String),
    /// The unit has no parent with its own main-chain index.
    NoParentsWithSameMci(String),
    /// The storage failed; the text says how.
    Storage(String),
}

/// The mathematical reading of an [`Error`].
pub enum ErrorView {
    NoAddresses,
    NoKnownStableUnits,
    NoRequestedJoints,
    WrongNumberOfWitnesses(usize),
    HistoryTooLarge(usize),
    NoUnits,
    ChainOfOneElement,
    WitnessesHaveReferences,
    UnitNotFound(Seq<char>),
    NoMainChainUnit(u32, usize),
    NoBall(Seq<char>),
    ParentsWithoutBalls(Seq<char>),
    SkiplistWithoutBalls(Seq<char>),
    NoLastBallUnit(Seq<char>),
    NoMainChainIndex(Seq<char>),
    NoBestParent(Seq<char>),
    EarlierAfterLater(u32, u32),
    NotIncluded,
    NoQualifyingParent(Seq<char>),
    NoParentsWithSameMci(Seq<char>),
    Storage(Seq<char>),
}

impl View for Error {
    type V = ErrorView;

    open spec fn view(&self) -> ErrorView {
        match *self {
            Error::NoAddresses => ErrorView::NoAddresses,
            Error::NoKnownStableUnits => ErrorView::NoKnownStableUnits,
            Error::NoRequestedJoints => ErrorView::NoRequestedJoints,
            Error::WrongNumberOfWitnesses(n) => ErrorView::WrongNumberOfWitnesses(n),
            Error::HistoryTooLarge(n) => ErrorView::HistoryTooLarge(n),
            Error::NoUnits => ErrorView::NoUnits,
            Error::ChainOfOneElement => ErrorView::ChainOfOneElement,
            Error::WitnessesHaveReferences => ErrorView::WitnessesHaveReferences,
            Error::UnitNotFound(u) => ErrorView::UnitNotFound(u@),
            Error::NoMainChainUnit(mci, n) => ErrorView::NoMainChainUnit(mci, n),
            Error::NoBall(u) => ErrorView::NoBall(u@),
            Error::ParentsWithoutBalls(u) => ErrorView::ParentsWithoutBalls(u@),
            Error::SkiplistWithoutBalls(u) => ErrorView::SkiplistWithoutBalls(u@),
            Error::NoLastBallUnit(u) => ErrorView::NoLastBallUnit(u@),
            Error::NoMainChainIndex(u) => ErrorView::NoMainChainIndex(u@),
            Error::NoBestParent(u) => ErrorView::NoBestParent(u@),
            Error::EarlierAfterLater(e, l) => ErrorView::EarlierAfterLater(e, l),
            Error::NotIncluded => ErrorView::NotIncluded,
            Error::NoQualifyingParent(u) => ErrorView::NoQualifyingParent(u@),
            Error::NoParentsWithSameMci(u) => ErrorView::NoParentsWithSameMci(u@),
            Error::Storage(s) => ErrorView::Storage(s@),
        }
    }
}

impl ErrorView {
    /// The family a failure belongs to.
    pub open spec fn kind(self) -> ErrorKind {
        match self {
            ErrorView::NoAddresses
            | ErrorView::NoKnownStableUnits
            | ErrorView::NoRequestedJoints
            | ErrorView::WrongNumberOfWitnesses(_)
            | ErrorView::HistoryTooLarge(_)
            | ErrorView::NoUnits
            | ErrorView::ChainOfOneElement
            | ErrorView::WitnessesHaveReferences => ErrorKind::RequestValidation,
            ErrorView::UnitNotFound(_)
            | ErrorView::NoMainChainUnit(_, _)
            | ErrorView::NoBall(_)
            | ErrorView::ParentsWithoutBalls(_)
            | ErrorView::SkiplistWithoutBalls(_)
            | ErrorView::NoLastBallUnit(_)
            | ErrorView::NoMainChainIndex(_)
            | ErrorView::NoBestParent(_) => ErrorKind::NotFound,
            ErrorView::EarlierAfterLater(_, _)
            | ErrorView::NotIncluded
            | ErrorView::NoQualifyingParent(_)
            | ErrorView::NoParentsWithSameMci(_) => ErrorKind::AncestryInconsistency,
            ErrorView::Storage(_) => ErrorKind::Storage,
        }
    }
}

impl ErrorView {
    /// What a peer is told of the failure.
    pub open spec fn message(self) -> Seq<char> {
        match self {
            ErrorView::NoAddresses => "no addresses"@,
            ErrorView::NoKnownStableUnits => "known_stable_units must be non-empty array"@,
            ErrorView::NoRequestedJoints => "no requested joints"@,
            ErrorView::WrongNumberOfWitnesses(_) => "wrong number of witnesses"@,
            ErrorView::HistoryTooLarge(_) =>
                "your history is too large, consider switching to a full client"@,
            ErrorView::NoUnits => "no units array"@,
            ErrorView::ChainOfOneElement => "chain of one element"@,
            ErrorView::WitnessesHaveReferences =>
                "some witnesses have references in their addresses"@,
            ErrorView::UnitNotFound(_) => "unit not found"@,
            ErrorView::NoMainChainUnit(_, _) => "no mc unit?"@,
            ErrorView::NoBall(_) => "no unit?"@,
            ErrorView::ParentsWithoutBalls(_) => "some parents have no balls"@,
            ErrorView::SkiplistWithoutBalls(_) => "some skiplist units have no balls"@,
            ErrorView::NoLastBallUnit(_) => "joint.unit.last_ball_unit is none"@,
            ErrorView::NoMainChainIndex(_) => "mci is None"@,
            ErrorView::NoBestParent(_) => "no best parent"@,
            ErrorView::EarlierAfterLater(_, _) => "earlier > later"@,
            ErrorView::NotIncluded => "not included"@,
            ErrorView::NoQualifyingParent(_) => "no parent that includes target unit"@,
            ErrorView::NoParentsWithSameMci(_) => "no parents with same mci?"@,
            ErrorView::Storage(text) => text,
        }
    }
}

impl Error {
    /// What a peer is told of this failure; the unit, position or count
    /// that it is about is in the failure itself.
    pub fn message(&self) -> (r: String)
        ensures
            r@ == self@.message(),
    {
        match self {
            Error::NoAddresses => "no addresses".to_owned(),
            Error::NoKnownStableUnits => "known_stable_units must be non-empty array".to_owned(),
            Error::NoRequestedJoints => "no requested joints".to_owned(),
            Error::WrongNumberOfWitnesses(_) => "wrong number of witnesses".to_owned(),
            Error::HistoryTooLarge(_) =>
                "your history is too large, consider switching to a full client".to_owned(),
            Error::NoUnits => "no units array".to_owned(),
            Error::ChainOfOneElement => "chain of one element".to_owned(),
            Error::WitnessesHaveReferences =>
                "some witnesses have references in their addresses".to_owned(),
            Error::UnitNotFound(_) => "unit not found".to_owned(),
            Error::NoMainChainUnit(_, _) => "no mc unit?".to_owned(),
            Error::NoBall(_) => "no unit?".to_owned(),
            Error::ParentsWithoutBalls(_) => "some parents have no balls".to_owned(),
            Error::SkiplistWithoutBalls(_) => "some skiplist units have no balls".to_owned(),
            Error::NoLastBallUnit(_) => "joint.unit.last_ball_unit is none".to_owned(),
            Error::NoMainChainIndex(_) => "mci is None".to_owned(),
            Error::NoBestParent(_) => "no best parent".to_owned(),
            Error::EarlierAfterLater(_, _) => "earlier > later".to_owned(),
            Error::NotIncluded => "not included".to_owned(),
            Error::NoQualifyingParent(_) => "no parent that includes target unit".to_owned(),
            Error::NoParentsWithSameMci(_) => "no parents with same mci?".to_owned(),
            Error::Storage(text) => text.clone(),
        }
    }

    /// The family this failure belongs to.
    pub fn kind(&self) -> (k: ErrorKind)
        ensures
            k == self@.kind(),
    {
        match self {
            Error::NoAddresses
            | Error::NoKnownStableUnits
            | Error::NoRequestedJoints
            | Error::WrongNumberOfWitnesses(_)
            | Error::HistoryTooLarge(_)
            | Error::NoUnits
            | Error::ChainOfOneElement
            | Error::WitnessesHaveReferences => ErrorKind::RequestValidation,
            Error::UnitNotFound(_)
            | Error::NoMainChainUnit(_, _)
            | Error::NoBall(_)
            | Error::ParentsWithoutBalls(_)
            | Error::SkiplistWithoutBalls(_)
            | Error::NoLastBallUnit(_)
            | Error::NoMainChainIndex(_)
            | Error::NoBestParent(_) => ErrorKind::NotFound,
            Error::EarlierAfterLater(_, _)
            | Error::NotIncluded
            | Error::NoQualifyingParent(_)
            | Error::NoParentsWithSameMci(_) => ErrorKind::AncestryInconsistency,
            Error::Storage(_) => ErrorKind::Storage,
        }
    }
}

/// The reading of a result whose error is an [`Error`].
pub open spec fn unit_result_view(r: Result<(), Error>) -> Result<(), ErrorView> {
    match r {
        Ok(()) => Ok(()),
        Err(e) => Err(e@),
    }
}

} // verus!
