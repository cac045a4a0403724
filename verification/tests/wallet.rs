use trustnote::config::{ALT, LIBRARY, LIBRARY_VERSION, VERSION};
use trustnote::error::{Error, ErrorKind};
use trustnote::wallet::{Answer, Notice, VersionInfo, WalletData};

fn s(x: &str) -> String {
    x.to_string()
}

#[test]
fn wallet_announces_its_version() {
    let v = WalletData::send_version();
    assert_eq!(
        v,
        VersionInfo {
            protocol_version: s("1.0"),
            alt: s("1"),
            library: s("rust-trustnote"),
            library_version: s("0.1.0"),
            program: s("rust-trustnote-ttt"),
            program_version: s("0.1.0"),
        }
    );
    assert_eq!((VERSION, ALT, LIBRARY, LIBRARY_VERSION), ("1.0", "1", "rust-trustnote", "0.1.0"));
}

#[test]
fn peers_of_another_protocol_or_network_are_told_apart() {
    let mut v = WalletData::send_version();
    assert!(WalletData::on_version(&v));
    v.program = s("something-else");
    assert!(WalletData::on_version(&v));
    v.alt = s("2");
    assert!(!WalletData::on_version(&v));
    v.alt = s("1");
    v.protocol_version = s("1.1");
    assert!(!WalletData::on_version(&v));
}

#[test]
fn notices_are_told_apart_by_their_subject() {
    assert_eq!(WalletData::on_message(&s("version")), Notice::Version);
    assert_eq!(WalletData::on_message(&s("hub/challenge")), Notice::HubChallenge);
    assert_eq!(WalletData::on_message(&s("heartbeat")), Notice::Unknown);
    assert_eq!(WalletData::on_message(&s("")), Notice::Unknown);
}

#[test]
fn a_wallet_answers_heartbeats_and_nothing_else() {
    assert_eq!(WalletData::on_request(&s("heartbeat")), Answer::Null);
    assert_eq!(WalletData::on_request(&s("subscribe")), Answer::CannotSubscribe);
    assert_eq!(WalletData::on_request(&s("version")), Answer::UnknownCommand);
    assert_eq!(WalletData::default(), WalletData {});
}

#[test]
fn every_failure_belongs_to_a_family() {
    let u = || s("UNIT");
    for e in [
        Error::NoAddresses,
        Error::NoKnownStableUnits,
        Error::NoRequestedJoints,
        Error::WrongNumberOfWitnesses(3),
        Error::HistoryTooLarge(1001),
        Error::NoUnits,
        Error::ChainOfOneElement,
        Error::WitnessesHaveReferences,
    ] {
        assert_eq!(e.kind(), ErrorKind::RequestValidation);
    }
    for e in [
        Error::UnitNotFound(u()),
        Error::NoMainChainUnit(4, 0),
        Error::NoBall(u()),
        Error::ParentsWithoutBalls(u()),
        Error::SkiplistWithoutBalls(u()),
        Error::NoLastBallUnit(u()),
        Error::NoMainChainIndex(u()),
        Error::NoBestParent(u()),
    ] {
        assert_eq!(e.kind(), ErrorKind::NotFound);
    }
    for e in [
        Error::EarlierAfterLater(5, 3),
        Error::NotIncluded,
        Error::NoQualifyingParent(u()),
        Error::NoParentsWithSameMci(u()),
    ] {
        assert_eq!(e.kind(), ErrorKind::AncestryInconsistency);
    }
    assert_eq!(Error::Storage(s("disk")).kind(), ErrorKind::Storage);
}

#[test]
fn failures_are_told_in_words() {
    assert_eq!(Error::NoAddresses.message(), "no addresses");
    assert_eq!(
        Error::NoKnownStableUnits.message(),
        "known_stable_units must be non-empty array"
    );
    assert_eq!(Error::NoRequestedJoints.message(), "no requested joints");
    assert_eq!(Error::WrongNumberOfWitnesses(11).message(), "wrong number of witnesses");
    assert_eq!(
        Error::HistoryTooLarge(1001).message(),
        "your history is too large, consider switching to a full client"
    );
    assert_eq!(Error::NoUnits.message(), "no units array");
    assert_eq!(Error::ChainOfOneElement.message(), "chain of one element");
    assert_eq!(
        Error::WitnessesHaveReferences.message(),
        "some witnesses have references in their addresses"
    );
    assert_eq!(Error::UnitNotFound(s("U")).message(), "unit not found");
    assert_eq!(Error::NoMainChainUnit(3, 0).message(), "no mc unit?");
    assert_eq!(Error::NoBall(s("U")).message(), "no unit?");
    assert_eq!(Error::ParentsWithoutBalls(s("U")).message(), "some parents have no balls");
    assert_eq!(
        Error::SkiplistWithoutBalls(s("U")).message(),
        "some skiplist units have no balls"
    );
    assert_eq!(Error::NoLastBallUnit(s("U")).message(), "joint.unit.last_ball_unit is none");
    assert_eq!(Error::NoMainChainIndex(s("U")).message(), "mci is None");
    assert_eq!(Error::NoBestParent(s("U")).message(), "no best parent");
    assert_eq!(Error::EarlierAfterLater(4, 2).message(), "earlier > later");
    assert_eq!(Error::NotIncluded.message(), "not included");
    assert_eq!(
        Error::NoQualifyingParent(s("U")).message(),
        "no parent that includes target unit"
    );
    assert_eq!(Error::NoParentsWithSameMci(s("U")).message(), "no parents with same mci?");
    assert_eq!(Error::Storage(s("database is locked")).message(), "database is locked");
}
