use trustnote::config::{
    get_genesis_unit, get_hub_server_port, get_initial_db_path, get_remote_hub_url, Settings,
    COUNT_WITNESSES,
};
use trustnote::my_witness::read_my_witnesses;

fn twelve() -> Vec<String> {
    (0..12).map(|i| format!("WITNESS{:02}", i)).collect()
}

fn settings() -> Settings {
    Settings {
        witnesses: Some(twelve()),
        genesis_unit: Some("GENESIS".to_string()),
        remote_hub: None,
        hub_server_port: None,
        initial_db_path: None,
    }
}

#[test]
fn get_witnesses() {
    let my_witnesses = read_my_witnesses(Vec::new(), &settings());
    assert_eq!(my_witnesses.witnesses.len(), COUNT_WITNESSES);
}

#[test]
fn witnesses_of_the_settings_are_taken_where_none_are_stored() {
    let r = read_my_witnesses(Vec::new(), &settings());
    assert_eq!(r.witnesses, twelve());
    assert!(r.to_store);
}

#[test]
fn stored_witnesses_win_over_the_settings() {
    let stored: Vec<String> = (0..12).map(|i| format!("STORED{}", i)).collect();
    let r = read_my_witnesses(stored.clone(), &settings());
    assert_eq!(r.witnesses, stored);
    assert!(!r.to_store);
}

#[test]
fn witness_list_comes_back_as_configured() {
    let w = trustnote::config::get_witnesses(&settings());
    assert_eq!(w.len(), 12);
    assert_eq!(w.to_vec(), twelve());
    assert_eq!(w[0], "WITNESS00");
    assert_eq!(w[11], "WITNESS11");
}

#[test]
fn genesis_unit_comes_back_as_configured() {
    assert_eq!(get_genesis_unit(&settings()), "GENESIS");
}

#[test]
fn defaults_apply_where_the_settings_are_silent() {
    let s = settings();
    assert_eq!(get_remote_hub_url(&s), "127.0.0.1:6655");
    assert_eq!(get_hub_server_port(&s), 6615);
    assert_eq!(get_initial_db_path(&s), "db/initial.trustnote.sqlite");
}

#[test]
fn settings_override_the_defaults() {
    let s = Settings {
        witnesses: None,
        genesis_unit: None,
        remote_hub: Some("hub.example:6616".to_string()),
        hub_server_port: Some(7000),
        initial_db_path: Some("/tmp/initial.sqlite".to_string()),
    };
    assert_eq!(get_remote_hub_url(&s), "hub.example:6616");
    assert_eq!(get_hub_server_port(&s), 7000);
    assert_eq!(get_initial_db_path(&s), "/tmp/initial.sqlite");
}
