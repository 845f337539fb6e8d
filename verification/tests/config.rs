use logiclink_desk::config::{Config, DeskTarget};

#[test]
fn default_config_remembers_no_desk() {
    assert!(Config::default().desk.is_none());
}

#[test]
fn config_holds_a_desk() {
    let config = Config {
        desk: Some(DeskTarget { name: "LOGIClink C1022".to_string(), address: "AA:BB".to_string() }),
    };
    let desk = config.clone().desk.unwrap();
    assert_eq!(desk.name, "LOGIClink C1022");
    assert_eq!(desk.address, "AA:BB");
}
