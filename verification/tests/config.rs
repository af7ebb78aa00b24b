use pprz::config::{assemble_airframe, parse_airframe, AirframeId, ConfigError, ParseError, Target};

#[test]
fn rejects_empty_identifier() {
    assert_eq!(AirframeId::new("  "), Err(ConfigError::EmptyAirframeId));
}

#[test]
fn accepts_identifier_with_visible_character() {
    let id = AirframeId::new(" x\t").expect("has a visible character");
    assert_eq!(id.as_str(), " x\t");
    assert_eq!(AirframeId::new("\u{3000}\u{a0}\n"), Err(ConfigError::EmptyAirframeId));
    assert_eq!(AirframeId::new(""), Err(ConfigError::EmptyAirframeId));
}

#[test]
fn parses_bebop_style_airframe_targets() {
    let xml = r#"
        <!DOCTYPE airframe SYSTEM "../airframe.dtd">
        <airframe name="bebop">
          <firmware name="rotorcraft">
            <target name="ap" board="bebop"/>
            <target name="nps" board="pc"/>
          </firmware>
        </airframe>
    "#;

    let airframe = parse_airframe(xml).expect("fixture is valid");
    assert_eq!(airframe.name.as_str(), "bebop");
    assert_eq!(airframe.firmware.name, "rotorcraft");
    assert_eq!(
        airframe.firmware.targets,
        vec![
            Target { name: "ap".into(), board: "bebop".into() },
            Target { name: "nps".into(), board: "pc".into() },
        ]
    );
}

#[test]
fn rejects_target_without_board() {
    let xml = r#"<airframe name="test"><firmware name="fixedwing"><target name="ap"/></firmware></airframe>"#;
    assert_eq!(parse_airframe(xml), Err(ParseError::MissingTargetAttribute("board")));
}

#[test]
fn rejects_target_without_name() {
    let xml = r#"<airframe name="test"><firmware name="fixedwing"><target board="b"/></firmware></airframe>"#;
    assert_eq!(parse_airframe(xml), Err(ParseError::MissingTargetAttribute("name")));
}

#[test]
fn reports_missing_names() {
    assert_eq!(parse_airframe("<airframe><firmware name=\"f\"/></airframe>"), Err(ParseError::MissingAirframeName));
    assert_eq!(parse_airframe("<airframe name=\"a\"></airframe>"), Err(ParseError::MissingFirmwareName));
    assert_eq!(
        parse_airframe("<airframe name=\" \"><firmware name=\"f\"></firmware></airframe>"),
        Err(ParseError::InvalidAirframeName(ConfigError::EmptyAirframeId))
    );
}

#[test]
fn reads_only_the_first_firmware_and_its_nested_targets() {
    let xml = r#"<airframe name="a &amp; b">
        <firmware name="one"><target name="t1" board="b1"/>
          <firmware name="inner"><target name="t2" board="b2"/></firmware>
          <target name="t3" board="b3"></target>
        </firmware>
        <target name="outside" board="x"/>
        <firmware name="two"><target name="t4" board="b4"/></firmware>
    </airframe>"#;
    let airframe = parse_airframe(xml).expect("valid");
    assert_eq!(airframe.name.as_str(), "a & b");
    assert_eq!(airframe.firmware.name, "one");
    let names: Vec<&str> = airframe.firmware.targets.iter().map(|t| t.name.as_str()).collect();
    assert_eq!(names, vec!["t1", "t2", "t3"]);
}

#[test]
fn reports_malformed_xml() {
    assert!(matches!(parse_airframe("<airframe name=\"a\"><firmware name=\"f\"></airframe>"), Err(ParseError::Xml(_))));
    assert!(matches!(parse_airframe("<airframe name=\"a&bogus;\"></airframe>"), Err(ParseError::Xml(_))));
}

#[test]
fn assembles_airframe_from_findings() {
    let target = Target { name: "ap".into(), board: "b".into() };
    let airframe = assemble_airframe(Some("x".into()), Some("fw".into()), vec![target.clone()]).expect("complete");
    assert_eq!(airframe.name.as_str(), "x");
    assert_eq!(airframe.firmware.name, "fw");
    assert_eq!(airframe.firmware.targets, vec![target]);
    assert_eq!(assemble_airframe(None, Some("fw".into()), vec![]), Err(ParseError::MissingAirframeName));
    assert_eq!(
        assemble_airframe(Some("\t".into()), None, vec![]),
        Err(ParseError::InvalidAirframeName(ConfigError::EmptyAirframeId))
    );
    assert_eq!(assemble_airframe(Some("x".into()), None, vec![]), Err(ParseError::MissingFirmwareName));
}
