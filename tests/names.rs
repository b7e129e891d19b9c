use irrc::{AsSet, AutNum, Mntner, RouteSet, SetComponent};

#[test]
fn cannot_be_empty() {
    assert!("".parse::<AsSet>().is_err())
}

#[test]
fn simple_set_parses() {
    assert_eq!(
        "AS-FOO".parse::<AsSet>().unwrap().components(),
        &vec![SetComponent::Named("AS-FOO".to_string())]
    )
}

#[test]
fn hierarchical_set_parses() {
    assert_eq!(
        "AS65000:AS-FOO".parse::<AsSet>().unwrap().components(),
        &vec![
            SetComponent::AutNum(AutNum::from(65000)),
            SetComponent::Named("AS-FOO".to_string())
        ]
    )
}

#[test]
fn cannot_be_single_autnnum() {
    assert!("AS65000".parse::<AsSet>().is_err())
}

#[test]
fn must_have_named_component() {
    assert!("AS65000:AS65001".parse::<AsSet>().is_err())
}

#[test]
fn types_cannot_be_empty() {
    assert!("".parse::<RouteSet>().is_err())
}

#[test]
fn types_simple_set_parses() {
    assert_eq!(
        "RS-FOO".parse::<RouteSet>().unwrap().components(),
        &vec![SetComponent::Named("RS-FOO".to_string())]
    )
}

#[test]
fn types_hierarchical_set_parses() {
    assert_eq!(
        "AS65000:RS-FOO".parse::<RouteSet>().unwrap().components(),
        &vec![
            SetComponent::AutNum(AutNum::from(65000)),
            SetComponent::Named("RS-FOO".to_string())
        ]
    )
}

#[test]
fn types_cannot_be_single_autnnum() {
    assert!("AS65000".parse::<RouteSet>().is_err())
}

#[test]
fn types_must_have_named_component() {
    assert!("AS65000:AS65001".parse::<RouteSet>().is_err())
}

#[test]
fn autnum_parses_in_any_case() {
    assert_eq!("AS65000".parse::<AutNum>().unwrap().asn(), 65000);
    assert_eq!("as65000".parse::<AutNum>().unwrap().asn(), 65000);
    assert_eq!("aS4294967295".parse::<AutNum>().unwrap().asn(), 4294967295);
}

#[test]
fn autnum_rejects_overflow_and_junk() {
    assert!("AS4294967296".parse::<AutNum>().is_err());
    assert!("AS".parse::<AutNum>().is_err());
    assert!("AS12x".parse::<AutNum>().is_err());
    assert!("65000".parse::<AutNum>().is_err());
    assert!("AS-1".parse::<AutNum>().is_err());
}

#[test]
fn autnum_renders_canonically() {
    assert_eq!("as0065000".parse::<AutNum>().unwrap().to_text(), "AS65000");
    assert_eq!(AutNum::from(0).to_text(), "AS0");
}

#[test]
fn set_names_keep_their_case_and_render_back() {
    let set: AsSet = "as65000:as-Foo_Bar-1".parse().unwrap();
    assert_eq!(set.to_text(), "AS65000:as-Foo_Bar-1");
    let again: AsSet = set.to_text().parse().unwrap();
    assert_eq!(again, set);
}

#[test]
fn set_names_reject_bad_parts() {
    assert!("AS-FOO:".parse::<AsSet>().is_err());
    assert!(":AS-FOO".parse::<AsSet>().is_err());
    assert!("AS-".parse::<AsSet>().is_err());
    assert!("AS-FO O".parse::<AsSet>().is_err());
    assert!("RS-FOO".parse::<AsSet>().is_err());
    assert!("AS-FOO".parse::<RouteSet>().is_err());
    assert!("AS-FÖÖ".parse::<AsSet>().is_err());
}

#[test]
fn mntner_parses_name_characters_only() {
    let m: Mntner = "MAINT-EXAMPLE_1".parse().unwrap();
    assert_eq!(m.to_text(), "MAINT-EXAMPLE_1");
    assert!("".parse::<Mntner>().is_err());
    assert!("MAINT EXAMPLE".parse::<Mntner>().is_err());
}
