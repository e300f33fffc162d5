use sbp_settings::setting::{
    kind_or_default, load, parse_flag, parse_optional_field, parse_optional_scalar, Setting, SettingKind, SettingRegistry, SettingValue, TableScalar,
};

fn soln_freq() -> Setting {
    Setting {
        name: "soln_freq".into(),
        group: "solution".into(),
        kind: SettingKind::Integer,
        readonly: false,
        expert: false,
        units: parse_optional_field("Hz"),
        default_value: parse_optional_field("10"),
        description: parse_optional_field("The frequency at which a position solution is computed."),
        notes: None,
        enumerated_possible_values: None,
        digits: None,
    }
}

fn enabled_sbp_messages() -> Setting {
    Setting {
        name: "enabled_sbp_messages".into(),
        group: "tcp_server0".into(),
        kind: SettingKind::String,
        readonly: false,
        expert: false,
        units: parse_optional_field("N/A"),
        default_value: parse_optional_field(""),
        description: parse_optional_field("Messages to send over the TCP server."),
        notes: None,
        enumerated_possible_values: None,
        digits: None,
    }
}

fn bundled() -> Vec<Setting> {
    vec![soln_freq(), enabled_sbp_messages()]
}

#[test]
fn test_find_setting() {
    let mut registry = SettingRegistry::new(bundled());
    assert_eq!(
        Setting::find(&mut registry, "solution", "soln_freq"),
        Some(&Setting {
            name: "soln_freq".into(),
            group: "solution".into(),
            kind: SettingKind::Integer,
            readonly: false,
            expert: false,
            units: Some("Hz".into()),
            default_value: Some("10".into()),
            description: Some("The frequency at which a position solution is computed.".into()),
            notes: None,
            enumerated_possible_values: None,
            digits: None,
        })
    );

    assert_eq!(Setting::find(&mut registry, "solution", "froo_froo"), None);
}

#[test]
fn test_na_is_none() {
    let mut registry = SettingRegistry::new(bundled());
    let setting = Setting::find(&mut registry, "tcp_server0", "enabled_sbp_messages").unwrap();
    assert_eq!(setting.units, None);
}

#[test]
fn test_bool_display() {
    assert_eq!(SettingValue::Boolean(true).to_string(), "True");
    assert_eq!(SettingValue::Boolean(false).to_string(), "False");
}

#[test]
fn test_load() {
    let mut registry = SettingRegistry::new(bundled());
    load(
        &mut registry,
        vec![Setting {
            name: "aname".into(),
            group: "agroup".into(),
            kind: SettingKind::String,
            expert: false,
            readonly: false,
            description: None,
            default_value: None,
            notes: None,
            units: None,
            enumerated_possible_values: None,
            digits: None,
        }],
    )
    .unwrap();
    assert!(Setting::find(&mut registry, "solution", "soln_freq").is_none());
    assert!(Setting::find(&mut registry, "agroup", "aname").is_some());
}

#[test]
fn load_is_refused_once_the_table_is_fixed() {
    let mut registry = SettingRegistry::new(bundled());
    assert!(load(&mut registry, vec![]).is_ok());
    let refused = load(&mut registry, vec![soln_freq()]).unwrap_err();
    assert_eq!(refused, vec![soln_freq()]);
    assert!(Setting::find(&mut registry, "solution", "soln_freq").is_none());
}

#[test]
fn a_lookup_fixes_the_bundled_table() {
    let mut registry = SettingRegistry::new(bundled());
    assert_eq!(Setting::all(&mut registry).len(), 2);
    assert!(load(&mut registry, vec![]).is_err());
    assert!(Setting::find(&mut registry, "solution", "soln_freq").is_some());
}

#[test]
fn find_gives_the_first_entry() {
    let mut second = soln_freq();
    second.units = Some("kHz".into());
    let mut registry = SettingRegistry::new(vec![soln_freq(), second]);
    let found = Setting::find(&mut registry, "solution", "soln_freq").unwrap();
    assert_eq!(found.units, Some("Hz".to_string()));
}

#[test]
fn new_gives_a_bare_entry_for_unknown_settings() {
    let mut registry = SettingRegistry::new(bundled());
    let s = Setting::new(&mut registry, "foo", "bar");
    assert_eq!(
        s,
        Setting {
            group: "foo".into(),
            name: "bar".into(),
            ..Default::default()
        }
    );
    assert_eq!(s.kind, SettingKind::String);
    assert_eq!(Setting::new(&mut registry, "solution", "soln_freq"), soln_freq());
}

#[test]
fn with_fmt_type_takes_the_enum_values() {
    let mut antenna = Setting {
        group: "frontend".into(),
        name: "antenna_selection".into(),
        kind: SettingKind::Enum,
        ..Default::default()
    };
    antenna.enumerated_possible_values = Some("Primary,Secondary".into());
    let mut registry = SettingRegistry::new(vec![antenna, soln_freq()]);
    let s = Setting::with_fmt_type(&mut registry, "frontend", "antenna_selection", "enum:Primary,Secondary,Tertiary");
    assert_eq!(s.enumerated_possible_values, Some("Primary,Secondary,Tertiary".into()));
    let s = Setting::with_fmt_type(&mut registry, "frontend", "antenna_selection", "a:b:c");
    assert_eq!(s.enumerated_possible_values, Some("b:c".into()));
    let s = Setting::with_fmt_type(&mut registry, "frontend", "antenna_selection", "nocolon");
    assert_eq!(s.enumerated_possible_values, Some("Primary,Secondary".into()));
    let s = Setting::with_fmt_type(&mut registry, "solution", "soln_freq", "enum:a,b");
    assert_eq!(s.enumerated_possible_values, None);
}

#[test]
fn kind_names() {
    assert_eq!(SettingKind::Integer.to_str(), "integer");
    assert_eq!(SettingKind::Boolean.to_str(), "boolean");
    assert_eq!(SettingKind::Float.to_str(), "float");
    assert_eq!(SettingKind::Double.to_str(), "double");
    assert_eq!(SettingKind::String.to_str(), "string");
    assert_eq!(SettingKind::Enum.to_str(), "enum");
    assert_eq!(SettingKind::PackedBitfield.to_str(), "packed bitfield");
    assert_eq!(SettingKind::default(), SettingKind::String);
}

#[test]
fn parse_values_by_kind() {
    assert_eq!(SettingValue::parse("10", SettingKind::Integer), Some(SettingValue::Integer(10)));
    assert_eq!(SettingValue::parse("-42", SettingKind::Integer), Some(SettingValue::Integer(-42)));
    assert_eq!(SettingValue::parse("+7", SettingKind::Integer), Some(SettingValue::Integer(7)));
    assert_eq!(SettingValue::parse("1.5", SettingKind::Integer), None);
    assert_eq!(SettingValue::parse("True", SettingKind::Boolean), Some(SettingValue::Boolean(true)));
    assert_eq!(SettingValue::parse("False", SettingKind::Boolean), Some(SettingValue::Boolean(false)));
    assert_eq!(SettingValue::parse("true", SettingKind::Boolean), None);
    assert_eq!(SettingValue::parse("0.1", SettingKind::Float), Some(SettingValue::Float("0.1".into())));
    assert_eq!(SettingValue::parse("0.1", SettingKind::Double), Some(SettingValue::Float("0.1".into())));
    assert_eq!(SettingValue::parse("abc", SettingKind::Double), None);
    assert_eq!(SettingValue::parse("foo", SettingKind::String), Some(SettingValue::String("foo".into())));
    assert_eq!(SettingValue::parse("Secondary", SettingKind::Enum), Some(SettingValue::String("Secondary".into())));
    assert_eq!(SettingValue::parse("0x3", SettingKind::PackedBitfield), Some(SettingValue::String("0x3".into())));
    assert_eq!(SettingValue::parse("", SettingKind::String), None);
    assert_eq!(SettingValue::parse("", SettingKind::Integer), None);
}

#[test]
fn value_text_reads_back() {
    for n in [0i64, 1, -1, 9, 10, 99, 100, 123456789, -987654321, i64::MAX, i64::MIN] {
        let v = SettingValue::Integer(n);
        assert_eq!(v.to_string(), n.to_string());
        assert_eq!(SettingValue::parse(&v.to_string(), SettingKind::Integer), Some(v));
    }
    for b in [true, false] {
        let v = SettingValue::Boolean(b);
        assert_eq!(SettingValue::parse(&v.to_string(), SettingKind::Boolean), Some(v));
    }
    assert_eq!(SettingValue::Float("1e3".into()).to_string(), "1e3");
    assert_eq!(SettingValue::String("x y".into()).to_string(), "x y");
}

#[test]
fn table_flags_and_optional_texts() {
    assert_eq!(parse_flag("True"), Some(true));
    assert_eq!(parse_flag("true"), Some(true));
    assert_eq!(parse_flag("False"), Some(false));
    assert_eq!(parse_flag("false"), Some(false));
    assert_eq!(parse_flag("TRUE"), None);
    assert_eq!(parse_flag(""), None);
    assert_eq!(parse_optional_field("N/A"), None);
    assert_eq!(parse_optional_field(""), None);
    assert_eq!(parse_optional_field("n/a"), Some("n/a".to_string()));
    assert_eq!(parse_optional_field("Hz"), Some("Hz".to_string()));
}

#[test]
fn table_scalars_as_optional_texts() {
    assert_eq!(parse_optional_scalar(TableScalar::Text("N/A".into())), None);
    assert_eq!(parse_optional_scalar(TableScalar::Text("".into())), None);
    assert_eq!(parse_optional_scalar(TableScalar::Text("m/s".into())), Some("m/s".to_string()));
    assert_eq!(parse_optional_scalar(TableScalar::Null), None);
    assert_eq!(parse_optional_scalar(TableScalar::Unsigned(10)), Some("10".to_string()));
    assert_eq!(parse_optional_scalar(TableScalar::Unsigned(0)), Some("0".to_string()));
    assert_eq!(parse_optional_scalar(TableScalar::Unsigned(u64::MAX)), Some(u64::MAX.to_string()));
    assert_eq!(parse_optional_scalar(TableScalar::Flag(true)), Some("true".to_string()));
    assert_eq!(parse_optional_scalar(TableScalar::Flag(false)), Some("false".to_string()));
}

#[test]
fn entries_without_a_kind_are_strings() {
    assert_eq!(kind_or_default(None), SettingKind::String);
    assert_eq!(kind_or_default(Some(SettingKind::Integer)), SettingKind::Integer);
    assert_eq!(kind_or_default(None).to_str(), "string");
}
