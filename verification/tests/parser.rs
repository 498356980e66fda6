use aconfig::model::{Declaration, FlagKey, FlagState, Override, Permission};
use aconfig::parser::{
    holds_key, parse, parse_line, parse_permission, parse_state, ParseError, Record, SourceKind,
    Violation,
};

fn parser_key(namespace: &str, name: &str) -> FlagKey {
    FlagKey::new(namespace.as_bytes().to_vec(), name.as_bytes().to_vec()).unwrap()
}

fn parser_error(line: usize, violation: Violation) -> ParseError {
    ParseError { source: b"flags.txt".to_vec(), line, violation }
}

fn parse_declarations_of(text: &str) -> Result<Vec<Record>, ParseError> {
    parse(SourceKind::Declarations, b"flags.txt", text.as_bytes())
}

fn parse_overrides_of(text: &str) -> Result<Vec<Record>, ParseError> {
    parse(SourceKind::Overrides, b"flags.txt", text.as_bytes())
}

#[test]
fn state_words() {
    assert_eq!(parse_state(b"ENABLED"), Some(FlagState::Enabled));
    assert_eq!(parse_state(b"DISABLED"), Some(FlagState::Disabled));
    assert_eq!(parse_state(b"enabled"), None);
    assert_eq!(parse_state(b"ENABLED "), None);
    assert_eq!(parse_state(b"ENABLE"), None);
    assert_eq!(parse_state(b"ENABLEX"), None);
    assert_eq!(parse_state(b""), None);
    assert_eq!(parse_state(b"true"), None);
    assert_eq!(parse_state(b"READ_ONLY"), None);
}

#[test]
fn permission_words() {
    assert_eq!(parse_permission(b"READ_ONLY"), Some(Permission::ReadOnly));
    assert_eq!(parse_permission(b"READ_WRITE"), Some(Permission::ReadWrite));
    assert_eq!(parse_permission(b"read_only"), None);
    assert_eq!(parse_permission(b"READ-ONLY"), None);
    assert_eq!(parse_permission(b"READ_WRITE!"), None);
    assert_eq!(parse_permission(b""), None);
    assert_eq!(parse_permission(b"ENABLED"), None);
}

#[test]
fn a_declaration_line() {
    let line = b"core\tflag_a\tDISABLED\tREAD_WRITE\tb/123\tTurns the thing on.";
    assert_eq!(
        parse_line(SourceKind::Declarations, line, b"decl"),
        Ok(Record::Declaration(Declaration {
            key: parser_key("core", "flag_a"),
            description: b"Turns the thing on.".to_vec(),
            tracking: b"b/123".to_vec(),
            default_state: FlagState::Disabled,
            permission: Permission::ReadWrite,
            source: b"decl".to_vec(),
        }))
    );
}

#[test]
fn an_override_line() {
    assert_eq!(
        parse_line(SourceKind::Overrides, b"core\tflag_a\tENABLED", b"ovr"),
        Ok(Record::Override(Override {
            key: parser_key("core", "flag_a"),
            state: FlagState::Enabled,
            source: b"ovr".to_vec(),
        }))
    );
}

#[test]
fn tracking_and_description_may_be_empty_or_hold_any_text() {
    let line = "core\tflag_a\tENABLED\tREAD_ONLY\t\t";
    assert_eq!(
        parse_line(SourceKind::Declarations, line.as_bytes(), b"decl"),
        Ok(Record::Declaration(Declaration {
            key: parser_key("core", "flag_a"),
            description: Vec::new(),
            tracking: Vec::new(),
            default_state: FlagState::Enabled,
            permission: Permission::ReadOnly,
            source: b"decl".to_vec(),
        }))
    );
    let line = b"core\tflag_a\tENABLED\tREAD_ONLY\thttps://x/1?a=b\tna\xc3\xafve \"text\" # \0 here";
    match parse_line(SourceKind::Declarations, line, b"decl") {
        Ok(Record::Declaration(d)) => {
            assert_eq!(d.tracking, b"https://x/1?a=b".to_vec());
            assert_eq!(d.description, b"na\xc3\xafve \"text\" # \0 here".to_vec());
        }
        other => panic!("unexpected {other:?}"),
    }
}

#[test]
fn too_few_cells_is_a_missing_field() {
    for line in ["core", "core\tflag_a", "core\tflag_a\tENABLED\tREAD_ONLY\tb/1"] {
        assert_eq!(
            parse_line(SourceKind::Declarations, line.as_bytes(), b"s"),
            Err(Violation::MissingField)
        );
    }
    for line in ["core", "core\tflag_a"] {
        assert_eq!(
            parse_line(SourceKind::Overrides, line.as_bytes(), b"s"),
            Err(Violation::MissingField)
        );
    }
}

#[test]
fn too_many_cells_is_malformed() {
    assert_eq!(
        parse_line(SourceKind::Declarations, b"core\ta\tENABLED\tREAD_ONLY\tb/1\tx\ty", b"s"),
        Err(Violation::Malformed)
    );
    assert_eq!(
        parse_line(SourceKind::Overrides, b"core\ta\tENABLED\t", b"s"),
        Err(Violation::Malformed)
    );
    // A declaration is not an override.
    assert_eq!(
        parse_line(SourceKind::Overrides, b"core\ta\tENABLED\tREAD_ONLY\tb/1\tx", b"s"),
        Err(Violation::Malformed)
    );
}

#[test]
fn a_bad_identifier_is_malformed() {
    for line in [
        "\tflag_a\tENABLED",
        "core\t\tENABLED",
        "co re\tflag_a\tENABLED",
        "core\tflag.a\tENABLED",
        " core\tflag_a\tENABLED",
        "core\tflag_a \tENABLED",
    ] {
        assert_eq!(
            parse_line(SourceKind::Overrides, line.as_bytes(), b"s"),
            Err(Violation::Malformed)
        );
    }
}

#[test]
fn a_bad_word_is_an_invalid_value() {
    assert_eq!(
        parse_line(SourceKind::Overrides, b"core\tflag_a\tenabled", b"s"),
        Err(Violation::InvalidValue)
    );
    assert_eq!(
        parse_line(SourceKind::Overrides, b"core\tflag_a\t", b"s"),
        Err(Violation::InvalidValue)
    );
    assert_eq!(
        parse_line(SourceKind::Declarations, b"core\tflag_a\tON\tREAD_ONLY\tb/1\tx", b"s"),
        Err(Violation::InvalidValue)
    );
    assert_eq!(
        parse_line(SourceKind::Declarations, b"core\tflag_a\tENABLED\tWRITE\tb/1\tx", b"s"),
        Err(Violation::InvalidValue)
    );
}

#[test]
fn the_checks_of_a_line_come_in_order() {
    // Cells are counted before anything is read.
    assert_eq!(
        parse_line(SourceKind::Overrides, b"co re\tflag_a", b"s"),
        Err(Violation::MissingField)
    );
    // Identifiers come before words.
    assert_eq!(
        parse_line(SourceKind::Declarations, b"co re\tflag_a\tON\tWRITE\tb/1\tx", b"s"),
        Err(Violation::Malformed)
    );
}

#[test]
fn a_source_gives_its_records_in_line_order() {
    let text = "zeta\tz\tENABLED\nalpha\ta\tDISABLED\nmid\tm\tENABLED\n";
    let records = parse_overrides_of(text).unwrap();
    assert_eq!(
        records,
        vec![
            Record::Override(Override {
                key: parser_key("zeta", "z"),
                state: FlagState::Enabled,
                source: b"flags.txt".to_vec(),
            }),
            Record::Override(Override {
                key: parser_key("alpha", "a"),
                state: FlagState::Disabled,
                source: b"flags.txt".to_vec(),
            }),
            Record::Override(Override {
                key: parser_key("mid", "m"),
                state: FlagState::Enabled,
                source: b"flags.txt".to_vec(),
            }),
        ]
    );
}

#[test]
fn empty_lines_and_comments_are_passed_over() {
    let text = "# declarations\n\ncore\tflag_a\tENABLED\tREAD_ONLY\tb/1\tfirst\n\n#core\tflag_a\tx\n";
    let records = parse_declarations_of(text).unwrap();
    assert_eq!(records.len(), 1);
    assert_eq!(records[0].key(), &parser_key("core", "flag_a"));
}

#[test]
fn an_empty_source_has_no_records() {
    assert_eq!(parse_declarations_of(""), Ok(vec![]));
    assert_eq!(parse_overrides_of("\n\n"), Ok(vec![]));
    assert_eq!(parse_overrides_of("# nothing"), Ok(vec![]));
}

#[test]
fn the_last_line_needs_no_line_feed() {
    let records = parse_overrides_of("core\tflag_a\tENABLED").unwrap();
    assert_eq!(records.len(), 1);
}

#[test]
fn a_line_of_blanks_is_a_record_at_fault() {
    assert_eq!(parse_overrides_of(" \n"), Err(parser_error(1, Violation::MissingField)));
    assert_eq!(
        parse_overrides_of("core\tflag_a\tENABLED\r\n"),
        Err(parser_error(1, Violation::InvalidValue))
    );
    assert_eq!(
        parse_overrides_of(" # indented\n"),
        Err(parser_error(1, Violation::MissingField))
    );
}

#[test]
fn the_error_names_source_line_and_violation() {
    let text = "# header\ncore\tflag_a\tENABLED\ncore\tflag_b\nmore";
    assert_eq!(parse_overrides_of(text), Err(parser_error(3, Violation::MissingField)));
    let text = "\n\n\ncore\tflag_a\tMAYBE\n";
    assert_eq!(parse_overrides_of(text), Err(parser_error(4, Violation::InvalidValue)));
    let text = "core\tflag a\tENABLED\n";
    assert_eq!(parse_overrides_of(text), Err(parser_error(1, Violation::Malformed)));
}

#[test]
fn the_first_line_at_fault_is_reported() {
    let text = "core\tflag_a\tENABLED\nbad\ncore\tflag_a\tENABLED\ncore\tb\tWHAT\n";
    assert_eq!(parse_overrides_of(text), Err(parser_error(2, Violation::MissingField)));
}

#[test]
fn a_key_may_occur_once_in_a_source() {
    let text = "core\tflag_a\tENABLED\ncore\tflag_b\tENABLED\n# again\ncore\tflag_a\tDISABLED\n";
    assert_eq!(parse_overrides_of(text), Err(parser_error(4, Violation::DuplicateKey)));
    let text = "core\tf\tENABLED\tREAD_ONLY\tb/1\tx\ncore\tf\tENABLED\tREAD_ONLY\tb/1\tx\n";
    assert_eq!(parse_declarations_of(text), Err(parser_error(2, Violation::DuplicateKey)));
}

#[test]
fn the_same_name_in_two_namespaces_is_two_keys() {
    let text = "core\tflag\tENABLED\nui\tflag\tENABLED\ncore\tFlag\tENABLED\n";
    assert_eq!(parse_overrides_of(text).unwrap().len(), 3);
}

#[test]
fn a_line_wrong_by_itself_is_not_a_duplicate() {
    let text = "core\tflag_a\tENABLED\ncore\tflag_a\tMAYBE\n";
    assert_eq!(parse_overrides_of(text), Err(parser_error(2, Violation::InvalidValue)));
}

#[test]
fn records_carry_the_label_of_their_source() {
    let records = parse(SourceKind::Overrides, b"device/overrides", b"a\tb\tENABLED").unwrap();
    match &records[0] {
        Record::Override(o) => assert_eq!(o.source, b"device/overrides".to_vec()),
        other => panic!("unexpected {other:?}"),
    }
    assert_eq!(
        parse(SourceKind::Overrides, b"device/overrides", b"a"),
        Err(ParseError {
            source: b"device/overrides".to_vec(),
            line: 1,
            violation: Violation::MissingField
        })
    );
}

#[test]
fn holds_key_finds_a_key_among_records() {
    let records = parse_overrides_of("core\ta\tENABLED\nui\tb\tDISABLED\n").unwrap();
    assert!(holds_key(&records, &parser_key("core", "a")));
    assert!(holds_key(&records, &parser_key("ui", "b")));
    assert!(!holds_key(&records, &parser_key("core", "b")));
    assert!(!holds_key(&Vec::new(), &parser_key("core", "a")));
}
