use aconfig::cache::Cache;
use aconfig::commands::{create_cache, read_declarations, read_overrides, BuildError, Input};
use aconfig::merge::MergeError;
use aconfig::model::{FlagKey, FlagState, Permission, ResolvedBy};
use aconfig::parser::{ParseError, Violation};

fn input(source: &str, text: &str) -> Input {
    Input { source: source.as_bytes().to_vec(), bytes: text.as_bytes().to_vec() }
}

fn commands_key(namespace: &str, name: &str) -> FlagKey {
    FlagKey::new(namespace.as_bytes().to_vec(), name.as_bytes().to_vec()).unwrap()
}

const DECLARATIONS: &str = "# the flags of core\n\
core\tflag_a\tDISABLED\tREAD_WRITE\tb/1\tThe first flag.\n\
core\tflag_b\tENABLED\tREAD_ONLY\tb/2\tThe second flag.\n";

#[test]
fn build_from_one_declaration_file_and_one_override_file() {
    let declarations = [input("core.decl", DECLARATIONS)];
    let overrides = [input("build.ovr", "core\tflag_a\tENABLED\n")];
    let cache = create_cache(42, &declarations, &overrides).unwrap();
    assert_eq!(cache.build_id(), 42);
    let flags = cache.flags();
    assert_eq!(flags.len(), 2);
    assert_eq!(flags[0].key, commands_key("core", "flag_a"));
    assert_eq!(flags[0].description, b"The first flag.".to_vec());
    assert_eq!(flags[0].tracking, b"b/1".to_vec());
    assert_eq!(flags[0].permission, Permission::ReadWrite);
    assert_eq!(flags[0].state, FlagState::Enabled);
    assert_eq!(flags[0].resolved_by, ResolvedBy::Override);
    assert_eq!(flags[1].key, commands_key("core", "flag_b"));
    assert_eq!(flags[1].permission, Permission::ReadOnly);
    assert_eq!(flags[1].state, FlagState::Enabled);
    assert_eq!(flags[1].resolved_by, ResolvedBy::Default);
    assert_eq!(Cache::deserialize(&cache.serialize()), Ok(cache));
}

#[test]
fn build_from_nothing() {
    let cache = create_cache(5, &[], &[]).unwrap();
    assert_eq!(cache.build_id(), 5);
    assert!(cache.flags().is_empty());
}

#[test]
fn the_order_of_declaration_files_does_not_change_the_bytes() {
    let core = input("core.decl", DECLARATIONS);
    let ui = input("ui.decl", "ui\tdark\tDISABLED\tREAD_WRITE\tb/3\tDark.\n");
    let audio = input("audio.decl", "audio\tloud\tENABLED\tREAD_WRITE\tb/4\tLoud.\n");
    let overrides = [input("build.ovr", "ui\tdark\tENABLED\naudio\tloud\tDISABLED\n")];
    let expected = create_cache(1, &[core.clone(), ui.clone(), audio.clone()], &overrides)
        .unwrap()
        .serialize();
    for order in [
        [audio.clone(), core.clone(), ui.clone()],
        [ui.clone(), audio.clone(), core.clone()],
        [ui.clone(), core.clone(), audio.clone()],
    ] {
        assert_eq!(create_cache(1, &order, &overrides).unwrap().serialize(), expected);
    }
}

#[test]
fn a_later_override_file_wins() {
    let declarations = [input("core.decl", DECLARATIONS)];
    let product = input("product.ovr", "core\tflag_a\tENABLED\n");
    let device = input("device.ovr", "core\tflag_a\tDISABLED\n");
    let cache = create_cache(1, &declarations, &[product.clone(), device.clone()]).unwrap();
    assert_eq!(cache.flags()[0].state, FlagState::Disabled);
    assert_eq!(cache.flags()[0].resolved_by, ResolvedBy::Override);
    let cache = create_cache(1, &declarations, &[device, product]).unwrap();
    assert_eq!(cache.flags()[0].state, FlagState::Enabled);
    assert_eq!(cache.flags()[0].resolved_by, ResolvedBy::Override);
}

#[test]
fn a_file_that_does_not_parse_fails_the_build() {
    let declarations = [input("core.decl", DECLARATIONS), input("bad.decl", "core\tflag_c\n")];
    assert_eq!(
        create_cache(1, &declarations, &[]),
        Err(BuildError::Parse(ParseError {
            source: b"bad.decl".to_vec(),
            line: 1,
            violation: Violation::MissingField
        }))
    );
    let declarations = [input("core.decl", DECLARATIONS)];
    let overrides = [input("ok.ovr", ""), input("bad.ovr", "\ncore\tflag_a\tON\n")];
    assert_eq!(
        create_cache(1, &declarations, &overrides),
        Err(BuildError::Parse(ParseError {
            source: b"bad.ovr".to_vec(),
            line: 2,
            violation: Violation::InvalidValue
        }))
    );
}

#[test]
fn declaration_files_are_parsed_before_override_files() {
    let declarations = [input("bad.decl", "core\tflag a\tENABLED\tREAD_ONLY\tb/1\tx\n")];
    let overrides = [input("bad.ovr", "nonsense\n")];
    assert_eq!(
        create_cache(1, &declarations, &overrides),
        Err(BuildError::Parse(ParseError {
            source: b"bad.decl".to_vec(),
            line: 1,
            violation: Violation::Malformed
        }))
    );
}

#[test]
fn parse_errors_come_before_merge_errors() {
    let declarations = [input("one.decl", DECLARATIONS), input("two.decl", DECLARATIONS)];
    let overrides = [input("bad.ovr", "nonsense\n")];
    assert_eq!(
        create_cache(1, &declarations, &overrides),
        Err(BuildError::Parse(ParseError {
            source: b"bad.ovr".to_vec(),
            line: 1,
            violation: Violation::MissingField
        }))
    );
}

#[test]
fn the_same_flag_in_two_declaration_files_fails_the_build() {
    let declarations = [
        input("one.decl", DECLARATIONS),
        input("two.decl", "core\tflag_b\tENABLED\tREAD_ONLY\tb/2\tAgain.\n"),
    ];
    assert_eq!(
        create_cache(1, &declarations, &[]),
        Err(BuildError::Merge(MergeError::DuplicateDeclaration {
            key: commands_key("core", "flag_b"),
            first_source: b"one.decl".to_vec(),
            second_source: b"two.decl".to_vec(),
        }))
    );
}

#[test]
fn the_same_flag_twice_in_one_file_is_a_parse_error() {
    let declarations = [input(
        "one.decl",
        "core\tf\tENABLED\tREAD_ONLY\tb/2\tOnce.\ncore\tf\tENABLED\tREAD_ONLY\tb/2\tTwice.\n",
    )];
    assert_eq!(
        create_cache(1, &declarations, &[]),
        Err(BuildError::Parse(ParseError {
            source: b"one.decl".to_vec(),
            line: 2,
            violation: Violation::DuplicateKey
        }))
    );
}

#[test]
fn an_override_of_an_undeclared_flag_fails_the_build() {
    let declarations = [input("core.decl", DECLARATIONS)];
    let overrides = [input("build.ovr", "core\tflag_x\tENABLED\n")];
    assert_eq!(
        create_cache(1, &declarations, &overrides),
        Err(BuildError::Merge(MergeError::UnknownFlagOverride {
            key: commands_key("core", "flag_x"),
            source: b"build.ovr".to_vec(),
        }))
    );
}

#[test]
fn an_override_of_a_read_only_flag_fails_the_build() {
    let declarations = [input("core.decl", DECLARATIONS)];
    let overrides = [input("build.ovr", "core\tflag_b\tDISABLED\n")];
    assert_eq!(
        create_cache(1, &declarations, &overrides),
        Err(BuildError::Merge(MergeError::PermissionDenied {
            key: commands_key("core", "flag_b"),
            source: b"build.ovr".to_vec(),
        }))
    );
}

#[test]
fn records_of_all_files_come_in_the_order_of_the_files() {
    let declarations = [
        input("b.decl", "b\tx\tENABLED\tREAD_ONLY\t\t\nb\ty\tENABLED\tREAD_ONLY\t\t\n"),
        input("empty.decl", "# nothing here\n"),
        input("a.decl", "a\tx\tENABLED\tREAD_ONLY\t\t\n"),
    ];
    let read = read_declarations(&declarations).unwrap();
    let keys: Vec<(FlagKey, Vec<u8>)> =
        read.iter().map(|d| (d.key.clone(), d.source.clone())).collect();
    assert_eq!(
        keys,
        vec![
            (commands_key("b", "x"), b"b.decl".to_vec()),
            (commands_key("b", "y"), b"b.decl".to_vec()),
            (commands_key("a", "x"), b"a.decl".to_vec()),
        ]
    );
    let overrides = [input("one.ovr", "a\tx\tENABLED\n"), input("two.ovr", "a\tx\tDISABLED\n")];
    let read = read_overrides(&overrides).unwrap();
    let states: Vec<(FlagState, Vec<u8>)> =
        read.iter().map(|o| (o.state, o.source.clone())).collect();
    assert_eq!(
        states,
        vec![
            (FlagState::Enabled, b"one.ovr".to_vec()),
            (FlagState::Disabled, b"two.ovr".to_vec())
        ]
    );
    assert_eq!(read_declarations(&[]), Ok(vec![]));
    assert_eq!(read_overrides(&[]), Ok(vec![]));
}

#[test]
fn copies_of_inputs_and_errors_are_equal_to_them() {
    let one = input("core.decl", DECLARATIONS);
    assert_eq!(one.clone(), one);
    let declarations = [one.clone(), one];
    let error = create_cache(1, &declarations, &[]).unwrap_err();
    assert_eq!(error.clone(), error);
    let error = create_cache(1, &[input("bad", "x")], &[]).unwrap_err();
    assert_eq!(error.clone(), error);
    for text in ["a\tb\tENABLED", "a\tb\tENABLED\tREAD_ONLY\tt\td"] {
        for kind in [aconfig::parser::SourceKind::Overrides, aconfig::parser::SourceKind::Declarations]
        {
            if let Ok(record) = aconfig::parser::parse_line(kind, text.as_bytes(), b"s") {
                assert_eq!(record.clone(), record);
            }
        }
    }
}

#[test]
fn a_cache_shown_as_text() {
    let declarations = [input("core.decl", DECLARATIONS)];
    let overrides = [input("build.ovr", "core\tflag_a\tENABLED\n")];
    let cache = create_cache(42, &declarations, &overrides).unwrap();
    assert_eq!(
        aconfig::commands::dump_cache(&cache, aconfig::commands::Format::Text),
        b"core.flag_a: ENABLED\ncore.flag_b: ENABLED\n".to_vec()
    );
    let cache = create_cache(42, &declarations, &[]).unwrap();
    assert_eq!(
        aconfig::commands::dump_cache(&cache, aconfig::commands::Format::Text),
        b"core.flag_a: DISABLED\ncore.flag_b: ENABLED\n".to_vec()
    );
}

#[test]
fn a_cache_shown_in_full() {
    let declarations = [input("core.decl", DECLARATIONS)];
    let overrides = [input("build.ovr", "core\tflag_a\tENABLED\n")];
    let cache = create_cache(42, &declarations, &overrides).unwrap();
    assert_eq!(
        aconfig::commands::dump_cache(&cache, aconfig::commands::Format::Debug),
        b"core.flag_a\tENABLED\tREAD_WRITE\tOVERRIDE\tb/1\tThe first flag.\n\
core.flag_b\tENABLED\tREAD_ONLY\tDEFAULT\tb/2\tThe second flag.\n"
            .to_vec()
    );
}

#[test]
fn an_empty_cache_shows_nothing() {
    let cache = create_cache(1, &[], &[]).unwrap();
    assert_eq!(aconfig::commands::dump_cache(&cache, aconfig::commands::Format::Text), vec![]);
    assert_eq!(aconfig::commands::dump_cache(&cache, aconfig::commands::Format::Debug), vec![]);
}
