use aconfig::merge::{merge, MergeError};
use aconfig::model::{
    Declaration, FlagKey, FlagState, Override, Permission, ResolvedBy, ResolvedFlag,
};

fn key(namespace: &str, name: &str) -> FlagKey {
    FlagKey::new(namespace.as_bytes().to_vec(), name.as_bytes().to_vec()).unwrap()
}

fn declaration(
    namespace: &str,
    name: &str,
    default_state: FlagState,
    permission: Permission,
    source: &str,
) -> Declaration {
    Declaration {
        key: key(namespace, name),
        description: format!("about {name}").into_bytes(),
        tracking: format!("b/{name}").into_bytes(),
        default_state,
        permission,
        source: source.as_bytes().to_vec(),
    }
}

fn override_of(namespace: &str, name: &str, state: FlagState, source: &str) -> Override {
    Override { key: key(namespace, name), state, source: source.as_bytes().to_vec() }
}

fn resolved(
    namespace: &str,
    name: &str,
    permission: Permission,
    state: FlagState,
    resolved_by: ResolvedBy,
) -> ResolvedFlag {
    ResolvedFlag {
        key: key(namespace, name),
        description: format!("about {name}").into_bytes(),
        tracking: format!("b/{name}").into_bytes(),
        permission,
        state,
        resolved_by,
    }
}

#[test]
fn end_to_end_scenario() {
    let declarations = vec![
        declaration("core", "flag_a", FlagState::Disabled, Permission::ReadWrite, "a.decl"),
        declaration("core", "flag_b", FlagState::Enabled, Permission::ReadOnly, "a.decl"),
    ];
    let overrides = vec![override_of("core", "flag_a", FlagState::Enabled, "a.ovr")];
    let cache = merge(42, &declarations, &overrides).unwrap();
    assert_eq!(cache.build_id(), 42);
    assert_eq!(
        cache.flags(),
        &[
            resolved(
                "core",
                "flag_a",
                Permission::ReadWrite,
                FlagState::Enabled,
                ResolvedBy::Override
            ),
            resolved(
                "core",
                "flag_b",
                Permission::ReadOnly,
                FlagState::Enabled,
                ResolvedBy::Default
            ),
        ]
    );
}

#[test]
fn nothing_merges_to_an_empty_cache() {
    let cache = merge(0, &[], &[]).unwrap();
    assert_eq!(cache.build_id(), 0);
    assert!(cache.flags().is_empty());
}

#[test]
fn a_flag_without_override_keeps_its_default() {
    let declarations = vec![
        declaration("core", "on", FlagState::Enabled, Permission::ReadWrite, "d"),
        declaration("core", "off", FlagState::Disabled, Permission::ReadWrite, "d"),
    ];
    let overrides = vec![override_of("core", "on", FlagState::Enabled, "o")];
    let cache = merge(7, &declarations, &overrides).unwrap();
    assert_eq!(
        cache.flags(),
        &[
            resolved(
                "core",
                "off",
                Permission::ReadWrite,
                FlagState::Disabled,
                ResolvedBy::Default
            ),
            // An override that asks for the default state is still an override.
            resolved("core", "on", Permission::ReadWrite, FlagState::Enabled, ResolvedBy::Override),
        ]
    );
}

#[test]
fn the_last_override_wins() {
    let declarations =
        vec![declaration("core", "f", FlagState::Disabled, Permission::ReadWrite, "d")];
    let overrides = vec![
        override_of("core", "f", FlagState::Enabled, "source_a"),
        override_of("core", "f", FlagState::Disabled, "source_b"),
    ];
    let cache = merge(1, &declarations, &overrides).unwrap();
    assert_eq!(cache.flags().len(), 1);
    assert_eq!(cache.flags()[0].state, FlagState::Disabled);
    assert_eq!(cache.flags()[0].resolved_by, ResolvedBy::Override);

    let overrides = vec![
        override_of("core", "f", FlagState::Disabled, "source_b"),
        override_of("core", "f", FlagState::Enabled, "source_a"),
    ];
    let cache = merge(1, &declarations, &overrides).unwrap();
    assert_eq!(cache.flags()[0].state, FlagState::Enabled);
    assert_eq!(cache.flags()[0].resolved_by, ResolvedBy::Override);
}

#[test]
fn an_override_touches_only_its_flag() {
    let declarations = vec![
        declaration("a", "x", FlagState::Disabled, Permission::ReadWrite, "d"),
        declaration("b", "x", FlagState::Disabled, Permission::ReadWrite, "d"),
        declaration("a", "y", FlagState::Disabled, Permission::ReadWrite, "d"),
    ];
    let overrides = vec![override_of("b", "x", FlagState::Enabled, "o")];
    let cache = merge(1, &declarations, &overrides).unwrap();
    let states: Vec<(FlagState, ResolvedBy)> =
        cache.flags().iter().map(|f| (f.state, f.resolved_by)).collect();
    assert_eq!(
        states,
        vec![
            (FlagState::Disabled, ResolvedBy::Default),
            (FlagState::Disabled, ResolvedBy::Default),
            (FlagState::Enabled, ResolvedBy::Override),
        ]
    );
}

#[test]
fn flags_are_ordered_by_namespace_then_name_as_bytes() {
    let names = [
        ("b", "a"),
        ("a", "b"),
        ("a", "B"),
        ("a", "a_"),
        ("a", "a"),
        ("a", "aa"),
        ("B", "z"),
        ("ab", "a"),
        ("a", "9"),
        ("_", "a"),
    ];
    let declarations: Vec<Declaration> = names
        .iter()
        .map(|(ns, n)| declaration(ns, n, FlagState::Enabled, Permission::ReadOnly, "d"))
        .collect();
    let cache = merge(1, &declarations, &[]).unwrap();
    let keys: Vec<FlagKey> = cache.flags().iter().map(|f| f.key.clone()).collect();
    assert_eq!(
        keys,
        vec![
            key("B", "z"),
            key("_", "a"),
            key("a", "9"),
            key("a", "B"),
            key("a", "a"),
            key("a", "a_"),
            key("a", "aa"),
            key("a", "b"),
            key("ab", "a"),
            key("b", "a"),
        ]
    );
}

#[test]
fn the_order_of_declarations_does_not_matter() {
    let a = declaration("core", "a", FlagState::Disabled, Permission::ReadWrite, "one");
    let b = declaration("core", "b", FlagState::Enabled, Permission::ReadOnly, "two");
    let c = declaration("ui", "a", FlagState::Disabled, Permission::ReadWrite, "one");
    let overrides = vec![
        override_of("ui", "a", FlagState::Enabled, "o1"),
        override_of("core", "a", FlagState::Enabled, "o1"),
        override_of("ui", "a", FlagState::Disabled, "o2"),
    ];
    let orders = [
        vec![a.clone(), b.clone(), c.clone()],
        vec![a.clone(), c.clone(), b.clone()],
        vec![b.clone(), a.clone(), c.clone()],
        vec![b.clone(), c.clone(), a.clone()],
        vec![c.clone(), a.clone(), b.clone()],
        vec![c.clone(), b.clone(), a.clone()],
    ];
    let expected = merge(9, &orders[0], &overrides).unwrap();
    let expected_bytes = expected.serialize();
    for order in &orders {
        let cache = merge(9, order, &overrides).unwrap();
        assert_eq!(cache, expected);
        assert_eq!(cache.serialize(), expected_bytes);
    }
}

#[test]
fn merging_twice_gives_the_same_bytes() {
    let declarations = vec![
        declaration("core", "b", FlagState::Disabled, Permission::ReadWrite, "d"),
        declaration("core", "a", FlagState::Enabled, Permission::ReadWrite, "d"),
    ];
    let overrides = vec![override_of("core", "b", FlagState::Enabled, "o")];
    let first = merge(3, &declarations, &overrides).unwrap().serialize();
    let second = merge(3, &declarations, &overrides).unwrap().serialize();
    assert_eq!(first, second);
}

#[test]
fn unknown_override_is_rejected() {
    let declarations =
        vec![declaration("core", "flag_a", FlagState::Disabled, Permission::ReadWrite, "a.decl")];
    let overrides = vec![override_of("core", "flag_x", FlagState::Enabled, "a.ovr")];
    assert_eq!(
        merge(1, &declarations, &overrides),
        Err(MergeError::UnknownFlagOverride {
            key: key("core", "flag_x"),
            source: b"a.ovr".to_vec()
        })
    );
    // The name alone is not enough: the namespace counts.
    let overrides = vec![override_of("ui", "flag_a", FlagState::Enabled, "a.ovr")];
    assert_eq!(
        merge(1, &declarations, &overrides),
        Err(MergeError::UnknownFlagOverride {
            key: key("ui", "flag_a"),
            source: b"a.ovr".to_vec()
        })
    );
    // Nothing declared at all.
    assert_eq!(
        merge(1, &[], &overrides),
        Err(MergeError::UnknownFlagOverride {
            key: key("ui", "flag_a"),
            source: b"a.ovr".to_vec()
        })
    );
}

#[test]
fn override_of_a_read_only_flag_is_denied() {
    let declarations = vec![
        declaration("core", "locked", FlagState::Disabled, Permission::ReadOnly, "d"),
        declaration("core", "open", FlagState::Disabled, Permission::ReadWrite, "d"),
    ];
    let overrides = vec![
        override_of("core", "open", FlagState::Enabled, "o1"),
        override_of("core", "locked", FlagState::Enabled, "o2"),
    ];
    assert_eq!(
        merge(1, &declarations, &overrides),
        Err(MergeError::PermissionDenied { key: key("core", "locked"), source: b"o2".to_vec() })
    );
    // Also where the override asks for the state the flag already has.
    let overrides = vec![override_of("core", "locked", FlagState::Disabled, "o3")];
    assert_eq!(
        merge(1, &declarations, &overrides),
        Err(MergeError::PermissionDenied { key: key("core", "locked"), source: b"o3".to_vec() })
    );
}

#[test]
fn duplicate_declaration_is_rejected_and_names_both_sources() {
    let declarations = vec![
        declaration("core", "a", FlagState::Disabled, Permission::ReadWrite, "first.decl"),
        declaration("core", "b", FlagState::Disabled, Permission::ReadWrite, "first.decl"),
        declaration("core", "a", FlagState::Enabled, Permission::ReadOnly, "second.decl"),
    ];
    assert_eq!(
        merge(1, &declarations, &[]),
        Err(MergeError::DuplicateDeclaration {
            key: key("core", "a"),
            first_source: b"first.decl".to_vec(),
            second_source: b"second.decl".to_vec(),
        })
    );
}

#[test]
fn the_first_repeated_declaration_is_reported() {
    let declarations = vec![
        declaration("core", "a", FlagState::Disabled, Permission::ReadWrite, "s0"),
        declaration("core", "b", FlagState::Disabled, Permission::ReadWrite, "s1"),
        declaration("core", "c", FlagState::Disabled, Permission::ReadWrite, "s2"),
        declaration("core", "b", FlagState::Disabled, Permission::ReadWrite, "s3"),
        declaration("core", "a", FlagState::Disabled, Permission::ReadWrite, "s4"),
        declaration("core", "b", FlagState::Disabled, Permission::ReadWrite, "s5"),
    ];
    assert_eq!(
        merge(1, &declarations, &[]),
        Err(MergeError::DuplicateDeclaration {
            key: key("core", "b"),
            first_source: b"s1".to_vec(),
            second_source: b"s3".to_vec(),
        })
    );
}

#[test]
fn declarations_are_checked_before_overrides() {
    let declarations = vec![
        declaration("core", "a", FlagState::Disabled, Permission::ReadOnly, "s0"),
        declaration("core", "a", FlagState::Disabled, Permission::ReadOnly, "s1"),
    ];
    let overrides = vec![
        override_of("core", "x", FlagState::Enabled, "o"),
        override_of("core", "a", FlagState::Enabled, "o"),
    ];
    assert_eq!(
        merge(1, &declarations, &overrides),
        Err(MergeError::DuplicateDeclaration {
            key: key("core", "a"),
            first_source: b"s0".to_vec(),
            second_source: b"s1".to_vec(),
        })
    );
}

#[test]
fn the_first_override_at_fault_is_reported() {
    let declarations = vec![
        declaration("core", "locked", FlagState::Disabled, Permission::ReadOnly, "d"),
        declaration("core", "open", FlagState::Disabled, Permission::ReadWrite, "d"),
    ];
    let overrides = vec![
        override_of("core", "open", FlagState::Enabled, "o1"),
        override_of("core", "missing", FlagState::Enabled, "o2"),
        override_of("core", "locked", FlagState::Enabled, "o3"),
    ];
    assert_eq!(
        merge(1, &declarations, &overrides),
        Err(MergeError::UnknownFlagOverride { key: key("core", "missing"), source: b"o2".to_vec() })
    );
    let overrides = vec![
        override_of("core", "locked", FlagState::Enabled, "o3"),
        override_of("core", "missing", FlagState::Enabled, "o2"),
    ];
    assert_eq!(
        merge(1, &declarations, &overrides),
        Err(MergeError::PermissionDenied { key: key("core", "locked"), source: b"o3".to_vec() })
    );
}

#[test]
fn the_build_identifier_is_kept_as_given() {
    for id in [0u32, 1, 42, u32::MAX] {
        assert_eq!(merge(id, &[], &[]).unwrap().build_id(), id);
    }
}

#[test]
fn a_key_needs_two_identifiers() {
    assert!(FlagKey::new(b"core".to_vec(), b"flag".to_vec()).is_some());
    assert!(FlagKey::new(b"".to_vec(), b"flag".to_vec()).is_none());
    assert!(FlagKey::new(b"core".to_vec(), b"".to_vec()).is_none());
    assert!(FlagKey::new(b"co.re".to_vec(), b"flag".to_vec()).is_none());
    assert!(FlagKey::new(b"core".to_vec(), b"fl ag".to_vec()).is_none());
    let k = key("core", "flag");
    assert_eq!(k.namespace(), b"core");
    assert_eq!(k.name(), b"flag");
    assert_eq!(k.clone(), k);
}
