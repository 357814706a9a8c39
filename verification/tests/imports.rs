use sweet::token::Modifier;
use sweet::Binding;
use sweet::ConfigReadError;
use sweet::Definition;
use sweet::FileMap;
use sweet::ParseError;
use sweet::ParserInput;
use sweet::SwhkdParser;

fn assert_equal_binding_set(a: Vec<Binding>, mut b: Vec<Binding>) {
    for binding in a {
        if let Some(pos) = b.iter().position(|bin| bin.eq(&binding)) {
            b.remove(pos);
        }
    }
    assert_eq!(b, vec![]);
}

#[test]
fn test_load_multiple_config() -> Result<(), ParseError> {
    let import_path = "/virtual/child.swhkd";
    let root_path = "/virtual/root.swhkd";
    let mut files = FileMap::new();
    files.insert(
        import_path.to_string(),
        "
super + c
    hello"
            .to_string(),
    );
    files.insert(
        root_path.to_string(),
        format!(
            "
include {}
super + b
   firefox",
            import_path
        ),
    );

    let parsed = SwhkdParser::from_sources(ParserInput::Path(root_path), &files)?;
    let known = [
        Binding::running("firefox").on(
            Definition::new(evdev::Key::KEY_B.code()).with_modifiers(&[Modifier::Super]),
        ),
        Binding::running("hello").on(
            Definition::new(evdev::Key::KEY_C.code()).with_modifiers(&[Modifier::Super]),
        ),
    ];
    assert_eq!(parsed.bindings, known);
    Ok(())
}

#[test]
fn test_relative_import() -> Result<(), ParseError> {
    let setup_path = "child.swhkd";
    let import_path = "root.swhkd";
    let mut files = FileMap::new();
    files.insert(
        setup_path.to_string(),
        "
super + c
    hello"
            .to_string(),
    );
    files.insert(
        import_path.to_string(),
        format!(
            "
include {}
super + b
   firefox",
            setup_path
        ),
    );

    let parsed = SwhkdParser::from_sources(ParserInput::Path(import_path), &files)?;
    let known = [
        Binding::running("firefox").on(
            Definition::new(evdev::Key::KEY_B.code()).with_modifiers(&[Modifier::Super]),
        ),
        Binding::running("hello").on(
            Definition::new(evdev::Key::KEY_C.code()).with_modifiers(&[Modifier::Super]),
        ),
    ];
    assert_eq!(parsed.bindings, known);
    Ok(())
}

#[test]
fn test_circular_import() -> Result<(), ParseError> {
    let path_a = "/virtual/a.swhkd";
    let path_b = "/virtual/b.swhkd";
    let path_c = "/virtual/c.swhkd";
    let path_d = "/virtual/d.swhkd";
    let mut files = FileMap::new();
    files.insert(
        path_a.to_string(),
        "
a
    a"
            .to_string(),
    );
    files.insert(
        path_b.to_string(),
        format!(
            "
include {}
b
    b",
            path_a
        ),
    );
    files.insert(
        path_c.to_string(),
        format!(
            "
include {}
include {}
include {}
include {}
c
    c",
            path_a, path_b, path_c, path_d
        ),
    );
    files.insert(
        path_d.to_string(),
        format!(
            "
include {}
d
    d",
            path_c
        ),
    );
    let parsed = SwhkdParser::from_sources(ParserInput::Path(path_d), &files)?;
    let known = vec![
        Binding::running("d").on(Definition::new(evdev::Key::KEY_D.code())),
        Binding::running("c").on(Definition::new(evdev::Key::KEY_C.code())),
        Binding::running("b").on(Definition::new(evdev::Key::KEY_B.code())),
        Binding::running("a").on(Definition::new(evdev::Key::KEY_A.code())),
    ];
    assert_equal_binding_set(parsed.bindings, known);
    Ok(())
}

#[test]
fn test_include_and_unbind() -> Result<(), ParseError> {
    let import_path = "/virtual/imported.swhkd";
    let root_path = "/virtual/main.swhkd";
    let mut files = FileMap::new();
    files.insert(
        import_path.to_string(),
        "
super + c
    hello
super + d
    world"
            .to_string(),
    );
    files.insert(
        root_path.to_string(),
        format!(
            "
include {}
super + b
   firefox
ignore super + d",
            import_path
        ),
    );

    let parsed = SwhkdParser::from_sources(ParserInput::Path(root_path), &files)?;
    let known = [
        Binding::running("firefox").on(
            Definition::new(evdev::Key::KEY_B.code()).with_modifiers(&[Modifier::Super]),
        ),
        Binding::running("hello").on(
            Definition::new(evdev::Key::KEY_C.code()).with_modifiers(&[Modifier::Super]),
        ),
    ];
    assert_eq!(parsed.bindings, known);
    Ok(())
}

#[test]
fn test_missing_import_is_read_error() {
    let root_path = "/virtual/root.swhkd";
    let mut files = FileMap::new();
    files.insert(
        root_path.to_string(),
        "
include /virtual/not-there.swhkd
a
    a"
            .to_string(),
    );
    let parsed = SwhkdParser::from_sources(ParserInput::Path(root_path), &files);
    let Err(ParseError::ConfigRead(ConfigReadError::ReadingConfig(p))) = parsed else {
        panic!("expected a read error for the missing import")
    };
    assert_eq!(p, "/virtual/not-there.swhkd");
}

#[test]
fn test_self_include_in_import_changes_nothing() -> Result<(), ParseError> {
    let child_plain = "/virtual/sub.swhkd";
    let root = "/virtual/top.swhkd";
    let root_text = format!(
        "
include {}
super + b
    firefox",
        child_plain
    );

    let mut files_plain = FileMap::new();
    files_plain.insert(
        child_plain.to_string(),
        "
super + c
    hello"
            .to_string(),
    );
    files_plain.insert(root.to_string(), root_text.clone());

    let mut files_cyclic = FileMap::new();
    files_cyclic.insert(
        child_plain.to_string(),
        format!(
            "
include {}
super + c
    hello",
            child_plain
        ),
    );
    files_cyclic.insert(root.to_string(), root_text);

    let plain = SwhkdParser::from_sources(ParserInput::Path(root), &files_plain)?;
    let cyclic = SwhkdParser::from_sources(ParserInput::Path(root), &files_cyclic)?;
    assert_eq!(plain.bindings, cyclic.bindings);
    assert_eq!(plain.unbinds, cyclic.unbinds);
    assert_eq!(plain.imports, cyclic.imports);
    Ok(())
}

#[test]
fn test_unbind_from_import_applies_to_root() -> Result<(), ParseError> {
    let import_path = "/virtual/deny.swhkd";
    let root_path = "/virtual/root.swhkd";
    let mut files = FileMap::new();
    files.insert(import_path.to_string(), "ignore super + b".to_string());
    files.insert(
        root_path.to_string(),
        format!(
            "
include {}
super + b
    firefox
super + c
    hello",
            import_path
        ),
    );
    let parsed = SwhkdParser::from_sources(ParserInput::Path(root_path), &files)?;
    let known = [Binding::running("hello").on(
        Definition::new(evdev::Key::KEY_C.code()).with_modifiers(&[Modifier::Super]),
    )];
    assert_eq!(parsed.bindings, known);
    Ok(())
}
