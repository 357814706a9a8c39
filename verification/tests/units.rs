use sweet::keymap::convert;
use sweet::range::expand_range;
use sweet::token::KeyAttribute;
use sweet::unescape;
use sweet::file_too_large;
use sweet::filesize_cap_mib;
use sweet::Binding;
use sweet::Definition;
use sweet::ModeInstruction;
use sweet::ParseError;
use sweet::ParserInput;
use sweet::SwhkdParser;

#[test]
fn test_unescape_charset() {
    assert_eq!(unescape(r"hello\\\{\}\|\-\+\~\@\,"), r"hello\{}|-+~@,");
    assert_eq!(unescape("plain"), "plain");
    assert_eq!(unescape(""), "");
}

#[test]
fn test_convert_known_names() {
    assert_eq!(convert("comma"), Ok(evdev::Key::KEY_COMMA.code()));
    assert_eq!(convert("period"), Ok(evdev::Key::KEY_DOT.code()));
    assert_eq!(convert("return"), Ok(evdev::Key::KEY_ENTER.code()));
    assert_eq!(convert("enter"), Ok(evdev::Key::KEY_ENTER.code()));
    assert_eq!(convert("f11"), Ok(evdev::Key::KEY_F11.code()));
    assert_eq!(convert("5"), Ok(evdev::Key::KEY_5.code()));
    assert_eq!(convert("-"), Ok(evdev::Key::KEY_MINUS.code()));
}

#[test]
fn test_convert_unknown_name() {
    assert_eq!(
        convert("pesto"),
        Err(ParseError::InvalidKey("pesto".to_string()))
    );
    // lookup is exact: folding happens at lex time, before this table
    assert_eq!(convert("Q"), Err(ParseError::InvalidKey("Q".to_string())));
}

#[test]
fn test_expand_range_is_inclusive_and_increasing() {
    let r = expand_range('a', 'c');
    assert_eq!(r, vec!['a', 'b', 'c']);
    let digits = expand_range('1', '9');
    assert_eq!(digits.len(), 9);
    for w in digits.windows(2) {
        assert!(w[0] < w[1]);
    }
    assert_eq!(expand_range('x', 'x'), vec!['x']);
}

#[test]
fn test_invalid_key_name_is_rejected() {
    let contents = "
super + è
    alacritty
";
    let parsed = SwhkdParser::from(ParserInput::Raw(contents));
    assert_eq!(parsed.unwrap_err(), ParseError::InvalidKey("è".to_string()));
}

#[test]
fn test_attribute_prefix_orders_agree() {
    let contents = "
super + ~@3
    3
super + @~4
    4";
    let parsed = SwhkdParser::from(ParserInput::Raw(contents)).unwrap();
    let both = KeyAttribute { send: true, on_release: true };
    assert_eq!(parsed.bindings[0].definition.key.attribute, both);
    assert_eq!(parsed.bindings[1].definition.key.attribute, both);
}

#[test]
fn test_filesize_cap_parsing() {
    assert_eq!(filesize_cap_mib(None), 50);
    assert_eq!(filesize_cap_mib(Some(&"7".to_string())), 7);
    assert_eq!(filesize_cap_mib(Some(&"1024".to_string())), 1024);
    assert_eq!(filesize_cap_mib(Some(&"".to_string())), 50);
    assert_eq!(filesize_cap_mib(Some(&"12x".to_string())), 50);
    assert_eq!(filesize_cap_mib(Some(&"99999999999999999999".to_string())), 50);
}

#[test]
fn test_file_too_large_boundary() {
    assert!(!file_too_large(50 << 20, 50));
    assert!(file_too_large((50 << 20) + 1, 50));
    assert!(!file_too_large(0, 0));
}

#[test]
fn test_mode_block() -> Result<(), ParseError> {
    let contents = "
mode gaming oneoff
super + a
    notify-send in-mode
ignore super + b
endmode
super + c
    outside
";
    let parsed = SwhkdParser::from(ParserInput::Raw(contents))?;
    assert_eq!(parsed.modes.len(), 1);
    let mode = &parsed.modes[0];
    assert_eq!(mode.name, "gaming");
    assert!(mode.oneoff);
    assert!(!mode.swallow);
    assert_eq!(mode.bindings.len(), 1);
    assert_eq!(mode.bindings[0].command, "notify-send in-mode");
    assert_eq!(mode.unbinds.len(), 1);
    let known = [Binding::running("outside").on(
        Definition::new(evdev::Key::KEY_C.code())
            .with_modifiers(&[sweet::token::Modifier::Super]),
    )];
    assert_eq!(parsed.bindings, known);
    Ok(())
}

#[test]
fn test_mode_instructions() -> Result<(), ParseError> {
    let contents = "
super + g
    alacritty && @enter gaming
super + q
    bspc quit && @escape
";
    let parsed = SwhkdParser::from(ParserInput::Raw(contents))?;
    assert_eq!(
        parsed.bindings[0].mode_instructions,
        vec![ModeInstruction::Enter("gaming".to_string())]
    );
    assert_eq!(
        parsed.bindings[1].mode_instructions,
        vec![ModeInstruction::Escape]
    );
    Ok(())
}

#[test]
fn test_double_ampersand_collapses() -> Result<(), ParseError> {
    let contents = "
super + a
    one &&&& two
super + b
    tail &&
";
    let parsed = SwhkdParser::from(ParserInput::Raw(contents))?;
    assert_eq!(parsed.bindings[0].command, "one && two");
    assert_eq!(parsed.bindings[1].command, "tail ");
    Ok(())
}

#[test]
fn test_unbind_without_trailing_newline() -> Result<(), ParseError> {
    let contents = "
super + d
    world
ignore super + d";
    let parsed = SwhkdParser::from(ParserInput::Raw(contents))?;
    assert_eq!(parsed.bindings, vec![]);
    assert_eq!(parsed.unbinds.len(), 1);
    Ok(())
}

#[test]
fn test_range_bounds_attribute_mismatch() {
    let contents = "
super + {~a-@c}
    {one, two, three}
";
    let parsed = SwhkdParser::from(ParserInput::Raw(contents));
    let Err(ParseError::Grammar(e)) = parsed else {
        panic!("expected a grammar error for mismatched range attributes")
    };
    assert!(e.message.contains("timing attributes"));
}

#[test]
fn test_range_bounds_out_of_order() {
    let contents = "
super + {c-a}
    {one, two, three}
";
    let parsed = SwhkdParser::from(ParserInput::Raw(contents));
    let Err(ParseError::Grammar(e)) = parsed else {
        panic!("expected a grammar error for a descending range")
    };
    assert!(e.message.contains("greater than upper bound"));
}

#[test]
fn test_include_several_paths_on_one_line() -> Result<(), ParseError> {
    let mut files = sweet::FileMap::new();
    files.insert(
        "/virtual/one.swhkd".to_string(),
        "
a
    one"
            .to_string(),
    );
    files.insert(
        "/virtual/two.swhkd".to_string(),
        "
b
    two"
            .to_string(),
    );
    let parsed = SwhkdParser::from_sources(
        ParserInput::Raw("include /virtual/one.swhkd /virtual/two.swhkd\nc\n    three"),
        &files,
    )?;
    assert_eq!(parsed.bindings.len(), 3);
    assert_eq!(
        parsed.imports,
        vec!["/virtual/one.swhkd".to_string(), "/virtual/two.swhkd".to_string()]
    );
    Ok(())
}

#[test]
fn test_command_range_bound_not_ascii() {
    let contents = "
super + {a,b}
    {x-是}";
    let parsed = SwhkdParser::from(ParserInput::Raw(contents));
    assert!(parsed.is_err());
}

#[test]
fn test_omission_alternative_needs_inner_plus() {
    let contents = "
super + {_, shift} b
    {one, two}";
    assert!(SwhkdParser::from(ParserInput::Raw(contents)).is_err());
}

#[test]
fn test_escaped_brace_stays_in_command() -> Result<(), ParseError> {
    let contents = "
super + a
    echo \\{x
";
    let parsed = SwhkdParser::from(ParserInput::Raw(contents))?;
    assert_eq!(parsed.bindings[0].command, "echo \\{x");
    Ok(())
}

#[test]
fn test_grammar_error_names_anonymous_source() {
    let parsed = SwhkdParser::from(ParserInput::Raw("\n+ a\n    x"));
    let Err(ParseError::Grammar(e)) = parsed else {
        panic!("expected a grammar error")
    };
    assert_eq!(e.path, "<anonymous>");
}

#[test]
fn test_grammar_error_names_imported_file() {
    let root = "/virtual/root.swhkd";
    let bad = "/virtual/bad.swhkd";
    let mut files = sweet::FileMap::new();
    files.insert(root.to_string(), format!("include {}\na\n    a", bad));
    files.insert(bad.to_string(), "+ broken\n    x".to_string());
    let parsed = SwhkdParser::from_sources(ParserInput::Path(root), &files);
    let Err(ParseError::Grammar(e)) = parsed else {
        panic!("expected a grammar error")
    };
    assert_eq!(e.path, bad);
}

#[test]
fn test_case_change_leaves_config_unchanged() -> Result<(), ParseError> {
    let lower = "
super + shift + return
    alacritty
";
    let upper = "
SUPER + SHIFT + RETURN
    alacritty
";
    let a = SwhkdParser::from(ParserInput::Raw(lower))?;
    let b = SwhkdParser::from(ParserInput::Raw(upper))?;
    assert_eq!(a.bindings, b.bindings);
    Ok(())
}
