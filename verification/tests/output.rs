use elf_size::output::{
    build_viewer_chain, viewer_command, CommandChain, CommandSpec, ResolvedViewer, ViewerParseError,
    ViewerTool, CSVLENS_DEFAULT_COLUMNS,
};

#[test]
fn output_test_parse_known_variants() {
    assert_eq!("default".parse::<ViewerTool>().unwrap(), ViewerTool::Default);
    assert_eq!("vd".parse::<ViewerTool>().unwrap(), ViewerTool::Visidata);
    assert_eq!("visidata".parse::<ViewerTool>().unwrap(), ViewerTool::Visidata);
    assert_eq!("csvlens".parse::<ViewerTool>().unwrap(), ViewerTool::Csvlens);
}

#[test]
fn output_test_parse_custom_single_arg() {
    assert_eq!(
        "custom:myviewer".parse::<ViewerTool>().unwrap(),
        ViewerTool::Custom(vec!["myviewer".to_string()]),
    );
}

#[test]
fn output_test_parse_custom_multi_arg() {
    assert_eq!(
        "custom:grep chip".parse::<ViewerTool>().unwrap(),
        ViewerTool::Custom(vec!["grep".to_string(), "chip".to_string()]),
    );
}

#[test]
fn output_test_parse_custom_extra_whitespace() {
    assert_eq!(
        "custom:  grep   -i  foo  ".parse::<ViewerTool>().unwrap(),
        ViewerTool::Custom(vec!["grep".to_string(), "-i".to_string(), "foo".to_string()]),
    );
}

#[test]
fn output_test_parse_custom_empty_is_error() {
    assert!("custom:".parse::<ViewerTool>().is_err());
    assert!("custom:   ".parse::<ViewerTool>().is_err());
}

#[test]
fn output_test_parse_unknown_is_error() {
    assert!("".parse::<ViewerTool>().is_err());
    assert!("foobar".parse::<ViewerTool>().is_err());
    assert!("Custom:foo".parse::<ViewerTool>().is_err());
}

#[test]
fn output_test_resolve_visidata() {
    assert_eq!(ViewerTool::Visidata.resolve(), ResolvedViewer::Visidata);
}

#[test]
fn output_test_resolve_csvlens() {
    assert_eq!(ViewerTool::Csvlens.resolve(), ResolvedViewer::Csvlens);
}

#[test]
fn output_test_resolve_custom_preserves_args() {
    let parts = vec!["grep".to_string(), "chip".to_string()];
    assert_eq!(ViewerTool::Custom(parts.clone()).resolve(), ResolvedViewer::Custom(parts));
}

#[test]
fn output_test_resolve_default_returns_valid_variant() {
    let resolved = ViewerTool::Default.resolve();
    assert!(matches!(
        resolved,
        ResolvedViewer::Visidata | ResolvedViewer::Csvlens | ResolvedViewer::Table
    ));
}

#[test]
fn parse_errors_name_the_reason() {
    assert_eq!("custom: \t".parse::<ViewerTool>(), Err(ViewerParseError::EmptyCustom));
    assert_eq!("less".parse::<ViewerTool>(), Err(ViewerParseError::Unknown));
}

#[test]
fn parse_custom_strips_one_prefix_and_splits_on_unicode_space() {
    assert_eq!(
        "custom:custom:foo".parse::<ViewerTool>().unwrap(),
        ViewerTool::Custom(vec!["custom:foo".to_string()]),
    );
    assert_eq!(
        "custom:less\u{3000}-S".parse::<ViewerTool>().unwrap(),
        ViewerTool::Custom(vec!["less".to_string(), "-S".to_string()]),
    );
}

#[test]
fn resolve_default_follows_installed_tools() {
    assert_eq!(ViewerTool::Default.resolve_with(true, true), ResolvedViewer::Visidata);
    assert_eq!(ViewerTool::Default.resolve_with(false, true), ResolvedViewer::Csvlens);
    assert_eq!(ViewerTool::Default.resolve_with(false, false), ResolvedViewer::Table);
    assert_eq!(ViewerTool::Csvlens.resolve_with(true, false), ResolvedViewer::Csvlens);
}

#[test]
fn viewer_commands() {
    assert_eq!(viewer_command(&ResolvedViewer::Table), None);
    assert_eq!(
        viewer_command(&ResolvedViewer::Visidata),
        Some(CommandSpec { program: "vd".to_string(), args: vec!["-".to_string()] })
    );
    assert_eq!(
        viewer_command(&ResolvedViewer::Csvlens),
        Some(CommandSpec {
            program: "csvlens".to_string(),
            args: vec!["--columns".to_string(), CSVLENS_DEFAULT_COLUMNS.to_string()]
        })
    );
    assert_eq!(
        viewer_command(&ResolvedViewer::Custom(vec!["grep".to_string(), "chip".to_string()])),
        Some(CommandSpec { program: "grep".to_string(), args: vec!["chip".to_string()] })
    );
}

#[test]
fn viewer_chain_for_custom_viewer() {
    let diff = CommandSpec { program: "uv".to_string(), args: vec!["run".to_string()] };
    let chain: CommandChain = build_viewer_chain(diff, "old.elf", "new.elf", &ViewerTool::Custom(vec!["cat".to_string()]));
    assert_eq!(chain.commands.len(), 2);
    assert_eq!(
        chain.commands[0].args,
        vec!["run", "--output", "csv", "new.elf", "old.elf"].into_iter().map(String::from).collect::<Vec<_>>()
    );
    assert_eq!(chain.commands[1], CommandSpec { program: "cat".to_string(), args: vec![] });
}

#[test]
fn command_chain_pipes_in_order() {
    let a = CommandSpec { program: "a".to_string(), args: vec![] };
    let b = CommandSpec { program: "b".to_string(), args: vec!["x".to_string()] };
    let chain = CommandChain::new(a).pipe(b);
    let programs: Vec<&str> = chain.commands.iter().map(|c| c.program.as_str()).collect();
    assert_eq!(programs, vec!["a", "b"]);
}
