use elf_size::elf::diff_engine::{self as image_engine, RunError};
use elf_size::elf::symbols::SymbolReadError;
use elf_size::runner::build_engine::build_command;
use elf_size::runner::diff_engine::{run_diff, run_single, DiffEngine, DiffOutcome, ViewerTool};

#[test]
fn diff_engine_test_parse_diff_engine_known() {
    assert_eq!("nm".parse::<image_engine::DiffEngine>().unwrap(), image_engine::DiffEngine::Nm);
    assert_eq!("native".parse::<image_engine::DiffEngine>().unwrap(), image_engine::DiffEngine::Native);
    assert_eq!("goblin".parse::<image_engine::DiffEngine>().unwrap(), image_engine::DiffEngine::Goblin);

    assert_eq!("script".parse::<DiffEngine>().unwrap(), DiffEngine::Script);
    assert_eq!("nm".parse::<DiffEngine>().unwrap(), DiffEngine::Nm);
    assert_eq!("native".parse::<DiffEngine>().unwrap(), DiffEngine::Native);
    assert_eq!("goblin".parse::<DiffEngine>().unwrap(), DiffEngine::Goblin);
}

#[test]
fn diff_engine_test_parse_diff_engine_unknown() {
    assert!("".parse::<image_engine::DiffEngine>().is_err());
    assert!("default".parse::<image_engine::DiffEngine>().is_err());
    assert!("Native".parse::<image_engine::DiffEngine>().is_err());
    assert!("script".parse::<image_engine::DiffEngine>().is_err());

    assert!("".parse::<DiffEngine>().is_err());
    assert!("default".parse::<DiffEngine>().is_err());
    assert!("Native".parse::<DiffEngine>().is_err());
}

#[test]
fn diff_engine_test_parse_known_variants() {
    assert_eq!("default".parse::<ViewerTool>().unwrap(), ViewerTool::Default);
    assert_eq!("vd".parse::<ViewerTool>().unwrap(), ViewerTool::Visidata);
    assert_eq!("visidata".parse::<ViewerTool>().unwrap(), ViewerTool::Visidata);
    assert_eq!("csvlens".parse::<ViewerTool>().unwrap(), ViewerTool::Csvlens);
}

#[test]
fn diff_engine_test_parse_custom_single_arg() {
    assert_eq!(
        "custom:myviewer".parse::<ViewerTool>().unwrap(),
        ViewerTool::Custom(vec!["myviewer".to_string()]),
    );
}

#[test]
fn diff_engine_test_parse_custom_multi_arg() {
    assert_eq!(
        "custom:grep chip".parse::<ViewerTool>().unwrap(),
        ViewerTool::Custom(vec!["grep".to_string(), "chip".to_string()]),
    );
}

#[test]
fn diff_engine_test_parse_custom_extra_whitespace() {
    assert_eq!(
        "custom:  grep   -i  foo  ".parse::<ViewerTool>().unwrap(),
        ViewerTool::Custom(vec!["grep".to_string(), "-i".to_string(), "foo".to_string()]),
    );
}

#[test]
fn diff_engine_test_parse_custom_empty_is_error() {
    assert!("custom:".parse::<ViewerTool>().is_err());
    assert!("custom:   ".parse::<ViewerTool>().is_err());
}

#[test]
fn diff_engine_test_parse_unknown_is_error() {
    assert!("".parse::<ViewerTool>().is_err());
    assert!("foobar".parse::<ViewerTool>().is_err());
    assert!("Custom:foo".parse::<ViewerTool>().is_err());
}

#[test]
fn diff_engine_test_resolve_visidata() {
    assert_eq!(ViewerTool::Visidata.resolve(), elf_size::output::ResolvedViewer::Visidata);
}

#[test]
fn diff_engine_test_resolve_csvlens() {
    assert_eq!(ViewerTool::Csvlens.resolve(), elf_size::output::ResolvedViewer::Csvlens);
}

#[test]
fn diff_engine_test_resolve_custom_preserves_args() {
    let parts = vec!["grep".to_string(), "chip".to_string()];
    assert_eq!(
        ViewerTool::Custom(parts.clone()).resolve(),
        elf_size::output::ResolvedViewer::Custom(parts),
    );
}

#[test]
fn diff_engine_test_resolve_default_returns_valid_variant() {
    let resolved = ViewerTool::Default.resolve();
    assert!(matches!(
        resolved,
        elf_size::output::ResolvedViewer::Visidata
            | elf_size::output::ResolvedViewer::Csvlens
            | elf_size::output::ResolvedViewer::Table
    ));
}

#[test]
fn run_on_bytes_that_are_not_elf() {
    let junk = b"definitely not an ELF image";
    assert_eq!(
        image_engine::run_diff(junk, junk, &image_engine::DiffEngine::Native),
        Err(RunError::Symbols(SymbolReadError::Malformed))
    );
    assert_eq!(
        image_engine::run_single(junk, &image_engine::DiffEngine::Goblin),
        Err(RunError::Symbols(SymbolReadError::Malformed))
    );
    assert_eq!(
        image_engine::run_single(&[0xff, 0xfe, 0x00], &image_engine::DiffEngine::Nm),
        Err(RunError::Symbols(SymbolReadError::Malformed))
    );
}

#[test]
fn nm_listing_gives_the_sized_symbols() {
    let base = "\nfoo.o:\n0000000000001139 000000000000000b T main\n                 U puts\n0000000000004010 0000000000000004 B counter\n0000000000002000 0000000000000010 r _ZN6System5Layer4InitEv\n";
    let syms = elf_size::elf::parsers::NmParser.symbols_from_listing(base);
    assert_eq!(syms.len(), 3);
    assert_eq!(syms[0].name, "main");
    assert_eq!(syms[0].kind, elf_size::elf::symbols::SymbolKind::Code);
    assert_eq!(syms[0].size, 11);
    assert_eq!(syms[0].address, Some(0x1139));
    assert_eq!(syms[1].kind, elf_size::elf::symbols::SymbolKind::Bss);
    assert_eq!(syms[2].demangled, "System::Layer::Init()");
    assert_eq!(syms[2].kind, elf_size::elf::symbols::SymbolKind::Data);
    assert_eq!(syms[2].size, 16);

    let new = "0000000000001139 000000000000002B T main\n0000000000004010 0000000000000004 B counter\n";
    let csv = image_engine::run_diff(base.as_bytes(), new.as_bytes(), &image_engine::DiffEngine::Nm).unwrap();
    assert_eq!(
        csv,
        "Change,Type,Diff,Symbol,Base Size,Size\nREMOVED,Data,-16,System::Layer::Init(),16,0\nCHANGED,Code,32,main,11,43\nTOTAL,,+16,,31,47\n"
    );
    assert_eq!(
        run_single(new.as_bytes(), &DiffEngine::Nm).unwrap(),
        "Type,Size,Symbol\nCode,43,main\nBss,4,counter\nTOTAL,47,\n"
    );
}

#[test]
fn nm_listing_skips_words_that_are_not_numbers() {
    let listing = "zz 0000000000000004 D a\n0000000000000001 10000000000000000 D b\n0000000000000001 0004 DD c\n";
    assert!(elf_size::elf::parsers::NmParser.symbols_from_listing(listing).is_empty());
}

#[test]
fn script_engine_runs_the_diff_script() {
    assert_eq!(run_single(b"", &DiffEngine::Script), Err(RunError::SingleFileUnsupported));
    let extra = vec!["--only-changed".to_string()];
    match run_diff("a.elf", "b.elf", b"", b"", &DiffEngine::Script, &extra, &ViewerTool::Visidata) {
        Ok(DiffOutcome::Commands(chain)) => {
            assert_eq!(chain.commands.len(), 1);
            assert_eq!(chain.commands[0].program, "uv");
            assert_eq!(
                chain.commands[0].args,
                vec!["run", "scripts/tools/binary_elf_size_diff.py", "--only-changed", "b.elf", "a.elf"]
                    .into_iter()
                    .map(String::from)
                    .collect::<Vec<_>>()
            );
        }
        other => panic!("unexpected outcome {:?}", other),
    }
    match run_diff("a.elf", "b.elf", b"", b"", &DiffEngine::Script, &vec![], &ViewerTool::Visidata) {
        Ok(DiffOutcome::Commands(chain)) => {
            assert_eq!(chain.commands.len(), 2);
            assert_eq!(chain.commands[1].program, "vd");
        }
        other => panic!("unexpected outcome {:?}", other),
    }
}

#[test]
fn build_command_host_or_podman() {
    let host = build_command("linux-x64-app", "out");
    assert_eq!(host.program, "bash");
    assert_eq!(host.args[0], "-c");
    assert_eq!(
        host.args[1],
        "source ./scripts/activate.sh >/dev/null && ./scripts/build/build_examples.py --log-level info --target 'linux-x64-app' build --copy-artifacts-to out"
    );
    let podman = build_command("efr32-light", "out/x");
    assert_eq!(podman.program, "podman");
    assert_eq!(podman.args.len(), 7);
    assert_eq!(podman.args[3], "bld_vscode");
    assert!(podman.args[6].ends_with("--copy-artifacts-to out/x"));
}
