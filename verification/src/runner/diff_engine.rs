//! Comparisons that may also run the external size-diff script.

use vstd::prelude::*;

use crate::elf::diff_engine::{
    comparison_csv, engine_symbols, run_diff as compare_images, run_single as report_image,
    single_csv, DiffEngine as ImageEngine, EngineParseError, RunError,
};
pub use crate::output::ViewerTool;
use crate::output::{
    add_args, build_viewer_chain, command_lines, resolution, viewer_chain, CommandChain,
    CommandLine, CommandSpec, ResolvedChoice, ViewerChoice,
};
use crate::table::string_texts;
use crate::text::{chars_of, text_is};

verus! {

/// The diff engine to use for comparison.
#[derive(Debug, Clone, Copy, PartialEq, Eq, Structural)]
pub enum DiffEngine {
    Script,
    Nm,
    Native,
    Goblin,
}

/// The engine a name selects: `script`, `nm`, `native` or `goblin`, exactly.
pub open spec fn engine_from_text(s: Seq<char>) -> Option<DiffEngine> {
    if s == "script"@ {
        Some(DiffEngine::Script)
    } else if s == "nm"@ {
        Some(DiffEngine::Nm)
    } else if s == "native"@ {
        Some(DiffEngine::Native)
    } else if s == "goblin"@ {
        Some(DiffEngine::Goblin)
    } else {
        None
    }
}

/// Parses an engine name: `script`, `nm`, `native` or `goblin` (case-sensitive).
pub fn parse_diff_engine(s: &str) -> (res: Result<DiffEngine, EngineParseError>)
    ensures
        match res {
            Ok(e) => engine_from_text(s@) == Some(e),
            Err(_) => engine_from_text(s@) is None,
        },
{
    let cs = chars_of(s);
    if text_is(&cs, "script") {
        Ok(DiffEngine::Script)
    } else if text_is(&cs, "nm") {
        Ok(DiffEngine::Nm)
    } else if text_is(&cs, "native") {
        Ok(DiffEngine::Native)
    } else if text_is(&cs, "goblin") {
        Ok(DiffEngine::Goblin)
    } else {
        Err(EngineParseError)
    }
}

impl std::str::FromStr for DiffEngine {
    type Err = EngineParseError;

    fn from_str(s: &str) -> (res: Result<Self, Self::Err>)
        ensures
            match res {
                Ok(e) => engine_from_text(s@) == Some(e),
                Err(_) => engine_from_text(s@) is None,
            },
    {
        parse_diff_engine(s)
    }
}

/// The symbol-reading engine behind an engine other than the script.
pub open spec fn image_engine(e: DiffEngine) -> ImageEngine {
    match e {
        DiffEngine::Nm => ImageEngine::Nm,
        DiffEngine::Native => ImageEngine::Native,
        _ => ImageEngine::Goblin,
    }
}

fn to_image_engine(e: &DiffEngine) -> (r: ImageEngine)
    ensures
        r == image_engine(*e),
{
    match e {
        DiffEngine::Nm => ImageEngine::Nm,
        DiffEngine::Native => ImageEngine::Native,
        _ => ImageEngine::Goblin,
    }
}

/// What a comparison yields: a CSV report to show, or commands to run.
#[derive(Debug)]
pub enum DiffOutcome {
    /// The CSV report, to be piped to the viewer.
    Report(String),
    /// The chain of commands that runs the diff script and shows its output.
    Commands(CommandChain),
}

/// The command that runs the size difference script:
/// `uv run scripts/tools/binary_elf_size_diff.py`.
pub open spec fn script_command() -> CommandLine {
    CommandLine { program: "uv"@, args: seq!["run"@, "scripts/tools/binary_elf_size_diff.py"@] }
}

fn make_script_command() -> (c: CommandSpec)
    ensures
        c@ == script_command(),
{
    let args = vec![String::from_str("run"), String::from_str("scripts/tools/binary_elf_size_diff.py")];
    proof {
        assert(string_texts(args@) =~= script_command().args);
    }
    CommandSpec { program: String::from_str("uv"), args }
}

/// The commands of the script engine: with extra arguments, the script
/// alone with those arguments followed by `<to> <from>`; otherwise the
/// script piped into the viewer (see `viewer_chain`).
pub open spec fn script_commands(from_path: Seq<char>, to_path: Seq<char>, extra: Seq<Seq<char>>, r: ResolvedChoice) -> Seq<CommandLine> {
    if extra.len() == 0 {
        viewer_chain(script_command(), from_path, to_path, r)
    } else {
        seq![CommandLine { program: script_command().program, args: script_command().args + extra + seq![to_path, from_path] }]
    }
}

/// Executes the size difference script to compare the two artifact files:
/// the chain of commands to run.
pub fn run_script_diff(from_path: &str, to_path: &str, extra_args: &Vec<String>, viewer: &ViewerTool) -> (chain: CommandChain)
    requires
        viewer matches ViewerTool::Custom(parts) ==> parts.len() > 0,
    ensures
        exists|r: ResolvedChoice|
            (exists|has_vd: bool, has_csvlens: bool| r == resolution(viewer@, has_vd, has_csvlens))
            && command_lines(chain.commands@) == script_commands(from_path@, to_path@, string_texts(extra_args@), r),
{
    let mut diff_cmd = make_script_command();
    if extra_args.len() == 0 {
        let chain = build_viewer_chain(diff_cmd, from_path, to_path, viewer);
        proof {
            assert(string_texts(extra_args@).len() == 0);
            let r = choose|r: ResolvedChoice|
                (exists|has_vd: bool, has_csvlens: bool| r == resolution(viewer@, has_vd, has_csvlens))
                && command_lines(chain.commands@) == viewer_chain(script_command(), from_path@, to_path@, r);
            assert(command_lines(chain.commands@) == script_commands(from_path@, to_path@, string_texts(extra_args@), r));
        }
        chain
    } else {
        add_args(&mut diff_cmd, extra_args);
        let paths = vec![to_path.to_owned(), from_path.to_owned()];
        add_args(&mut diff_cmd, &paths);
        let chain = CommandChain::new(diff_cmd);
        proof {
            assert(string_texts(paths@) =~= seq![to_path@, from_path@]);
            assert(string_texts(extra_args@).len() > 0);
            let r = resolution(viewer@, false, false);
            assert(exists|has_vd: bool, has_csvlens: bool| r == resolution(viewer@, has_vd, has_csvlens));
            assert(command_lines(chain.commands@) =~= script_commands(from_path@, to_path@, string_texts(extra_args@), r));
        }
        chain
    }
}

/// What running a comparison gives: for the script engine, the commands of
/// the script (over some resolution of the viewer); for the others, the CSV
/// report of the symbols read from `from_data` and `to_data`, or the first
/// error.
pub open spec fn diff_run(
    engine: DiffEngine,
    from_path: Seq<char>,
    to_path: Seq<char>,
    from_data: Seq<u8>,
    to_data: Seq<u8>,
    extra: Seq<Seq<char>>,
    viewer: ViewerChoice,
    res: Result<DiffOutcome, RunError>,
) -> bool {
    if engine == DiffEngine::Script {
        match res {
            Ok(DiffOutcome::Commands(chain)) => exists|r: ResolvedChoice|
                (exists|has_vd: bool, has_csvlens: bool| r == resolution(viewer, has_vd, has_csvlens))
                && command_lines(chain.commands@) == script_commands(from_path, to_path, extra, r),
            _ => false,
        }
    } else {
        let e = image_engine(engine);
        match (engine_symbols(e, from_data), engine_symbols(e, to_data)) {
            (Ok(a), Ok(b)) => match res {
                Ok(DiffOutcome::Report(s)) => s@ == comparison_csv(a, b),
                _ => false,
            },
            (Err(x), _) => match res {
                Err(y) => x == y,
                _ => false,
            },
            (Ok(_), Err(x)) => match res {
                Err(y) => x == y,
                _ => false,
            },
        }
    }
}

/// Law: for every engine but the script, the outcome of a comparison does
/// not depend on the extra arguments (only the script reads them), nor on
/// the paths or the viewer: two runs on the same data give the same report
/// or the same error.
pub proof fn lemma_report_ignores_script_inputs(
    engine: DiffEngine,
    from_data: Seq<u8>,
    to_data: Seq<u8>,
    from_path1: Seq<char>,
    to_path1: Seq<char>,
    extra1: Seq<Seq<char>>,
    viewer1: ViewerChoice,
    res1: Result<DiffOutcome, RunError>,
    from_path2: Seq<char>,
    to_path2: Seq<char>,
    extra2: Seq<Seq<char>>,
    viewer2: ViewerChoice,
    res2: Result<DiffOutcome, RunError>,
)
    requires
        engine != DiffEngine::Script,
        diff_run(engine, from_path1, to_path1, from_data, to_data, extra1, viewer1, res1),
        diff_run(engine, from_path2, to_path2, from_data, to_data, extra2, viewer2, res2),
    ensures
        match (res1, res2) {
            (Ok(DiffOutcome::Report(a)), Ok(DiffOutcome::Report(b))) => a@ == b@,
            (Err(a), Err(b)) => a == b,
            _ => false,
        },
{
}

/// Runs the comparison between two artifact files with the selected engine:
/// the script engine yields the commands that run the diff script, the
/// others the CSV report of the two images' symbols, read from
/// `from_data` and `to_data` (for `nm`, the output of `nm --print-size`
/// on each image; for the others, the images' bytes).
pub fn run_diff(
    from_path: &str,
    to_path: &str,
    from_data: &[u8],
    to_data: &[u8],
    diff_engine: &DiffEngine,
    extra_args: &Vec<String>,
    viewer: &ViewerTool,
) -> (res: Result<DiffOutcome, RunError>)
    requires
        viewer matches ViewerTool::Custom(parts) ==> parts.len() > 0,
    ensures
        diff_run(*diff_engine, from_path@, to_path@, from_data@, to_data@, string_texts(extra_args@), viewer@, res),
{
    match diff_engine {
        DiffEngine::Script => Ok(DiffOutcome::Commands(run_script_diff(from_path, to_path, extra_args, viewer))),
        _ => {
            let engine = to_image_engine(diff_engine);
            match compare_images(from_data, to_data, &engine) {
                Ok(csv) => Ok(DiffOutcome::Report(csv)),
                Err(e) => Err(e),
            }
        },
    }
}

/// Runs the symbol size analysis for a single artifact file: the CSV size
/// report of the symbols read from `data` (as for `run_diff`); the script
/// engine compares two files only.
pub fn run_single(data: &[u8], diff_engine: &DiffEngine) -> (res: Result<String, RunError>)
    ensures
        *diff_engine == DiffEngine::Script ==> res == Err::<String, RunError>(RunError::SingleFileUnsupported),
        *diff_engine != DiffEngine::Script ==> match engine_symbols(image_engine(*diff_engine), data@) {
            Ok(s) => res is Ok && res.unwrap()@ == single_csv(s),
            Err(e) => res == Err::<String, RunError>(e),
        },
{
    match diff_engine {
        DiffEngine::Script => Err(RunError::SingleFileUnsupported),
        _ => {
            let engine = to_image_engine(diff_engine);
            report_image(data, &engine)
        },
    }
}

} // verus!
