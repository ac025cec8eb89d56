//! Where reports go: the viewer choice, its resolution against the
//! programs that are installed, and the commands that show a report.

use vstd::prelude::*;

use crate::table::string_texts;
use crate::text::{
    chars_of, has_prefix_at, split_words, suffix_from, text_is,
    unicode_white_space, words,
};

verus! {

/// Columns shown by default in csvlens. Omits `Size1`/`Size2` which are rarely
/// useful and waste horizontal space; `Function`, `Type`, and `Size` cover most
/// review workflows.
pub const CSVLENS_DEFAULT_COLUMNS: &'static str = "Function|Size$|Type";

/// The viewer tool to pipe CSV output to.
#[derive(Debug, PartialEq)]
pub enum ViewerTool {
    /// Auto-detect: prefer `vd`, then `csvlens`, then plain table output.
    Default,
    Visidata,
    Csvlens,
    /// Pipe to an arbitrary program (with optional args) that reads CSV from stdin.
    Custom(Vec<String>),
}

/// A viewer choice as a mathematical value.
pub enum ViewerChoice {
    Default,
    Visidata,
    Csvlens,
    Custom(Seq<Seq<char>>),
}

impl View for ViewerTool {
    type V = ViewerChoice;

    open spec fn view(&self) -> ViewerChoice {
        match self {
            ViewerTool::Default => ViewerChoice::Default,
            ViewerTool::Visidata => ViewerChoice::Visidata,
            ViewerTool::Csvlens => ViewerChoice::Csvlens,
            ViewerTool::Custom(parts) => ViewerChoice::Custom(string_texts(parts@)),
        }
    }
}

/// Why a viewer name was not accepted.
#[derive(Debug, Clone, Copy, PartialEq, Eq, Structural)]
pub enum ViewerParseError {
    /// `custom:` names no program.
    EmptyCustom,
    /// Not one of `default`, `vd`, `visidata`, `csvlens`, `custom:<cmd>`.
    Unknown,
}

/// The viewer that a name selects: `default`, `vd` or `visidata`, `csvlens`,
/// or `custom:` followed by a program and its arguments separated by white
/// space (only the first `custom:` is the prefix: `custom:custom:foo` runs
/// the program `custom:foo`).
pub open spec fn viewer_from_text(s: Seq<char>) -> Result<ViewerChoice, ViewerParseError> {
    if s == "default"@ {
        Ok(ViewerChoice::Default)
    } else if s == "vd"@ || s == "visidata"@ {
        Ok(ViewerChoice::Visidata)
    } else if s == "csvlens"@ {
        Ok(ViewerChoice::Csvlens)
    } else if "custom:"@.is_prefix_of(s) {
        let parts = words(s.skip("custom:"@.len() as int));
        if parts.len() == 0 {
            Err(ViewerParseError::EmptyCustom)
        } else {
            Ok(ViewerChoice::Custom(parts))
        }
    } else {
        Err(ViewerParseError::Unknown)
    }
}

/// Parses a viewer name: `default`, `vd`, `visidata`, `csvlens`, or
/// `custom:<cmd>` where `custom:grep chip` runs `grep` with the argument `chip`.
pub fn parse_viewer(s: &str) -> (res: Result<ViewerTool, ViewerParseError>)
    ensures
        match res {
            Ok(v) => viewer_from_text(s@) == Ok::<ViewerChoice, ViewerParseError>(v@),
            Err(e) => viewer_from_text(s@) == Err::<ViewerChoice, ViewerParseError>(e),
        },
{
    let cs = chars_of(s);
    if text_is(&cs, "default") {
        return Ok(ViewerTool::Default);
    }
    if text_is(&cs, "vd") || text_is(&cs, "visidata") {
        return Ok(ViewerTool::Visidata);
    }
    if text_is(&cs, "csvlens") {
        return Ok(ViewerTool::Csvlens);
    }
    let prefix = chars_of("custom:");
    proof {
        reveal_strlit("custom:");
        assert(cs@.skip(0) =~= cs@);
    }
    if has_prefix_at(&cs, 0, &prefix) {
        let rest = suffix_from(&cs, prefix.len());
        let parts = split_words(&rest);
        if parts.len() == 0 {
            Err(ViewerParseError::EmptyCustom)
        } else {
            Ok(ViewerTool::Custom(parts))
        }
    } else {
        Err(ViewerParseError::Unknown)
    }
}

impl std::str::FromStr for ViewerTool {
    type Err = ViewerParseError;

    fn from_str(s: &str) -> (res: Result<Self, Self::Err>)
        ensures
            match res {
                Ok(v) => viewer_from_text(s@) == Ok::<ViewerChoice, ViewerParseError>(v@),
                Err(e) => viewer_from_text(s@) == Err::<ViewerChoice, ViewerParseError>(e),
            },
    {
        parse_viewer(s)
    }
}


/// The viewer that will actually be used.
#[derive(Debug, PartialEq)]
pub enum ResolvedViewer {
    Table,
    Visidata,
    Csvlens,
    Custom(Vec<String>),
}

/// A resolved viewer as a mathematical value.
pub enum ResolvedChoice {
    Table,
    Visidata,
    Csvlens,
    Custom(Seq<Seq<char>>),
}

impl View for ResolvedViewer {
    type V = ResolvedChoice;

    open spec fn view(&self) -> ResolvedChoice {
        match self {
            ResolvedViewer::Table => ResolvedChoice::Table,
            ResolvedViewer::Visidata => ResolvedChoice::Visidata,
            ResolvedViewer::Csvlens => ResolvedChoice::Csvlens,
            ResolvedViewer::Custom(parts) => ResolvedChoice::Custom(string_texts(parts@)),
        }
    }
}

/// The viewer a choice resolves to, given which of `vd` and `csvlens` are installed.
pub open spec fn resolution(v: ViewerChoice, has_vd: bool, has_csvlens: bool) -> ResolvedChoice {
    match v {
        ViewerChoice::Default => if has_vd {
            ResolvedChoice::Visidata
        } else if has_csvlens {
            ResolvedChoice::Csvlens
        } else {
            ResolvedChoice::Table
        },
        ViewerChoice::Visidata => ResolvedChoice::Visidata,
        ViewerChoice::Csvlens => ResolvedChoice::Csvlens,
        ViewerChoice::Custom(parts) => ResolvedChoice::Custom(parts),
    }
}

/// Whether an executable of this name is found on the search path
/// (`which::which`). Nothing is claimed: the answer depends on the machine.
#[verifier::external_body]
fn program_installed(name: &str) -> bool {
    which::which(name).is_ok()
}

/// A copy of a list of strings.
pub fn copy_strings(v: &Vec<String>) -> (r: Vec<String>)
    ensures
        string_texts(r@) == string_texts(v@),
{
    let mut r: Vec<String> = Vec::new();
    for i in 0..v.len()
        invariant
            string_texts(r@) == string_texts(v@).take(i as int),
    {
        let ghost prev = r@;
        r.push(v[i].clone());
        proof {
            assert(string_texts(prev).len() == prev.len());
            assert forall|k: int| 0 <= k < i implies string_texts(r@)[k] == string_texts(prev)[k] by {
                assert(r@[k] == prev[k]);
            }
            assert(string_texts(r@) =~= string_texts(v@).take(i + 1));
        }
    }
    proof {
        assert(string_texts(v@).take(v.len() as int) =~= string_texts(v@));
    }
    r
}

impl ViewerTool {
    /// Resolves this choice given which of `vd` and `csvlens` are installed.
    pub fn resolve_with(&self, has_vd: bool, has_csvlens: bool) -> (r: ResolvedViewer)
        ensures
            r@ == resolution(self@, has_vd, has_csvlens),
    {
        match self {
            ViewerTool::Default => {
                if has_vd {
                    ResolvedViewer::Visidata
                } else if has_csvlens {
                    ResolvedViewer::Csvlens
                } else {
                    ResolvedViewer::Table
                }
            },
            ViewerTool::Visidata => ResolvedViewer::Visidata,
            ViewerTool::Csvlens => ResolvedViewer::Csvlens,
            ViewerTool::Custom(parts) => ResolvedViewer::Custom(copy_strings(parts)),
        }
    }

    /// Resolve `Default` to a concrete choice based on what is installed:
    /// `vd` when it is found, else `csvlens` when it is found, else a plain table.
    pub fn resolve(&self) -> (r: ResolvedViewer)
        ensures
            exists|has_vd: bool, has_csvlens: bool| r@ == resolution(self@, has_vd, has_csvlens),
    {
        let has_vd = match self {
            ViewerTool::Default => program_installed("vd"),
            _ => false,
        };
        let has_csvlens = match self {
            ViewerTool::Default => !has_vd && program_installed("csvlens"),
            _ => false,
        };
        self.resolve_with(has_vd, has_csvlens)
    }
}

/// A program to run and its arguments.
#[derive(Debug, PartialEq)]
pub struct CommandSpec {
    pub program: String,
    pub args: Vec<String>,
}

/// A command as a mathematical value: program, then arguments.
pub struct CommandLine {
    pub program: Seq<char>,
    pub args: Seq<Seq<char>>,
}

impl View for CommandSpec {
    type V = CommandLine;

    open spec fn view(&self) -> CommandLine {
        CommandLine { program: self.program@, args: string_texts(self.args@) }
    }
}

/// The command that shows CSV read from its standard input, if any: `vd -`,
/// `csvlens --columns <default columns>`, or the custom program with its
/// arguments; a plain table is printed without a command.
pub open spec fn viewer_command_line(r: ResolvedChoice) -> Option<CommandLine> {
    match r {
        ResolvedChoice::Table => None,
        ResolvedChoice::Visidata => Some(CommandLine { program: "vd"@, args: seq!["-"@] }),
        ResolvedChoice::Csvlens => Some(CommandLine { program: "csvlens"@, args: seq!["--columns"@, CSVLENS_DEFAULT_COLUMNS@] }),
        ResolvedChoice::Custom(parts) => Some(CommandLine { program: parts[0], args: parts.skip(1) }),
    }
}

/// The command that shows a report on a resolved viewer; `None` for a plain table.
pub fn viewer_command(resolved: &ResolvedViewer) -> (c: Option<CommandSpec>)
    requires
        resolved matches ResolvedViewer::Custom(parts) ==> parts.len() > 0,
    ensures
        match c {
            Some(cmd) => viewer_command_line(resolved@) == Some(cmd@),
            None => viewer_command_line(resolved@) is None,
        },
{
    match resolved {
        ResolvedViewer::Table => None,
        ResolvedViewer::Visidata => {
            let args = vec![String::from_str("-")];
            proof {
                assert(string_texts(args@) =~= seq!["-"@]);
            }
            Some(CommandSpec { program: String::from_str("vd"), args })
        },
        ResolvedViewer::Csvlens => {
            let args = vec![String::from_str("--columns"), String::from_str(CSVLENS_DEFAULT_COLUMNS)];
            proof {
                assert(string_texts(args@) =~= seq!["--columns"@, CSVLENS_DEFAULT_COLUMNS@]);
            }
            Some(CommandSpec { program: String::from_str("csvlens"), args })
        },
        ResolvedViewer::Custom(parts) => {
            let program = parts[0].clone();
            let mut args: Vec<String> = Vec::new();
            for i in 1..parts.len()
                invariant
                    parts.len() > 0,
                    string_texts(args@) == string_texts(parts@).subrange(1, i as int),
            {
                let ghost prev = args@;
                args.push(parts[i].clone());
                proof {
                    assert(string_texts(prev).len() == prev.len());
                    assert forall|k: int| 0 <= k < prev.len() implies string_texts(args@)[k] == string_texts(prev)[k] by {
                        assert(args@[k] == prev[k]);
                    }
                    assert(string_texts(args@) =~= string_texts(parts@).subrange(1, i + 1));
                }
            }
            proof {
                assert(string_texts(parts@).subrange(1, parts.len() as int) =~= string_texts(parts@).skip(1));
            }
            Some(CommandSpec { program, args })
        },
    }
}

/// A chain of commands piped together: stdout of each feeds stdin of the next.
#[derive(Debug)]
pub struct CommandChain {
    pub commands: Vec<CommandSpec>,
}

/// The views of a list of commands.
pub open spec fn command_lines(v: Seq<CommandSpec>) -> Seq<CommandLine> {
    v.map_values(|c: CommandSpec| c@)
}

impl CommandChain {
    /// A chain of one command.
    pub fn new(initial_command: CommandSpec) -> (c: CommandChain)
        ensures
            command_lines(c.commands@) == seq![initial_command@],
    {
        let ghost v = initial_command@;
        let c = CommandChain { commands: vec![initial_command] };
        proof {
            assert(command_lines(c.commands@) =~= seq![v]);
        }
        c
    }

    /// The chain with `command` reading the output of its last command.
    pub fn pipe(self, command: CommandSpec) -> (c: CommandChain)
        ensures
            command_lines(c.commands@) == command_lines(self.commands@).push(command@),
    {
        let mut commands = self.commands;
        let ghost prev = commands@;
        let ghost v = command@;
        commands.push(command);
        proof {
            assert(command_lines(commands@) =~= command_lines(prev).push(v));
        }
        CommandChain { commands }
    }
}

/// The output format asked of the diff script: a table when the report is
/// printed as it is, CSV for a viewer.
pub open spec fn script_output_format(r: ResolvedChoice) -> Seq<char> {
    if r is Table {
        "table"@
    } else {
        "csv"@
    }
}

/// The chain that runs `diff_cmd` with `--output <format> <to> <from>` and
/// pipes its output into the resolved viewer's command.
pub open spec fn viewer_chain(diff_cmd: CommandLine, from_path: Seq<char>, to_path: Seq<char>, r: ResolvedChoice) -> Seq<CommandLine> {
    let first = CommandLine {
        program: diff_cmd.program,
        args: diff_cmd.args + seq!["--output"@, script_output_format(r), to_path, from_path],
    };
    match viewer_command_line(r) {
        Some(v) => seq![first, v],
        None => seq![first],
    }
}

/// Appends `extra` to the arguments of `cmd`.
pub fn add_args(cmd: &mut CommandSpec, extra: &Vec<String>)
    ensures
        final(cmd)@.program == old(cmd)@.program,
        final(cmd)@.args == old(cmd)@.args + string_texts(extra@),
{
    let ghost start = cmd.args@;
    for i in 0..extra.len()
        invariant
            cmd.program@ == old(cmd).program@,
            string_texts(cmd.args@) == string_texts(start) + string_texts(extra@).take(i as int),
    {
        let ghost prev = cmd.args@;
        let item = extra[i].clone();
        let ghost iv = item@;
        cmd.args.push(item);
        proof {
            assert(iv == string_texts(extra@)[i as int]);
            assert(string_texts(cmd.args@)[prev.len() as int] == iv);
            assert(string_texts(cmd.args@).len() == prev.len() + 1);
            assert(string_texts(prev).len() == prev.len());
            assert forall|k: int| 0 <= k < prev.len() implies string_texts(cmd.args@)[k] == string_texts(prev)[k] by {
                assert(cmd.args@[k] == prev[k]);
            }
            let target = string_texts(start) + string_texts(extra@).take(i + 1);
            let before = string_texts(start) + string_texts(extra@).take(i as int);
            assert(before.len() == prev.len());
            assert(target.len() == string_texts(cmd.args@).len());
            assert forall|k: int| 0 <= k < target.len() implies string_texts(cmd.args@)[k] == target[k] by {
                if k < prev.len() {
                    assert(string_texts(prev)[k] == before[k]);
                }
            }
            assert(string_texts(cmd.args@) =~= target);
        }
    }
    proof {
        assert(string_texts(extra@).take(extra.len() as int) =~= string_texts(extra@));
    }
}

/// Finalises the diff command with the correct `--output` flag and paths, then
/// wraps it in a `CommandChain` with the appropriate viewer piped on the end.
pub fn build_viewer_chain(diff_cmd: CommandSpec, from_path: &str, to_path: &str, viewer: &ViewerTool) -> (chain: CommandChain)
    requires
        viewer matches ViewerTool::Custom(parts) ==> parts.len() > 0,
    ensures
        exists|r: ResolvedChoice|
            (exists|has_vd: bool, has_csvlens: bool| r == resolution(viewer@, has_vd, has_csvlens))
            && command_lines(chain.commands@) == viewer_chain(diff_cmd@, from_path@, to_path@, r),
{
    let resolved = viewer.resolve();
    let format = match resolved {
        ResolvedViewer::Table => String::from_str("table"),
        _ => String::from_str("csv"),
    };
    let ghost d = diff_cmd@;
    let mut diff_cmd = diff_cmd;
    let extra = vec![String::from_str("--output"), format, to_path.to_owned(), from_path.to_owned()];
    add_args(&mut diff_cmd, &extra);
    proof {
        assert(string_texts(extra@) =~= seq!["--output"@, script_output_format(resolved@), to_path@, from_path@]);
        match viewer@ {
            ViewerChoice::Custom(parts) => {
                assert(resolved@ == ResolvedChoice::Custom(parts));
            },
            _ => {},
        }
    }
    let chain = match viewer_command(&resolved) {
        Some(v) => CommandChain::new(diff_cmd).pipe(v),
        None => CommandChain::new(diff_cmd),
    };
    proof {
        assert(command_lines(chain.commands@) =~= viewer_chain(d, from_path@, to_path@, resolved@));
    }
    chain
}


/// Words joined by single spaces.
pub open spec fn join_words(ws: Seq<Seq<char>>) -> Seq<char>
    decreases ws.len(),
{
    if ws.len() == 0 {
        seq![]
    } else if ws.len() == 1 {
        ws[0]
    } else {
        join_words(ws.drop_last()) + seq![' '] + ws.last()
    }
}

/// A non-empty text without white space.
pub open spec fn is_word(w: Seq<char>) -> bool {
    w.len() > 0 && forall|i: int| 0 <= i < w.len() ==> !unicode_white_space(#[trigger] w[i])
}

/// Appending a word to a text that is empty or ends in white space adds that word.
proof fn lemma_words_append_word(s: Seq<char>, w: Seq<char>)
    requires
        s.len() == 0 || unicode_white_space(s.last()),
        is_word(w),
    ensures
        words(s + w) == words(s).push(w),
    decreases w.len(),
{
    let c = w.last();
    let w0 = w.drop_last();
    assert(!unicode_white_space(w[w.len() - 1]));
    assert((s + w).drop_last() =~= s + w0);
    assert((s + w).last() == c);
    if w0.len() == 0 {
        assert(w =~= seq![c]);
        if s.len() > 0 {
            assert((s + w)[(s + w).len() - 2] == s.last());
        }
    } else {
        assert forall|i: int| 0 <= i < w0.len() implies !unicode_white_space(#[trigger] w0[i]) by {
            assert(w0[i] == w[i]);
        }
        lemma_words_append_word(s, w0);
        assert((s + w)[(s + w).len() - 2] == w0.last());
        assert(w0.last() == w[w.len() - 2]);
        assert(words(s).push(w0).drop_last() =~= words(s));
        assert(w0.push(c) =~= w);
    }
}

/// The words of words joined by spaces are those words.
proof fn lemma_words_of_join(ws: Seq<Seq<char>>)
    requires
        forall|i: int| 0 <= i < ws.len() ==> is_word(#[trigger] ws[i]),
    ensures
        words(join_words(ws)) == ws,
    decreases ws.len(),
{
    if ws.len() == 0 {
        assert(words(join_words(ws)) =~= ws);
    } else if ws.len() == 1 {
        assert(is_word(ws[0]));
        lemma_words_append_word(Seq::empty(), ws[0]);
        assert(Seq::<char>::empty() + ws[0] =~= ws[0]);
        assert(words(Seq::<char>::empty()) =~= Seq::<Seq<char>>::empty());
        assert(Seq::<Seq<char>>::empty().push(ws[0]) =~= ws);
    } else {
        let init = ws.drop_last();
        assert forall|i: int| 0 <= i < init.len() implies is_word(#[trigger] init[i]) by {
            assert(init[i] == ws[i]);
        }
        lemma_words_of_join(init);
        let spaced = join_words(init) + seq![' '];
        assert(unicode_white_space(spaced.last()));
        assert(spaced.drop_last() =~= join_words(init));
        assert(words(spaced) == words(join_words(init)));
        assert(is_word(ws[ws.len() - 1]));
        lemma_words_append_word(spaced, ws.last());
        assert(init.push(ws.last()) =~= ws);
    }
}

/// Law: `custom:` followed by words separated by single spaces selects the
/// custom viewer with exactly those words.
pub proof fn lemma_custom_viewer_round_trip(ws: Seq<Seq<char>>)
    requires
        ws.len() > 0,
        forall|i: int| 0 <= i < ws.len() ==> is_word(#[trigger] ws[i]),
    ensures
        viewer_from_text("custom:"@ + join_words(ws)) == Ok::<ViewerChoice, ViewerParseError>(ViewerChoice::Custom(ws)),
{
    reveal_strlit("custom:");
    reveal_strlit("default");
    reveal_strlit("vd");
    reveal_strlit("visidata");
    reveal_strlit("csvlens");
    let p = "custom:"@;
    let j = join_words(ws);
    let t = p + j;
    assert(p.len() == 7);
    assert(p.is_prefix_of(t)) by {
        assert(p =~= t.subrange(0, 7));
    }
    assert(t.skip(7) =~= j);
    lemma_words_of_join(ws);
    assert(t[0] == 'c');
    assert(t[1] == 'u');
    assert(t != "default"@) by {
        assert("default"@[0] == 'd');
    }
    assert(t != "vd"@) by {
        assert("vd"@[0] == 'v');
    }
    assert(t != "visidata"@) by {
        assert("visidata"@[0] == 'v');
    }
    assert(t != "csvlens"@) by {
        assert("csvlens"@[1] == 's');
    }
}

/// Law: the diff script is asked for CSV whenever its output goes to a
/// program (`vd`, `csvlens` or a custom viewer), which then reads it as the
/// second command of the chain; only when the report is printed as it is
/// does the script print a table, alone. Either way the script's arguments
/// end with `--output <format> <to> <from>`.
pub proof fn lemma_viewer_chain_output(diff_cmd: CommandLine, from_path: Seq<char>, to_path: Seq<char>, r: ResolvedChoice)
    ensures
        viewer_chain(diff_cmd, from_path, to_path, r)[0].program == diff_cmd.program,
        !(r is Table) ==> {
            &&& viewer_chain(diff_cmd, from_path, to_path, r).len() == 2
            &&& viewer_chain(diff_cmd, from_path, to_path, r)[0].args
                == diff_cmd.args + seq!["--output"@, "csv"@, to_path, from_path]
            &&& viewer_chain(diff_cmd, from_path, to_path, r)[1] == viewer_command_line(r).unwrap()
        },
        r is Table ==> {
            &&& viewer_chain(diff_cmd, from_path, to_path, r).len() == 1
            &&& viewer_chain(diff_cmd, from_path, to_path, r)[0].args
                == diff_cmd.args + seq!["--output"@, "table"@, to_path, from_path]
        },
{
}

/// The first `n` chains of a piping sequence hold the first commands.
proof fn lemma_chain_prefix(chains: Seq<Seq<CommandLine>>, cs: Seq<CommandLine>, n: int)
    requires
        chains.len() == cs.len(),
        0 <= n < cs.len(),
        chains[0] == seq![cs[0]],
        forall|i: int| 0 < i < chains.len() ==> #[trigger] chains[i] == chains[i - 1].push(cs[i]),
    ensures
        chains[n] == cs.take(n + 1),
    decreases n,
{
    if n == 0 {
        assert(cs.take(1) =~= seq![cs[0]]);
    } else {
        lemma_chain_prefix(chains, cs, n - 1);
        assert(chains[n] == chains[n - 1].push(cs[n]));
        assert(cs.take(n).push(cs[n]) =~= cs.take(n + 1));
    }
}

/// Law: a chain made by `CommandChain::new(c0)` and then `pipe(c1)`, ...,
/// `pipe(ck)` holds exactly the commands `c0, c1, ..., ck`, in this order.
/// `chains[i]` is the chain after the `i`-th step, as `new` and `pipe`
/// describe it.
pub proof fn lemma_piped_chain(chains: Seq<Seq<CommandLine>>, cs: Seq<CommandLine>)
    requires
        chains.len() == cs.len(),
        cs.len() > 0,
        chains[0] == seq![cs[0]],
        forall|i: int| 0 < i < chains.len() ==> #[trigger] chains[i] == chains[i - 1].push(cs[i]),
    ensures
        chains.last() == cs,
        forall|i: int| 0 <= i < chains.len() ==> #[trigger] chains[i] == cs.take(i + 1),
{
    assert forall|i: int| 0 <= i < chains.len() implies #[trigger] chains[i] == cs.take(i + 1) by {
        lemma_chain_prefix(chains, cs, i);
    }
    lemma_chain_prefix(chains, cs, cs.len() - 1);
    assert(cs.take(cs.len() as int) =~= cs);
}

/// Law: an explicit viewer choice resolves the same way whatever is
/// installed, and the automatic choice never resolves to a custom program.
pub proof fn lemma_resolution_choices(v: ViewerChoice, a: bool, b: bool, c: bool, d: bool)
    ensures
        !(v is Default) ==> resolution(v, a, b) == resolution(v, c, d),
        v is Default ==> !(resolution(v, a, b) is Custom),
{
}

} // verus!
