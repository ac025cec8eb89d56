//! The build step: which command builds an application's artifacts.

use vstd::prelude::*;

use crate::output::{CommandLine, CommandSpec};
use crate::table::string_texts;
use crate::text::{chars_of, has_prefix_at};

verus! {

/// The shell command that builds `application` and copies its artifacts to
/// `relative_output_dir`.
pub open spec fn build_script(application: Seq<char>, relative_output_dir: Seq<char>) -> Seq<char> {
    "source ./scripts/activate.sh >/dev/null && ./scripts/build/build_examples.py --log-level info --target '"@
        + application + "' build --copy-artifacts-to "@ + relative_output_dir
}

/// Applications named `linux-x64-...` are built on the host; all others in
/// the `bld_vscode` podman container.
pub open spec fn builds_on_host(application: Seq<char>) -> bool {
    "linux-x64-"@.is_prefix_of(application)
}

/// The command that runs the build: `bash -c <script>` on the host, else
/// `podman exec -w /workspace bld_vscode /bin/bash -c <script>`.
pub open spec fn build_command_line(application: Seq<char>, relative_output_dir: Seq<char>) -> CommandLine {
    let script = build_script(application, relative_output_dir);
    if builds_on_host(application) {
        CommandLine { program: "bash"@, args: seq!["-c"@, script] }
    } else {
        CommandLine {
            program: "podman"@,
            args: seq!["exec"@, "-w"@, "/workspace"@, "bld_vscode"@, "/bin/bash"@, "-c"@, script],
        }
    }
}

/// The build command of an application: dispatches to a local bash
/// execution or to a podman container based on the application name prefix.
pub fn build_command(application: &str, relative_output_dir: &str) -> (c: CommandSpec)
    ensures
        c@ == build_command_line(application@, relative_output_dir@),
{
    let mut script = String::from_str(
        "source ./scripts/activate.sh >/dev/null && ./scripts/build/build_examples.py --log-level info --target '",
    );
    script.append(application);
    script.append("' build --copy-artifacts-to ");
    script.append(relative_output_dir);
    let name = chars_of(application);
    let host_prefix = chars_of("linux-x64-");
    proof {
        assert(name@.skip(0) =~= name@);
    }
    if has_prefix_at(&name, 0, &host_prefix) {
        let args = vec![String::from_str("-c"), script];
        let c = CommandSpec { program: String::from_str("bash"), args };
        proof {
            assert(string_texts(c.args@) =~= build_command_line(application@, relative_output_dir@).args);
        }
        c
    } else {
        let args = vec![
            String::from_str("exec"),
            String::from_str("-w"),
            String::from_str("/workspace"),
            String::from_str("bld_vscode"),
            String::from_str("/bin/bash"),
            String::from_str("-c"),
            script,
        ];
        let c = CommandSpec { program: String::from_str("podman"), args };
        proof {
            assert(string_texts(c.args@) =~= build_command_line(application@, relative_output_dir@).args);
        }
        c
    }
}

} // verus!
