//! Which command a project request runs, and how its result is reported.
use vstd::prelude::*;
use vstd::string::*;

use crate::text;
use crate::text::{join, push_integer, same, starts_with};

verus! {

/// A toolchain that was found in a project.
#[derive(Debug)]
pub struct Toolchain {
    pub name: String,
    pub build_tool: String,
    pub test_cmd: Vec<String>,
    pub build_cmd: Vec<String>,
    pub lint_cmd: Option<Vec<String>>,
    pub typecheck_cmd: Option<Vec<String>>,
}

/// What can be asked of a project.
#[derive(Clone, Copy, Debug, PartialEq, Eq, Structural)]
pub enum ProjectAction {
    Info,
    Run,
    Test,
    Build,
    Lint,
    Typecheck,
}

/// The words of a command, as they are shown.
pub open spec fn command_line(cmd: Seq<String>) -> Seq<char> {
    text::joined(text::texts(cmd), " "@)
}

/// A line of the description, left out where there is no such command.
pub open spec fn optional_line(label: Seq<char>, cmd: Option<Vec<String>>) -> Seq<char> {
    match cmd {
        Some(cmd) => label + command_line(cmd@) + "\n"@,
        None => Seq::empty(),
    }
}

/// The description of a toolchain.
pub open spec fn description(tc: Toolchain, available: bool) -> Seq<char> {
    "# Project toolchain: "@ + tc.name@ + (if available {
        ""@
    } else {
        " (not found on PATH)"@
    }) + "\n\nBuild tool: "@ + tc.build_tool@ + "\nTest:       "@ + command_line(tc.test_cmd@)
        + "\nBuild:      "@ + command_line(tc.build_cmd@) + "\n"@ + optional_line(
        "Lint:       "@,
        tc.lint_cmd,
    ) + optional_line("Typecheck:  "@, tc.typecheck_cmd)
}

/// The descriptions of all toolchains, with an empty line between each two.
pub open spec fn descriptions(toolchains: Seq<Toolchain>, available: Seq<bool>) -> Seq<char>
    decreases toolchains.len(),
{
    if toolchains.len() == 0 {
        Seq::empty()
    } else {
        let n = toolchains.len() - 1;
        let rest = descriptions(toolchains.drop_last(), available);
        let last = description(toolchains[n], available[n]);
        if n == 0 {
            last
        } else {
            rest + "\n"@ + last
        }
    }
}

/// The message where no toolchain was found.
pub open spec fn no_toolchain() -> Seq<char> {
    "No recognized toolchain found. Looked for: Cargo.toml, package.json, go.mod, pyproject.toml, setup.py, pubspec.yaml, Gemfile, Makefile, pom.xml, build.gradle(.kts), build.sbt"@
}

fn no_toolchain_message() -> (r: String)
    ensures
        r@ == no_toolchain(),
{
    "No recognized toolchain found. Looked for: Cargo.toml, package.json, go.mod, pyproject.toml, setup.py, pubspec.yaml, Gemfile, Makefile, pom.xml, build.gradle(.kts), build.sbt".to_owned()
}

/// The message where a toolchain has no command of a kind.
pub open spec fn not_configured(kind: Seq<char>, tc: Toolchain) -> Seq<char> {
    "No "@ + kind + " command configured for "@ + tc.name@ + " toolchain"@
}

fn not_configured_message(kind: &str, tc: &Toolchain) -> (r: String)
    ensures
        r@ == not_configured(kind@, *tc),
{
    let mut out = "No ".to_owned();
    out.append(kind);
    out.append(" command configured for ");
    out.append(tc.name.as_str());
    out.append(" toolchain");
    out
}

fn push_optional_line(out: &mut String, label: &str, cmd: &Option<Vec<String>>)
    ensures
        final(out)@ == old(out)@ + optional_line(label@, *cmd),
{
    match cmd {
        Some(cmd) => {
            let mut line = label.to_owned();
            let words = join(cmd, " ");
            line.append(words.as_str());
            line.append("\n");
            out.append(line.as_str());
        },
        None => {
            assert(out@ + Seq::<char>::empty() == out@);
        },
    }
}

fn describe(tc: &Toolchain, available: bool) -> (r: String)
    ensures
        r@ == description(*tc, available),
{
    let mut out = "# Project toolchain: ".to_owned();
    out.append(tc.name.as_str());
    if available {
        out.append("");
    } else {
        out.append(" (not found on PATH)");
    }
    out.append("\n\nBuild tool: ");
    out.append(tc.build_tool.as_str());
    out.append("\nTest:       ");
    let test = join(&tc.test_cmd, " ");
    out.append(test.as_str());
    out.append("\nBuild:      ");
    let build = join(&tc.build_cmd, " ");
    out.append(build.as_str());
    out.append("\n");
    push_optional_line(&mut out, "Lint:       ", &tc.lint_cmd);
    push_optional_line(&mut out, "Typecheck:  ", &tc.typecheck_cmd);
    out
}

/// Describes the toolchains. `available[k]` tells that the build tool of
/// `toolchains[k]` can be found.
pub fn info_report(toolchains: &Vec<Toolchain>, available: &Vec<bool>) -> (r: Result<
    String,
    String,
>)
    requires
        available@.len() == toolchains@.len(),
    ensures
        match r {
            Ok(report) => toolchains@.len() > 0 && report@ == descriptions(
                toolchains@,
                available@,
            ),
            Err(message) => toolchains@.len() == 0 && message@ == no_toolchain(),
        },
{
    let n: usize = toolchains.len();
    if n == 0 {
        return Err(no_toolchain_message());
    }
    let mut out = String::new();
    let mut i: usize = 0;
    while i < n
        invariant
            n == toolchains@.len(),
            available@.len() == n,
            i <= n,
            out@ == descriptions(toolchains@.take(i as int), available@),
        decreases n - i,
    {
        let ghost done = toolchains@.take(i + 1);
        assert(done.drop_last() == toolchains@.take(i as int));
        if i > 0 {
            out.append("\n");
        }
        let text = describe(&toolchains[i], available[i]);
        out.append(text.as_str());
        assert(Seq::<char>::empty() + text@ == text@);
        i = i + 1;
    }
    assert(toolchains@.take(n as int) == toolchains@);
    Ok(out)
}

/// The command that a name stands for, or the message why there is none.
pub open spec fn command_named(tc: Toolchain, name: Seq<char>) -> Result<Vec<String>, Seq<char>> {
    if name == "test"@ {
        Ok(tc.test_cmd)
    } else if name == "build"@ {
        Ok(tc.build_cmd)
    } else if name == "lint"@ {
        match tc.lint_cmd {
            Some(cmd) => Ok(cmd),
            None => Err(not_configured("lint"@, tc)),
        }
    } else if name == "typecheck"@ {
        match tc.typecheck_cmd {
            Some(cmd) => Ok(cmd),
            None => Err(not_configured("typecheck"@, tc)),
        }
    } else {
        Err(
            "Unknown run subcommand '"@ + name
                + "'. Supported: test, build, lint, typecheck"@,
        )
    }
}

fn find_command<'a>(tc: &'a Toolchain, name: &str) -> (r: Result<&'a Vec<String>, String>)
    ensures
        match r {
            Ok(cmd) => command_named(*tc, name@) == Ok::<Vec<String>, Seq<char>>(*cmd),
            Err(message) => command_named(*tc, name@) == Err::<Vec<String>, Seq<char>>(message@),
        },
{
    if same(name, "test") {
        Ok(&tc.test_cmd)
    } else if same(name, "build") {
        Ok(&tc.build_cmd)
    } else if same(name, "lint") {
        match &tc.lint_cmd {
            Some(cmd) => Ok(cmd),
            None => Err(not_configured_message("lint", tc)),
        }
    } else if same(name, "typecheck") {
        match &tc.typecheck_cmd {
            Some(cmd) => Ok(cmd),
            None => Err(not_configured_message("typecheck", tc)),
        }
    } else {
        let mut message = "Unknown run subcommand '".to_owned();
        message.append(name);
        message.append("'. Supported: test, build, lint, typecheck");
        Err(message)
    }
}

/// A command to execute.
#[derive(Debug)]
pub struct Execution<'a> {
    pub cmd: &'a Vec<String>,
    pub filter: Option<&'a str>,
    /// The number of seconds after which to give up.
    pub timeout: u64,
    pub label: &'static str,
}

/// What a request leads to.
#[derive(Debug)]
pub enum ProjectStep<'a> {
    /// Answer without running anything.
    Answer(String),
    /// Run a command, then report on it.
    Execute(Execution<'a>),
}

/// The label and the command name of an action that runs a command.
pub open spec fn label_and_command(action: ProjectAction) -> (Seq<char>, Seq<char>) {
    match action {
        ProjectAction::Build => ("BUILD"@, "build"@),
        ProjectAction::Lint => ("LINT"@, "lint"@),
        ProjectAction::Typecheck => ("TYPECHECK"@, "typecheck"@),
        _ => ("TEST"@, "test"@),
    }
}

/// The answer that shows a command without running it.
pub open spec fn dry_run(tc: Toolchain, name: Seq<char>, cmd: Seq<String>) -> Seq<char> {
    "# "@ + tc.name@ + " "@ + name + " (dry-run — command not executed)\n$ "@ + command_line(cmd)
        + "\n"@
}

/// The number of seconds a command may take: sixty by default, and six hundred
/// at most.
pub open spec fn time_allowed(timeout: Option<u64>) -> u64 {
    match timeout {
        Some(seconds) => if seconds > 600 {
            600
        } else {
            seconds
        },
        None => 60,
    }
}

/// The name of the command that a dry run shows.
pub open spec fn run_name(filter: Option<&str>) -> Seq<char> {
    match filter {
        Some(name) => name@,
        None => "test"@,
    }
}

/// Whether a filter could be taken for an option.
pub open spec fn like_option(filter: Option<&str>) -> bool {
    match filter {
        Some(filter) => "-"@.is_prefix_of(filter@),
        None => false,
    }
}

/// Decides what a request leads to. The first toolchain runs the commands.
pub fn qartez_project<'a>(
    toolchains: &'a Vec<Toolchain>,
    available: &Vec<bool>,
    action: ProjectAction,
    filter: Option<&'a str>,
    timeout: Option<u64>,
) -> (r: Result<ProjectStep<'a>, String>)
    requires
        available@.len() == toolchains@.len(),
    ensures
        toolchains@.len() == 0 ==> r is Err && r->Err_0@ == no_toolchain(),
        toolchains@.len() > 0 && action is Info ==> (r matches Ok(ProjectStep::Answer(report))
            && report@ == descriptions(toolchains@, available@)),
        toolchains@.len() > 0 && action is Run ==> (match command_named(
            toolchains@[0],
            run_name(filter),
        ) {
            Ok(cmd) => r matches Ok(ProjectStep::Answer(report)) && report@ == dry_run(
                toolchains@[0],
                run_name(filter),
                cmd@,
            ),
            Err(message) => r is Err && r->Err_0@ == message,
        }),
        toolchains@.len() > 0 && !(action is Info) && !(action is Run) ==> (match command_named(
            toolchains@[0],
            label_and_command(action).1,
        ) {
            Ok(cmd) => if like_option(filter) {
                r is Err && r->Err_0@ == "Filter must not start with '-': "@ + filter->0@
            } else {
                r matches Ok(ProjectStep::Execute(run)) && run.cmd == cmd && run.filter == filter
                    && run.timeout == time_allowed(timeout) && run.label@ == label_and_command(
                    action,
                ).0
            },
            Err(message) => r is Err && r->Err_0@ == message,
        }),
{
    if toolchains.len() == 0 {
        return Err(no_toolchain_message());
    }
    let tc = &toolchains[0];
    match action {
        ProjectAction::Info => {
            match info_report(toolchains, available) {
                Ok(report) => Ok(ProjectStep::Answer(report)),
                Err(message) => Err(message),
            }
        },
        ProjectAction::Run => {
            let name = match filter {
                Some(name) => name,
                None => "test",
            };
            match find_command(tc, name) {
                Ok(cmd) => {
                    let mut out = "# ".to_owned();
                    out.append(tc.name.as_str());
                    out.append(" ");
                    out.append(name);
                    out.append(" (dry-run — command not executed)\n$ ");
                    let words = join(cmd, " ");
                    out.append(words.as_str());
                    out.append("\n");
                    Ok(ProjectStep::Answer(out))
                },
                Err(message) => Err(message),
            }
        },
        ProjectAction::Test => plan_execution(tc, "TEST", "test", filter, timeout),
        ProjectAction::Build => plan_execution(tc, "BUILD", "build", filter, timeout),
        ProjectAction::Lint => plan_execution(tc, "LINT", "lint", filter, timeout),
        ProjectAction::Typecheck => plan_execution(tc, "TYPECHECK", "typecheck", filter, timeout),
    }
}

fn plan_execution<'a>(
    tc: &'a Toolchain,
    label: &'static str,
    name: &str,
    filter: Option<&'a str>,
    timeout: Option<u64>,
) -> (r: Result<ProjectStep<'a>, String>)
    ensures
        match command_named(*tc, name@) {
            Ok(cmd) => if like_option(filter) {
                r is Err && r->Err_0@ == "Filter must not start with '-': "@ + filter->0@
            } else {
                r matches Ok(ProjectStep::Execute(run)) && run.cmd == cmd && run.filter == filter
                    && run.timeout == time_allowed(timeout) && run.label == label
            },
            Err(message) => r is Err && r->Err_0@ == message,
        },
{
    let cmd = match find_command(tc, name) {
        Ok(cmd) => cmd,
        Err(message) => {
            return Err(message);
        },
    };
    match filter {
        Some(text) => {
            if starts_with(text, "-") {
                let mut message = "Filter must not start with '-': ".to_owned();
                message.append(text);
                return Err(message);
            }
        },
        None => {},
    }
    let timeout: u64 = match timeout {
        Some(seconds) => if seconds > 600 {
            600
        } else {
            seconds
        },
        None => 60,
    };
    Ok(ProjectStep::Execute(Execution { cmd, filter, timeout, label }))
}

/// The report on a command that was run.
pub open spec fn run_report(
    label: Seq<char>,
    exit_code: int,
    cmd: Seq<String>,
    filter: Option<&str>,
    output: Seq<char>,
) -> Seq<char> {
    "# "@ + label + " "@ + (if exit_code == 0 {
        "SUCCESS"@
    } else {
        "FAILED"@
    }) + " (exit code: "@ + text::integer(exit_code) + ")\n$ "@ + command_line(cmd) + (
    match filter {
        Some(filter) => " "@ + filter@,
        None => ""@,
    }) + "\n\n"@ + output
}

/// Reports on a command that was run.
pub fn report_run(run: &Execution<'_>, exit_code: i32, output: &str) -> (r: String)
    ensures
        r@ == run_report(run.label@, exit_code as int, run.cmd@, run.filter, output@),
{
    let mut out = "# ".to_owned();
    out.append(run.label);
    out.append(" ");
    if exit_code == 0 {
        out.append("SUCCESS");
    } else {
        out.append("FAILED");
    }
    out.append(" (exit code: ");
    push_integer(&mut out, exit_code as i64);
    out.append(")\n$ ");
    let words = join(run.cmd, " ");
    out.append(words.as_str());
    let mut suffix = "".to_owned();
    match run.filter {
        Some(filter) => {
            suffix = " ".to_owned();
            suffix.append(filter);
        },
        None => {},
    }
    out.append(suffix.as_str());
    out.append("\n\n");
    out.append(output);
    out
}

/// No command runs longer than six hundred seconds, and a request for less is
/// kept.
pub proof fn law_time_is_bounded(timeout: Option<u64>)
    ensures
        time_allowed(timeout) <= 600,
        timeout is Some && timeout->0 <= 600 ==> time_allowed(timeout) == timeout->0,
{
}

/// Whether a request ends in running `cmd`, under a label and with the filter and
/// the time that were asked for.
pub open spec fn executes(
    r: Result<ProjectStep<'_>, String>,
    cmd: Vec<String>,
    label: Seq<char>,
    filter: Option<&str>,
    timeout: u64,
) -> bool {
    match r {
        Ok(ProjectStep::Execute(run)) => run.cmd == cmd && run.label@ == label && run.filter
            == filter && run.timeout == timeout,
        _ => false,
    }
}

/// Whether a request ends in an answer that shows a command line without running
/// anything.
pub open spec fn shows(r: Result<ProjectStep<'_>, String>, name: Seq<char>, cmd: Vec<String>) -> bool {
    match r {
        Ok(ProjectStep::Answer(answer)) => text::contains_text(
            answer@,
            "$ "@ + text::joined(text::texts(cmd@), " "@) + "\n"@,
        ) && text::contains_text(answer@, name),
        _ => false,
    }
}

/// Whether a request is refused with a message that holds some words.
pub open spec fn refuses(r: Result<ProjectStep<'_>, String>, words: Seq<char>) -> bool {
    match r {
        Err(message) => text::contains_text(message@, words),
        Ok(_) => false,
    }
}

proof fn lemma_command_names()
    ensures
        "test"@ != "build"@,
        "test"@ != "lint"@,
        "test"@ != "typecheck"@,
        "build"@ != "lint"@,
        "build"@ != "typecheck"@,
        "lint"@ != "typecheck"@,
{
    reveal_strlit("test");
    reveal_strlit("build");
    reveal_strlit("lint");
    reveal_strlit("typecheck");
    assert("test"@[0] != "lint"@[0]);
    assert("test"@.len() != "build"@.len());
    assert("test"@.len() != "typecheck"@.len());
    assert("build"@.len() != "lint"@.len());
    assert("build"@.len() != "typecheck"@.len());
    assert("lint"@.len() != "typecheck"@.len());
}

/// Each action runs exactly the command that the first toolchain has for it, for
/// sixty seconds where no time is asked for and for six hundred at most.
#[verifier::rlimit(50)]
pub proof fn law_actions_run_their_commands<'a>(
    toolchains: &'a Vec<Toolchain>,
    available: &Vec<bool>,
    action: ProjectAction,
    filter: Option<&'a str>,
    timeout: Option<u64>,
    r: Result<ProjectStep<'a>, String>,
)
    requires
        available@.len() == toolchains@.len(),
        toolchains@.len() > 0,
        filter matches Some(filter) ==> filter@.len() == 0 || filter@[0] != '-',
        call_ensures(qartez_project, (toolchains, available, action, filter, timeout), r),
    ensures
        ({
            let tc = toolchains@[0];
            let seconds = match timeout {
                Some(seconds) => if seconds <= 600 {
                    seconds
                } else {
                    600
                },
                None => 60,
            };
            &&& action is Test ==> executes(r, tc.test_cmd, "TEST"@, filter, seconds)
            &&& action is Build ==> executes(r, tc.build_cmd, "BUILD"@, filter, seconds)
            &&& action is Lint && tc.lint_cmd is Some ==> executes(
                r,
                tc.lint_cmd->0,
                "LINT"@,
                filter,
                seconds,
            )
            &&& action is Lint && tc.lint_cmd is None ==> refuses(r, "lint"@)
            &&& action is Typecheck && tc.typecheck_cmd is Some ==> executes(
                r,
                tc.typecheck_cmd->0,
                "TYPECHECK"@,
                filter,
                seconds,
            )
            &&& action is Typecheck && tc.typecheck_cmd is None ==> refuses(r, "typecheck"@)
        }),
{
    lemma_command_names();
    reveal_strlit("-");
    if let Some(filter) = filter {
        if "-"@.is_prefix_of(filter@) {
            assert(filter@.subrange(0, 1)[0] == "-"@[0]);
        }
    }
    lemma_not_configured("lint"@, toolchains@[0]);
    lemma_not_configured("typecheck"@, toolchains@[0]);
}

/// No command is run with a filter that could be taken for an option.
pub proof fn law_options_are_no_filters<'a>(
    toolchains: &'a Vec<Toolchain>,
    available: &Vec<bool>,
    action: ProjectAction,
    filter: &'a str,
    timeout: Option<u64>,
    r: Result<ProjectStep<'a>, String>,
)
    requires
        available@.len() == toolchains@.len(),
        filter@.len() > 0,
        filter@[0] == '-',
        call_ensures(qartez_project, (toolchains, available, action, Some(filter), timeout), r),
    ensures
        !(r matches Ok(ProjectStep::Execute(_))),
        toolchains@.len() > 0 && action is Test ==> refuses(r, filter@),
        toolchains@.len() > 0 && action is Build ==> refuses(r, filter@),
        toolchains@.len() > 0 && action is Lint ==> r is Err,
        toolchains@.len() > 0 && action is Typecheck ==> r is Err,
{
    lemma_command_names();
    reveal_strlit("-");
    assert("-"@ == filter@.subrange(0, 1));
    text::lemma_holds("Filter must not start with '-': "@, filter@, Seq::empty());
    assert("Filter must not start with '-': "@ + filter@ + Seq::<char>::empty()
        == "Filter must not start with '-': "@ + filter@);
}

/// A dry run executes nothing. It shows the words of the command that the first
/// toolchain has under the name, which is `test` where none is given.
#[verifier::rlimit(50)]
pub proof fn law_dry_run_shows_the_command<'a>(
    toolchains: &'a Vec<Toolchain>,
    available: &Vec<bool>,
    name: Option<&'a str>,
    timeout: Option<u64>,
    r: Result<ProjectStep<'a>, String>,
)
    requires
        available@.len() == toolchains@.len(),
        toolchains@.len() > 0,
        call_ensures(qartez_project, (toolchains, available, ProjectAction::Run, name, timeout), r),
    ensures
        ({
            let tc = toolchains@[0];
            &&& name is None ==> shows(r, "test"@, tc.test_cmd)
            &&& name is Some && name->0@ == "test"@ ==> shows(r, "test"@, tc.test_cmd)
            &&& name is Some && name->0@ == "build"@ ==> shows(r, "build"@, tc.build_cmd)
            &&& name is Some && name->0@ == "lint"@ ==> if tc.lint_cmd is Some {
                shows(r, "lint"@, tc.lint_cmd->0)
            } else {
                refuses(r, "lint"@)
            }
            &&& name is Some && name->0@ == "typecheck"@ ==> if tc.typecheck_cmd is Some {
                shows(r, "typecheck"@, tc.typecheck_cmd->0)
            } else {
                refuses(r, "typecheck"@)
            }
            &&& name is Some && name->0@ != "test"@ && name->0@ != "build"@ && name->0@ != "lint"@
                && name->0@ != "typecheck"@ ==> refuses(r, name->0@)
            &&& !(r matches Ok(ProjectStep::Execute(_)))
        }),
{
    lemma_command_names();
    let tc = toolchains@[0];
    let asked = run_name(name);
    lemma_not_configured("lint"@, tc);
    lemma_not_configured("typecheck"@, tc);
    text::lemma_holds(
        "Unknown run subcommand '"@,
        asked,
        "'. Supported: test, build, lint, typecheck"@,
    );
    if let Ok(cmd) = command_named(tc, asked) {
        lemma_dry_run(tc, asked, cmd@);
    }
}

proof fn lemma_not_configured(kind: Seq<char>, tc: Toolchain)
    ensures
        text::contains_text(not_configured(kind, tc), kind),
{
    let a = "No "@;
    text::lemma_holds(a, kind, " command configured for "@);
    text::lemma_grows(a + kind + " command configured for "@, tc.name@, kind);
    text::lemma_grows(a + kind + " command configured for "@ + tc.name@, " toolchain"@, kind);
}

proof fn lemma_dry_run(tc: Toolchain, name: Seq<char>, cmd: Seq<String>)
    ensures
        text::contains_text(dry_run(tc, name, cmd), name),
        text::contains_text(
            dry_run(tc, name, cmd),
            "$ "@ + text::joined(text::texts(cmd), " "@) + "\n"@,
        ),
{
    let words = text::joined(text::texts(cmd), " "@);
    let head = "# "@ + tc.name@ + " "@;
    let middle = " (dry-run — command not executed)\n$ "@;
    text::lemma_holds(head, name, middle);
    text::lemma_grows(head + name + middle, words, name);
    text::lemma_grows(head + name + middle + words, "\n"@, name);
    reveal_strlit(" (dry-run — command not executed)\n$ ");
    reveal_strlit("$ ");
    let at = middle.len() - 2;
    assert(middle == middle.take(at) + "$ "@);
    let front = head + name + middle.take(at);
    assert(front + "$ "@ == head + name + middle);
    assert("\n"@ == "\n"@.subrange(0, "\n"@.len() as int));
    text::lemma_spans(front, "$ "@, words, "\n"@, "\n"@);
}

/// The description of the toolchains names each of them and every command that it
/// has.
#[verifier::rlimit(50)]
pub proof fn law_description_shows_every_command(
    toolchains: Seq<Toolchain>,
    available: Seq<bool>,
    k: int,
)
    requires
        available.len() == toolchains.len(),
        0 <= k < toolchains.len(),
    ensures
        ({
            let all = descriptions(toolchains, available);
            let tc = toolchains[k];
            &&& text::contains_text(all, "# Project toolchain: "@ + tc.name@)
            &&& text::contains_text(all, "\nBuild tool: "@ + tc.build_tool@ + "\n"@)
            &&& text::contains_text(
                all,
                "\nTest:       "@ + text::joined(text::texts(tc.test_cmd@), " "@) + "\n"@,
            )
            &&& text::contains_text(
                all,
                "\nBuild:      "@ + text::joined(text::texts(tc.build_cmd@), " "@) + "\n"@,
            )
            &&& tc.lint_cmd is Some ==> text::contains_text(
                all,
                "Lint:       "@ + text::joined(text::texts(tc.lint_cmd->0@), " "@) + "\n"@,
            )
            &&& tc.typecheck_cmd is Some ==> text::contains_text(
                all,
                "Typecheck:  "@ + text::joined(text::texts(tc.typecheck_cmd->0@), " "@) + "\n"@,
            )
            &&& !available[k] ==> text::contains_text(all, tc.name@ + " (not found on PATH)"@)
            &&& available[k] ==> text::contains_text(all, tc.name@ + "\n"@)
        }),
{
    let all = descriptions(toolchains, available);
    let own = description(toolchains[k], available[k]);
    let (a, c) = lemma_description_inside(toolchains, available, k);
    text::lemma_holds(a, own, c);
    lemma_description(toolchains[k], available[k]);
    assert forall|part: Seq<char>| #[trigger] text::contains_text(own, part) implies
        text::contains_text(all, part) by {
        text::lemma_holds_within(all, own, part);
    }
}

#[verifier::rlimit(50)]
proof fn lemma_description(tc: Toolchain, available: bool)
    ensures
        ({
            let all = description(tc, available);
            &&& text::contains_text(all, "# Project toolchain: "@ + tc.name@)
            &&& text::contains_text(all, "\nBuild tool: "@ + tc.build_tool@ + "\n"@)
            &&& text::contains_text(
                all,
                "\nTest:       "@ + text::joined(text::texts(tc.test_cmd@), " "@) + "\n"@,
            )
            &&& text::contains_text(
                all,
                "\nBuild:      "@ + text::joined(text::texts(tc.build_cmd@), " "@) + "\n"@,
            )
            &&& tc.lint_cmd is Some ==> text::contains_text(
                all,
                "Lint:       "@ + text::joined(text::texts(tc.lint_cmd->0@), " "@) + "\n"@,
            )
            &&& tc.typecheck_cmd is Some ==> text::contains_text(
                all,
                "Typecheck:  "@ + text::joined(text::texts(tc.typecheck_cmd->0@), " "@) + "\n"@,
            )
            &&& !available ==> text::contains_text(all, tc.name@ + " (not found on PATH)"@)
            &&& available ==> text::contains_text(all, tc.name@ + "\n"@)
        }),
{
    let nl = "\n"@;
    let path = if available {
        ""@
    } else {
        " (not found on PATH)"@
    };
    let d2 = "# Project toolchain: "@ + tc.name@;
    let d3 = d2 + path;
    let d4 = d3 + "\n\nBuild tool: "@;
    let d5 = d4 + tc.build_tool@;
    let d6 = d5 + "\nTest:       "@;
    let d7 = d6 + command_line(tc.test_cmd@);
    let d8 = d7 + "\nBuild:      "@;
    let d9 = d8 + command_line(tc.build_cmd@);
    let d10 = d9 + nl;
    let lint = optional_line("Lint:       "@, tc.lint_cmd);
    let check = optional_line("Typecheck:  "@, tc.typecheck_cmd);
    let d11 = d10 + lint;
    let all = d11 + check;
    assert(all == description(tc, available));
    assert("\n\nBuild tool: "@ == nl + "\nBuild tool: "@ && nl.is_prefix_of("\nTest:       "@)
        && nl.is_prefix_of("\nBuild:      "@) && nl.is_prefix_of("\n\nBuild tool: "@)
        && nl.is_prefix_of(nl) && ""@ == Seq::<char>::empty()) by {
        reveal_strlit("\n\nBuild tool: ");
        reveal_strlit("\nBuild tool: ");
        reveal_strlit("\nTest:       ");
        reveal_strlit("\nBuild:      ");
        reveal_strlit("\n");
        reveal_strlit("");
        assert(nl + "\nBuild tool: "@ == "\n\nBuild tool: "@);
        assert(nl == "\nTest:       "@.subrange(0, 1));
        assert(nl == "\nBuild:      "@.subrange(0, 1));
        assert(nl == "\n\nBuild tool: "@.subrange(0, 1));
        assert(nl == nl.subrange(0, 1));
        assert(""@ == Seq::<char>::empty());
    }
    let empty = Seq::<char>::empty();
    // The title.
    text::lemma_holds(empty, d2, path);
    assert(empty + d2 + path == d3);
    text::lemma_spans("# Project toolchain: "@, tc.name@, path, "\n\nBuild tool: "@, nl);
    text::lemma_spans("# Project toolchain: "@, tc.name@, path, "\n\nBuild tool: "@, empty);
    assert(tc.name@ + path + empty == tc.name@ + path);
    assert(available ==> tc.name@ + path + nl == tc.name@ + nl);
    // The tool and the commands.
    assert(d4 == d3 + nl + "\nBuild tool: "@);
    text::lemma_spans(d3 + nl, "\nBuild tool: "@, tc.build_tool@, "\nTest:       "@, nl);
    text::lemma_spans(d5, "\nTest:       "@, command_line(tc.test_cmd@), "\nBuild:      "@, nl);
    text::lemma_spans(d7, "\nBuild:      "@, command_line(tc.build_cmd@), nl, nl);
    text::lemma_holds(d10, lint, check);
    text::lemma_holds(d11, check, empty);
    assert(d11 + check + empty == all);
    assert forall|part: Seq<char>| #[trigger] text::contains_text(d3, part) implies
        text::contains_text(d4, part) by {
        text::lemma_grows(d3, "\n\nBuild tool: "@, part);
    }
    assert forall|part: Seq<char>| #[trigger] text::contains_text(d4, part) implies
        text::contains_text(all, part) by {
        text::lemma_grows(d4, tc.build_tool@, part);
        text::lemma_grows(d5, "\nTest:       "@, part);
        text::lemma_grows(d6, command_line(tc.test_cmd@), part);
        text::lemma_grows(d7, "\nBuild:      "@, part);
        text::lemma_grows(d8, command_line(tc.build_cmd@), part);
        text::lemma_grows(d9, nl, part);
        text::lemma_grows(d10, lint, part);
        text::lemma_grows(d11, check, part);
    }
    assert forall|part: Seq<char>| #[trigger] text::contains_text(d6, part) implies
        text::contains_text(all, part) by {
        text::lemma_grows(d6, command_line(tc.test_cmd@), part);
        text::lemma_grows(d7, "\nBuild:      "@, part);
        text::lemma_grows(d8, command_line(tc.build_cmd@), part);
        text::lemma_grows(d9, nl, part);
        text::lemma_grows(d10, lint, part);
        text::lemma_grows(d11, check, part);
    }
    assert forall|part: Seq<char>| #[trigger] text::contains_text(d8, part) implies
        text::contains_text(all, part) by {
        text::lemma_grows(d8, command_line(tc.build_cmd@), part);
        text::lemma_grows(d9, nl, part);
        text::lemma_grows(d10, lint, part);
        text::lemma_grows(d11, check, part);
    }
    assert forall|part: Seq<char>| #[trigger] text::contains_text(d10, part) implies
        text::contains_text(all, part) by {
        text::lemma_grows(d10, lint, part);
        text::lemma_grows(d11, check, part);
    }
}

proof fn lemma_description_inside(toolchains: Seq<Toolchain>, available: Seq<bool>, k: int) -> (r: (
    Seq<char>,
    Seq<char>,
))
    requires
        0 <= k < toolchains.len(),
    ensures
        descriptions(toolchains, available) == r.0 + description(toolchains[k], available[k]) + r.1,
    decreases toolchains.len(),
{
    let n = toolchains.len() - 1;
    let rest = toolchains.drop_last();
    let last = description(toolchains[n], available[n]);
    if k == n {
        if n == 0 {
            assert(Seq::<char>::empty() + last + Seq::<char>::empty() == last);
            (Seq::empty(), Seq::empty())
        } else {
            let a = descriptions(rest, available) + "\n"@;
            assert(a + last + Seq::<char>::empty() == a + last);
            (a, Seq::empty())
        }
    } else {
        let (a, c) = lemma_description_inside(rest, available, k);
        let own = description(toolchains[k], available[k]);
        assert(a + own + c + "\n"@ + last == a + own + (c + "\n"@ + last));
        (a, c + "\n"@ + last)
    }
}

/// The report on a run says `SUCCESS` for the exit code zero alone, shows the
/// command with its filter, and ends in the output.
#[verifier::rlimit(50)]
pub proof fn law_run_report(
    label: Seq<char>,
    exit_code: int,
    cmd: Seq<String>,
    filter: Option<&str>,
    output: Seq<char>,
)
    ensures
        ({
            let report = run_report(label, exit_code, cmd, filter, output);
            let words = text::joined(text::texts(cmd), " "@);
            &&& exit_code == 0 ==> ("# "@ + label + " SUCCESS (exit code: 0)\n"@).is_prefix_of(
                report,
            )
            &&& exit_code != 0 ==> ("# "@ + label + " FAILED (exit code: "@ + text::integer(
                exit_code,
            ) + ")\n"@).is_prefix_of(report)
            &&& filter is None ==> text::contains_text(report, "$ "@ + words + "\n\n"@)
            &&& filter is Some ==> text::contains_text(
                report,
                "$ "@ + words + " "@ + filter->0@ + "\n\n"@,
            )
            &&& output.is_suffix_of(report)
        }),
{
    let report = run_report(label, exit_code, cmd, filter, output);
    let words = text::joined(text::texts(cmd), " "@);
    let suffix = match filter {
        Some(filter) => " "@ + filter@,
        None => ""@,
    };
    let number = text::integer(exit_code);
    reveal_strlit(" SUCCESS (exit code: 0)\n");
    reveal_strlit(" FAILED (exit code: ");
    reveal_strlit("SUCCESS");
    reveal_strlit("FAILED");
    reveal_strlit(" (exit code: ");
    reveal_strlit(")\n$ ");
    reveal_strlit(")\n");
    reveal_strlit("$ ");
    reveal_strlit(" ");
    reveal_strlit("");
    let word = if exit_code == 0 {
        "SUCCESS"@
    } else {
        "FAILED"@
    };
    assert(")\n$ "@ == ")\n"@ + "$ "@);
    let head = "# "@ + label + " "@ + word + " (exit code: "@ + number + ")\n"@;
    let tail = "$ "@ + words + suffix + "\n\n"@;
    assert(report == head + tail + output);
    text::lemma_holds(head, tail, output);
    assert(output == report.subrange(report.len() - output.len(), report.len() as int));
    assert(head == report.subrange(0, head.len() as int));
    if exit_code == 0 {
        assert(text::decimal(0) == seq!['0']);
        assert(" "@ + "SUCCESS"@ + " (exit code: "@ + seq!['0'] + ")\n"@
            == " SUCCESS (exit code: 0)\n"@);
        assert(head == "# "@ + label + " SUCCESS (exit code: 0)\n"@);
    } else {
        assert(" "@ + "FAILED"@ + " (exit code: "@ == " FAILED (exit code: "@);
        assert(head == "# "@ + label + " FAILED (exit code: "@ + number + ")\n"@);
    }
    if let Some(filter) = filter {
        assert(tail == "$ "@ + words + " "@ + filter@ + "\n\n"@);
    } else {
        assert(tail == "$ "@ + words + "\n\n"@);
    }
}

/// Nothing can be asked of a project without a toolchain.
pub proof fn law_a_toolchain_is_needed<'a>(
    toolchains: &'a Vec<Toolchain>,
    available: &Vec<bool>,
    action: ProjectAction,
    filter: Option<&'a str>,
    timeout: Option<u64>,
    r: Result<ProjectStep<'a>, String>,
)
    requires
        available@.len() == toolchains@.len(),
        call_ensures(qartez_project, (toolchains, available, action, filter, timeout), r),
    ensures
        toolchains@.len() == 0 ==> r is Err,
        toolchains@.len() > 0 && action is Info ==> (r matches Ok(ProjectStep::Answer(report))
            && report@ == descriptions(toolchains@, available@)),
{
}

}
