//! Reports on the boundary rules between the parts of a project.
use vstd::prelude::*;
use vstd::string::*;

use crate::text;
use crate::text::{count_bytes, join, push_count, trim};

verus! {

/// A rule: what matches `from` must not import what matches a `deny` pattern.
#[derive(Debug)]
pub struct BoundaryRule {
    pub from: String,
    pub deny: Vec<String>,
}

/// An import that breaks a rule.
#[derive(Debug)]
pub struct Violation {
    pub from_file: String,
    pub to_file: String,
    pub rule_index: usize,
    pub deny_pattern: String,
}

/// A text without the white space around it, if anything is left.
pub open spec fn filled(value: Option<&str>) -> Option<Seq<char>> {
    match value {
        Some(text) => if text::trimmed(text@).len() == 0 {
            None
        } else {
            Some(text::trimmed(text@))
        },
        None => None,
    }
}

fn fill<'a>(value: Option<&'a str>) -> (r: Option<&'a str>)
    ensures
        match r {
            Some(text) => filled(value) == Some(text@),
            None => filled(value) is None,
        },
{
    match value {
        Some(text) => {
            let inner = trim(text);
            if inner.is_empty() {
                None
            } else {
                Some(inner)
            }
        },
        None => None,
    }
}

/// The path of the rules, relative to the project.
pub fn config_path<'a>(asked: Option<&'a str>) -> (r: &'a str)
    ensures
        r@ == match filled(asked) {
            Some(path) => path,
            None => ".qartez/boundaries.toml"@,
        },
{
    match fill(asked) {
        Some(path) => path,
        None => ".qartez/boundaries.toml",
    }
}

/// What to do with a set of suggested rules.
#[derive(Debug)]
pub enum SuggestStep {
    /// Answer.
    Answer(String),
    /// Write the rules to a path, then answer.
    Write { path: String, answer: String },
}

/// The answer after `rules` rules of `bytes` bytes were written to `path`.
pub open spec fn written(rules: nat, path: Seq<char>, bytes: nat) -> Seq<char> {
    "Wrote "@ + text::decimal(rules) + " rule(s) to "@ + path + " ("@ + text::decimal(bytes)
        + " bytes)."@
}

/// Decides what to do with `rules` suggested rules, rendered as `toml`, that
/// were derived from `clusters` cluster assignments.
pub fn suggest_step(
    clusters: usize,
    rules: usize,
    toml: &str,
    write_to: Option<&str>,
) -> (r: SuggestStep)
    ensures
        clusters == 0 ==> (r matches SuggestStep::Answer(answer) && answer@
            == "No cluster assignment found. Run `qartez_wiki` first to compute clusters, then re-run `qartez_boundaries suggest=true`."@),
        clusters > 0 && filled(write_to) is Some ==> (r matches SuggestStep::Write { path, answer }
            && path@ == filled(write_to)->0 && answer@ == written(
            rules as nat,
            path@,
            text::byte_len(toml@),
        )),
        clusters > 0 && filled(write_to) is None && rules == 0 ==> (
        r matches SuggestStep::Answer(answer) && answer@
            == "No candidate rules: the current clustering has no directory-aligned partitions to derive rules from. Try `qartez_wiki recompute=true` first."@),
        clusters > 0 && filled(write_to) is None && rules > 0 ==> (
        r matches SuggestStep::Answer(answer) && answer@ == toml@),
{
    if clusters == 0 {
        return SuggestStep::Answer(
            "No cluster assignment found. Run `qartez_wiki` first to compute clusters, then re-run `qartez_boundaries suggest=true`.".to_owned(),
        );
    }
    match fill(write_to) {
        Some(path) => {
            let mut answer = "Wrote ".to_owned();
            push_count(&mut answer, rules);
            answer.append(" rule(s) to ");
            answer.append(path);
            answer.append(" (");
            push_count(&mut answer, count_bytes(toml));
            answer.append(" bytes).");
            SuggestStep::Write { path: path.to_owned(), answer }
        },
        None => {
            if rules == 0 {
                SuggestStep::Answer(
                    "No candidate rules: the current clustering has no directory-aligned partitions to derive rules from. Try `qartez_wiki recompute=true` first.".to_owned(),
                )
            } else {
                SuggestStep::Answer(toml.to_owned())
            }
        },
    }
}

/// The answer where there are no rules at `path`.
pub open spec fn missing_config(path: Seq<char>) -> Seq<char> {
    "No boundary config at "@ + path + ". Run `qartez_boundaries suggest=true write_to="@ + path
        + "` to generate a starter file."@
}

fn missing_config_report(path: &str) -> (r: String)
    ensures
        r@ == missing_config(path@),
{
    let mut out = "No boundary config at ".to_owned();
    out.append(path);
    out.append(". Run `qartez_boundaries suggest=true write_to=");
    out.append(path);
    out.append("` to generate a starter file.");
    out
}

/// The rows of the short report.
pub open spec fn short_rows(violations: Seq<Violation>) -> Seq<char>
    decreases violations.len(),
{
    if violations.len() == 0 {
        Seq::empty()
    } else {
        let last = violations.last();
        short_rows(violations.drop_last()) + (last.from_file@ + " -> "@ + last.to_file@
            + " (rule #"@ + text::decimal(last.rule_index as nat) + ": deny "@ + last.deny_pattern@
            + ")\n"@)
    }
}

/// The heading of a rule.
pub open spec fn heading(rules: Seq<BoundaryRule>, index: int) -> Seq<char> {
    "\nRule #"@ + text::decimal(index as nat) + ": "@ + rules[index].from@ + " !-> "@
        + text::joined(text::texts(rules[index].deny@), " | "@) + "\n"@
}

/// The rows of the long report: a heading wherever the rule changes.
pub open spec fn long_rows(rules: Seq<BoundaryRule>, violations: Seq<Violation>) -> Seq<char>
    decreases violations.len(),
{
    if violations.len() == 0 {
        Seq::empty()
    } else {
        let rest = violations.drop_last();
        let last = violations.last();
        long_rows(rules, rest) + (if rest.len() > 0 && rest.last().rule_index == last.rule_index {
            Seq::empty()
        } else {
            heading(rules, last.rule_index as int)
        }) + ("  "@ + last.from_file@ + " -> "@ + last.to_file@ + " (matched deny pattern: "@
            + last.deny_pattern@ + ")\n"@)
    }
}

/// The report on a check of `rules` against `edges` imports.
pub open spec fn check_report(
    rules: Seq<BoundaryRule>,
    edges: nat,
    violations: Seq<Violation>,
    concise: bool,
) -> Seq<char> {
    if violations.len() == 0 {
        "No boundary violations across "@ + text::decimal(rules.len()) + " rule(s) and "@
            + text::decimal(edges) + " edges."@
    } else {
        text::decimal(violations.len()) + " violation(s) across "@ + text::decimal(rules.len())
            + " rule(s):\n"@ + (if concise {
            short_rows(violations)
        } else {
            long_rows(rules, violations)
        })
    }
}

fn push_heading(out: &mut String, rules: &Vec<BoundaryRule>, index: usize)
    requires
        index < rules@.len(),
    ensures
        final(out)@ == old(out)@ + heading(rules@, index as int),
{
    let mut line = "\nRule #".to_owned();
    push_count(&mut line, index);
    line.append(": ");
    line.append(rules[index].from.as_str());
    line.append(" !-> ");
    let patterns = join(&rules[index].deny, " | ");
    line.append(patterns.as_str());
    line.append("\n");
    out.append(line.as_str());
}

fn push_short_rows(out: &mut String, violations: &Vec<Violation>)
    ensures
        final(out)@ == old(out)@ + short_rows(violations@),
{
    let n: usize = violations.len();
    let ghost start = out@;
    let mut i: usize = 0;
    assert(start + Seq::<char>::empty() == start);
    while i < n
        invariant
            n == violations@.len(),
            i <= n,
            out@ == start + short_rows(violations@.take(i as int)),
        decreases n - i,
    {
        assert(violations@.take(i + 1).drop_last() == violations@.take(i as int));
        let v = &violations[i];
        let mut line = v.from_file.clone();
        line.append(" -> ");
        line.append(v.to_file.as_str());
        line.append(" (rule #");
        push_count(&mut line, v.rule_index);
        line.append(": deny ");
        line.append(v.deny_pattern.as_str());
        line.append(")\n");
        out.append(line.as_str());
        assert(out@ == start + short_rows(violations@.take(i + 1)));
        i = i + 1;
    }
    assert(violations@.take(n as int) == violations@);
}

fn push_long_rows(out: &mut String, rules: &Vec<BoundaryRule>, violations: &Vec<Violation>)
    requires
        forall|k: int|
            0 <= k < violations@.len() ==> (#[trigger] violations@[k]).rule_index < rules@.len(),
    ensures
        final(out)@ == old(out)@ + long_rows(rules@, violations@),
{
    let n: usize = violations.len();
    let ghost start = out@;
    let mut i: usize = 0;
    assert(start + Seq::<char>::empty() == start);
    while i < n
        invariant
            n == violations@.len(),
            i <= n,
            forall|k: int|
                0 <= k < n ==> (#[trigger] violations@[k]).rule_index < rules@.len(),
            out@ == start + long_rows(rules@, violations@.take(i as int)),
        decreases n - i,
    {
        let ghost rest = violations@.take(i as int);
        let ghost done = violations@.take(i + 1);
        assert(done.drop_last() == rest);
        assert(done.last() == violations@[i as int]);
        let v = &violations[i];
        let ghost head = out@;
        if i > 0 && violations[i - 1].rule_index == v.rule_index {
            assert(rest.last().rule_index == v.rule_index);
        } else {
            assert(!(rest.len() > 0 && rest.last().rule_index == v.rule_index));
            push_heading(out, rules, v.rule_index);
        }
        let ghost middle = if rest.len() > 0 && rest.last().rule_index == v.rule_index {
            Seq::empty()
        } else {
            heading(rules@, v.rule_index as int)
        };
        assert(out@ == head + middle);
        let mut line = "  ".to_owned();
        line.append(v.from_file.as_str());
        line.append(" -> ");
        line.append(v.to_file.as_str());
        line.append(" (matched deny pattern: ");
        line.append(v.deny_pattern.as_str());
        line.append(")\n");
        out.append(line.as_str());
        assert(out@ == start + (long_rows(rules@, rest) + middle + line@));
        i = i + 1;
    }
    assert(violations@.take(n as int) == violations@);
}

fn violations_report(
    rules: &Vec<BoundaryRule>,
    edges: usize,
    violations: &Vec<Violation>,
    concise: bool,
) -> (r: String)
    requires
        !concise ==> forall|k: int|
            0 <= k < violations@.len() ==> (#[trigger] violations@[k]).rule_index < rules@.len(),
    ensures
        r@ == check_report(rules@, edges as nat, violations@, concise),
{
    let count: usize = violations.len();
    if count == 0 {
        let mut out = "No boundary violations across ".to_owned();
        push_count(&mut out, rules.len());
        out.append(" rule(s) and ");
        push_count(&mut out, edges);
        out.append(" edges.");
        return out;
    }
    let mut out = String::new();
    push_count(&mut out, count);
    assert(out@ == text::decimal(count as nat));
    out.append(" violation(s) across ");
    push_count(&mut out, rules.len());
    out.append(" rule(s):\n");
    if concise {
        push_short_rows(&mut out, violations);
    } else {
        push_long_rows(&mut out, rules, violations);
    }
    out
}

/// The end of a check of some rules.
#[derive(Debug)]
pub struct RuleCheck {
    pub rules: Vec<BoundaryRule>,
    /// The number of imports that were checked.
    pub edges: usize,
    pub violations: Vec<Violation>,
}

/// Reports on a check of the rules at `path`, or says that there are none. A
/// violation names its rule by its place among the rules.
pub fn qartez_boundaries(path: &str, check: Option<&RuleCheck>, concise: bool) -> (r: String)
    requires
        check is Some && !concise ==> forall|k: int|
            0 <= k < check->0.violations@.len() ==> (#[trigger] check->0.violations@[k]).rule_index
                < check->0.rules@.len(),
    ensures
        r@ == match check {
            Some(check) => check_report(
                check.rules@,
                check.edges as nat,
                check.violations@,
                concise,
            ),
            None => missing_config(path@),
        },
{
    match check {
        Some(check) => violations_report(&check.rules, check.edges, &check.violations, concise),
        None => missing_config_report(path),
    }
}

/// The words of the short report on a violation.
pub open spec fn short_words(v: Violation) -> Seq<char> {
    v.from_file@ + " -> "@ + v.to_file@ + " (rule #"@ + text::decimal(v.rule_index as nat)
        + ": deny "@ + v.deny_pattern@ + ")\n"@
}

/// The words of the long report on a violation.
pub open spec fn long_words(v: Violation) -> Seq<char> {
    "  "@ + v.from_file@ + " -> "@ + v.to_file@ + " (matched deny pattern: "@ + v.deny_pattern@
        + ")\n"@
}

proof fn lemma_short_shown(violations: Seq<Violation>, k: int)
    requires
        0 <= k < violations.len(),
    ensures
        text::contains_text(short_rows(violations), short_words(violations[k])),
    decreases violations.len(),
{
    let rest = violations.drop_last();
    let own = short_words(violations.last());
    assert(short_rows(violations) == short_rows(rest) + own);
    if k < rest.len() {
        lemma_short_shown(rest, k);
        text::lemma_grows(short_rows(rest), own, short_words(violations[k]));
    } else {
        text::lemma_holds(short_rows(rest), own, Seq::empty());
        assert(short_rows(rest) + own + Seq::<char>::empty() == short_rows(rest) + own);
    }
}

proof fn lemma_long_shown(rules: Seq<BoundaryRule>, violations: Seq<Violation>, k: int)
    requires
        0 <= k < violations.len(),
    ensures
        text::contains_text(long_rows(rules, violations), long_words(violations[k])),
        k == 0 || violations[k - 1].rule_index != violations[k].rule_index ==> text::contains_text(
            long_rows(rules, violations),
            heading(rules, violations[k].rule_index as int) + long_words(violations[k]),
        ),
    decreases violations.len(),
{
    let rest = violations.drop_last();
    let last = violations.last();
    let front = long_rows(rules, rest);
    let title = if rest.len() > 0 && rest.last().rule_index == last.rule_index {
        Seq::empty()
    } else {
        heading(rules, last.rule_index as int)
    };
    let own = long_words(last);
    let empty = Seq::<char>::empty();
    assert(long_rows(rules, violations) == front + title + own);
    if k < rest.len() {
        lemma_long_shown(rules, rest, k);
        assert(rest[k] == violations[k]);
        assert(k > 0 ==> rest[k - 1] == violations[k - 1]);
        let part = long_words(violations[k]);
        text::lemma_grows(front, title, part);
        text::lemma_grows(front + title, own, part);
        if k == 0 || violations[k - 1].rule_index != violations[k].rule_index {
            let part = heading(rules, violations[k].rule_index as int) + long_words(violations[k]);
            text::lemma_grows(front, title, part);
            text::lemma_grows(front + title, own, part);
        }
    } else {
        text::lemma_holds(front + title, own, empty);
        assert(front + title + own + empty == front + title + own);
        if k > 0 {
            assert(rest.last() == violations[k - 1]);
        }
        text::lemma_holds(front, title + own, empty);
        assert(front + (title + own) + empty == front + title + own);
    }
}

/// A violation of the same rule as the one before it follows at once: the heading is
/// not repeated.
pub proof fn law_headings_are_not_repeated(
    rules: Seq<BoundaryRule>,
    violations: Seq<Violation>,
    next: Violation,
)
    requires
        violations.len() > 0,
        violations.last().rule_index == next.rule_index,
    ensures
        long_rows(rules, violations.push(next)) == long_rows(rules, violations) + long_words(next),
{
    assert(violations.push(next).drop_last() == violations);
    assert(long_rows(rules, violations) + Seq::<char>::empty() == long_rows(rules, violations));
}

/// Every violation is reported, with its files and its pattern. In the long report the
/// first of each run of violations of a rule stands below the heading of the rule,
/// which names the rule and its patterns.
pub proof fn law_every_violation_is_reported(
    rules: Seq<BoundaryRule>,
    edges: nat,
    violations: Seq<Violation>,
    k: int,
)
    requires
        0 <= k < violations.len(),
    ensures
        ({
            let v = violations[k];
            let short = check_report(rules, edges, violations, true);
            let long = check_report(rules, edges, violations, false);
            let title = "\nRule #"@ + text::decimal(v.rule_index as nat) + ": "@
                + rules[v.rule_index as int].from@ + " !-> "@ + text::joined(
                text::texts(rules[v.rule_index as int].deny@),
                " | "@,
            ) + "\n"@;
            &&& text::contains_text(short, short_words(v))
            &&& text::contains_text(long, long_words(v))
            &&& k == 0 || violations[k - 1].rule_index != v.rule_index ==> text::contains_text(
                long,
                title + long_words(v),
            )
        }),
{
    lemma_short_shown(violations, k);
    lemma_long_shown(rules, violations, k);
    let head = text::decimal(violations.len()) + " violation(s) across "@ + text::decimal(
        rules.len(),
    ) + " rule(s):\n"@;
    text::lemma_grows(short_rows(violations), head, short_words(violations[k]));
    let rows = long_rows(rules, violations);
    let v = violations[k];
    text::lemma_grows(rows, head, long_words(v));
    if k == 0 || violations[k - 1].rule_index != v.rule_index {
        text::lemma_grows(rows, head, heading(rules, v.rule_index as int) + long_words(v));
    }
}

/// A path that is given is used without the white space around it; where nothing is
/// left of it the usual place is.
pub proof fn law_config_path(asked: Option<&str>, r: &str)
    requires
        call_ensures(config_path, (asked,), r),
    ensures
        asked is None ==> r@ == ".qartez/boundaries.toml"@,
        asked is Some && text::trimmed(asked->0@).len() == 0 ==> r@ == ".qartez/boundaries.toml"@,
        asked is Some && text::trimmed(asked->0@).len() > 0 ==> r@ == text::trimmed(asked->0@),
{
}

/// Rules are written exactly when there are clusters and a path to write to is given;
/// they are written to that path. Else they are shown, unless there are none.
pub proof fn law_suggested_rules(
    clusters: usize,
    rules: usize,
    toml: &str,
    write_to: Option<&str>,
    r: SuggestStep,
)
    requires
        call_ensures(suggest_step, (clusters, rules, toml, write_to), r),
    ensures
        ({
            let given = write_to is Some && text::trimmed(write_to->0@).len() > 0;
            &&& r is Write <==> clusters > 0 && given
            &&& r matches SuggestStep::Write { path, answer } ==> path@ == text::trimmed(
                write_to->0@,
            ) && answer@ == "Wrote "@ + text::decimal(rules as nat) + " rule(s) to "@ + path@
                + " ("@ + text::decimal(text::byte_len(toml@)) + " bytes)."@
            &&& clusters > 0 && !given && rules > 0 ==> (r matches SuggestStep::Answer(answer)
                && answer@ == toml@)
        }),
{
}

/// The report on violations starts with their number and that of the rules; without
/// violations it names the numbers of rules and edges.
pub proof fn law_report_counts_violations(
    rules: Seq<BoundaryRule>,
    edges: nat,
    violations: Seq<Violation>,
    concise: bool,
)
    ensures
        violations.len() > 0 ==> (text::decimal(violations.len()) + " violation(s) across "@
            + text::decimal(rules.len()) + " rule(s):\n"@).is_prefix_of(
            check_report(rules, edges, violations, concise),
        ),
        violations.len() == 0 ==> check_report(rules, edges, violations, concise)
            == "No boundary violations across "@ + text::decimal(rules.len()) + " rule(s) and "@
            + text::decimal(edges) + " edges."@,
{
    let head = text::decimal(violations.len()) + " violation(s) across "@ + text::decimal(
        rules.len(),
    ) + " rule(s):\n"@;
    text::lemma_starts(
        head,
        if concise {
            short_rows(violations)
        } else {
            long_rows(rules, violations)
        },
    );
}

/// Without rules the report names the place where they were looked for, and how to get
/// some there.
pub proof fn law_missing_rules(path: &str, concise: bool, r: String)
    requires
        call_ensures(qartez_boundaries, (path, None::<&RuleCheck>, concise), r),
    ensures
        r@ == "No boundary config at "@ + path@
            + ". Run `qartez_boundaries suggest=true write_to="@ + path@
            + "` to generate a starter file."@,
{
}

}
