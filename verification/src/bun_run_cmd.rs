//! `bun run`: which arguments `bun` gets, and what is left of its output.

use vstd::prelude::*;

use crate::text;

verus! {

// ---------------------------------------------------------------------------
// The arguments
// ---------------------------------------------------------------------------

/// The subcommands of `bun`. Anything else that comes first is taken as the name of
/// a script.
pub const BUN_SUBCOMMANDS: [&'static str; 21] = [
    "install",
    "i",
    "add",
    "remove",
    "rm",
    "update",
    "upgrade",
    "link",
    "unlink",
    "pm",
    "create",
    "init",
    "build",
    "dev",
    "test",
    "repl",
    "completions",
    "help",
    "version",
    "-v",
    "--version",
];

/// The subcommands whose output is shown unchanged: they manage packages or the
/// project, or keep `bun` running, and no script prints under them.
pub const PASSTHROUGH_SUBCOMMANDS: [&'static str; 13] = [
    "install",
    "add",
    "remove",
    "link",
    "unlink",
    "pm",
    "create",
    "init",
    "upgrade",
    "completions",
    "repl",
    "dev",
    "--version",
];

/// Whether the output of the subcommand `arg` is shown unchanged.
pub open spec fn is_passthrough(arg: Seq<char>) -> bool {
    exists|k: int|
        0 <= k < PASSTHROUGH_SUBCOMMANDS@.len() && #[trigger] PASSTHROUGH_SUBCOMMANDS@[k]@ == arg
}

/// Whether the output is shown unchanged for the arguments of the user.
pub open spec fn passes_through(args: Seq<Seq<char>>) -> bool {
    args.len() > 0 && is_passthrough(args[0])
}

/// Whether `arg` is a subcommand of `bun`.
pub open spec fn is_subcommand(arg: Seq<char>) -> bool {
    exists|k: int| 0 <= k < BUN_SUBCOMMANDS@.len() && #[trigger] BUN_SUBCOMMANDS@[k]@ == arg
}

/// Whether `bun` gets the subcommand `run` before the arguments: they begin neither
/// with `run`, nor with another subcommand, nor with a flag.
pub open spec fn needs_run(args: Seq<Seq<char>>) -> bool {
    args.len() > 0 ==> args[0] != "run"@ && !is_subcommand(args[0]) && !text::begins_with_char(
        args[0],
        '-',
    )
}

/// What `bun` is called with.
pub open spec fn bun_args(args: Seq<Seq<char>>) -> Seq<Seq<char>> {
    if needs_run(args) {
        seq!["run"@] + args
    } else {
        args
    }
}

fn known_subcommand(arg: &str) -> (yes: bool)
    ensures
        yes == is_subcommand(arg@),
{
    let mut k: usize = 0;
    while k < BUN_SUBCOMMANDS.len()
        invariant
            k <= BUN_SUBCOMMANDS@.len(),
            forall|j: int| 0 <= j < k ==> #[trigger] BUN_SUBCOMMANDS@[j]@ != arg@,
        decreases BUN_SUBCOMMANDS@.len() - k,
    {
        if text::str_eq(BUN_SUBCOMMANDS[k], arg) {
            return true;
        }
        k += 1;
    }
    false
}

fn is_passed_through(arg: &str) -> (yes: bool)
    ensures
        yes == is_passthrough(arg@),
{
    let mut k: usize = 0;
    while k < PASSTHROUGH_SUBCOMMANDS.len()
        invariant
            k <= PASSTHROUGH_SUBCOMMANDS@.len(),
            forall|j: int| 0 <= j < k ==> #[trigger] PASSTHROUGH_SUBCOMMANDS@[j]@ != arg@,
        decreases PASSTHROUGH_SUBCOMMANDS@.len() - k,
    {
        if text::str_eq(PASSTHROUGH_SUBCOMMANDS[k], arg) {
            return true;
        }
        k += 1;
    }
    false
}

/// Whether `bun` gets the subcommand `run` before the arguments.
pub fn needs_run_injection(args: &[String]) -> (yes: bool)
    ensures
        yes == needs_run(text::views(args@)),
{
    if args.len() == 0 {
        return true;
    }
    let first: &str = args[0].as_str();
    assert(text::views(args@)[0] == first@);
    !text::str_eq(first, "run") && !known_subcommand(first) && !text::starts_with_char(first, '-')
}

/// A call of `bun`: its arguments, whether its output is shown unchanged, and what is
/// told about it beforehand.
#[derive(Debug)]
pub struct BunCommand {
    pub args: Vec<String>,
    pub passthrough: bool,
    pub announcement: Option<String>,
}

/// Plans the call of `bun` for the arguments of the user.
pub fn plan_run(args: &Vec<String>, verbose: u8) -> (command: BunCommand)
    ensures
        text::views(command.args@) == bun_args(text::views(args@)),
        command.passthrough == passes_through(text::views(args@)),
        text::opt_view(command.announcement) == if verbose > 0 {
            Some("Running: bun "@ + text::joined(text::views(args@), " "@))
        } else {
            None
        },
{
    let mut out: Vec<String> = Vec::new();
    let ghost all = text::views(args@);
    let inject: bool = needs_run_injection(args.as_slice());
    if inject {
        out.push("run".to_owned());
    }
    let ghost start = if inject {
        seq!["run"@]
    } else {
        seq![]
    };
    assert(text::views(out@) =~= start + all.take(0));
    let mut i: usize = 0;
    while i < args.len()
        invariant
            i <= args@.len(),
            all == text::views(args@),
            text::views(out@) == start + all.take(i as int),
        decreases args@.len() - i,
    {
        let arg: String = args[i].clone();
        assert(text::views(out@.push(arg)) =~= text::views(out@).push(arg@));
        out.push(arg);
        assert(start + all.take(i + 1) =~= (start + all.take(i as int)).push(all[i as int]));
        i += 1;
    }
    assert(start + all.take(args@.len() as int) =~= bun_args(all));
    let announcement: Option<String> = if verbose > 0 {
        let mut told: String = "Running: bun ".to_owned();
        let shown: String = text::join(args, " ");
        told.append(shown.as_str());
        Some(told)
    } else {
        None
    };
    assert(args@.len() > 0 ==> all[0] == args@[0]@);
    let passthrough: bool = args.len() > 0 && is_passed_through(args[0].as_str());
    BunCommand { args: out, passthrough, announcement }
}

// ---------------------------------------------------------------------------
// The output
// ---------------------------------------------------------------------------

/// Whether a line of the output comes from the script: it is not the echo of the
/// command, nor one that begins with `bun run`, not the name and version of the package, not a warning, not a sign of
/// progress, and not blank.
pub open spec fn is_kept(line: Seq<char>) -> bool {
    &&& !text::begins_with_char(line, '$')
    &&& !"bun run"@.is_prefix_of(line)
    &&& !(text::begins_with_char(line, '>') && line.contains('@'))
    &&& !"warn"@.is_prefix_of(text::trim_front(line))
    &&& !"WARN"@.is_prefix_of(text::trim_front(line))
    &&& !line.contains('⸩')
    &&& !line.contains('⸨')
    &&& text::trimmed(line).len() > 0
}

/// The lines of the output that come from the script, in their order.
pub open spec fn kept_lines(lines: Seq<Seq<char>>) -> Seq<Seq<char>> {
    lines.filter(|line: Seq<char>| is_kept(line))
}

/// What is shown of the output: the lines that come from the script, or `ok` where
/// there are none.
pub open spec fn filtered(output: Seq<char>) -> Seq<char> {
    let kept = kept_lines(text::text_lines(output));
    if kept.len() == 0 {
        "ok"@
    } else {
        text::joined(kept, "\n"@)
    }
}

fn keeps_line(line: &str) -> (yes: bool)
    ensures
        yes == is_kept(line@),
{
    if text::starts_with_char(line, '$') {
        return false;
    }
    if text::starts_with(line, "bun run") {
        return false;
    }
    if text::starts_with_char(line, '>') && text::contains_char(line, '@') {
        return false;
    }
    let start: String = text::trim_start(line);
    if text::starts_with(start.as_str(), "warn") || text::starts_with(start.as_str(), "WARN") {
        return false;
    }
    if text::contains_char(line, '⸩') || text::contains_char(line, '⸨') {
        return false;
    }
    let body: String = text::trim(line);
    !body.as_str().is_empty()
}

/// What is shown of the output of `bun`.
pub fn filter_bun_output(output: &str) -> (shown: String)
    ensures
        shown@ == filtered(output@),
{
    let lines: Vec<String> = text::lines(output);
    let ghost all = text::text_lines(output@);
    let mut kept: Vec<String> = Vec::new();
    let mut i: usize = 0;
    assert(text::views(kept@) =~= kept_lines(all.take(0)));
    while i < lines.len()
        invariant
            i <= lines@.len(),
            all == text::views(lines@),
            text::views(kept@) == kept_lines(all.take(i as int)),
        decreases lines@.len() - i,
    {
        proof {
            let pred = |line: Seq<char>| is_kept(line);
            assert(all.take(i + 1) =~= all.take(i as int).push(all[i as int]));
            all.take(i as int).lemma_filter_push(all[i as int], pred);
        }
        if keeps_line(lines[i].as_str()) {
            let line: String = lines[i].clone();
            assert(text::views(kept@.push(line)) =~= text::views(kept@).push(line@));
            kept.push(line);
        }
        i += 1;
    }
    assert(all.take(lines@.len() as int) =~= all);
    assert(text::views(kept@).len() == kept@.len());
    if kept.len() == 0 {
        "ok".to_owned()
    } else {
        text::join(&kept, "\n")
    }
}

/// What is shown of the output of a call of `bun`: all of it, unchanged, where the call
/// says so, and otherwise the lines that come from the script.
pub fn show_output(command: &BunCommand, output: &str) -> (shown: String)
    ensures
        shown@ == if command.passthrough {
            output@
        } else {
            filtered(output@)
        },
{
    if command.passthrough {
        output.to_owned()
    } else {
        filter_bun_output(output)
    }
}

// ---------------------------------------------------------------------------
// Laws
// ---------------------------------------------------------------------------

/// The subcommand `run` is added at most once: what `bun` is called with needs no
/// more of it, and an explicit `run` is left as it is.
pub proof fn run_is_added_once(args: Seq<Seq<char>>)
    ensures
        !needs_run(bun_args(args)),
        bun_args(bun_args(args)) == bun_args(args),
{
    if needs_run(args) {
        assert(bun_args(args)[0] == "run"@);
    }
}

/// Naming a script alone, and naming it after `run`, come to the same call.
pub proof fn script_name_stands_for_run(args: Seq<Seq<char>>)
    requires
        needs_run(args),
    ensures
        bun_args(args) == bun_args(seq!["run"@] + args),
{
    assert((seq!["run"@] + args)[0] == "run"@);
}

/// What is shown unchanged is never the output of a script: `run` is added to no call
/// whose output passes through, and an explicit `run` is always filtered.
pub proof fn scripts_are_always_filtered(args: Seq<Seq<char>>)
    ensures
        passes_through(args) ==> !needs_run(args) && bun_args(args) == args,
        args.len() > 0 && args[0] == "run"@ ==> !passes_through(args),
{
    reveal_strlit("run");
    reveal_strlit("install");
    reveal_strlit("add");
    reveal_strlit("remove");
    reveal_strlit("link");
    reveal_strlit("unlink");
    reveal_strlit("pm");
    reveal_strlit("create");
    reveal_strlit("init");
    reveal_strlit("upgrade");
    reveal_strlit("completions");
    reveal_strlit("repl");
    reveal_strlit("dev");
    reveal_strlit("--version");
    if passes_through(args) {
        let k = choose|k: int|
            0 <= k < PASSTHROUGH_SUBCOMMANDS@.len() && #[trigger] PASSTHROUGH_SUBCOMMANDS@[k]@
                == args[0];
        assert(BUN_SUBCOMMANDS@[0]@ == "install"@);
        assert(BUN_SUBCOMMANDS@[2]@ == "add"@);
        assert(BUN_SUBCOMMANDS@[3]@ == "remove"@);
        assert(BUN_SUBCOMMANDS@[7]@ == "link"@);
        assert(BUN_SUBCOMMANDS@[8]@ == "unlink"@);
        assert(BUN_SUBCOMMANDS@[9]@ == "pm"@);
        assert(BUN_SUBCOMMANDS@[10]@ == "create"@);
        assert(BUN_SUBCOMMANDS@[11]@ == "init"@);
        assert(BUN_SUBCOMMANDS@[6]@ == "upgrade"@);
        assert(BUN_SUBCOMMANDS@[16]@ == "completions"@);
        assert(BUN_SUBCOMMANDS@[15]@ == "repl"@);
        assert(BUN_SUBCOMMANDS@[13]@ == "dev"@);
        assert(BUN_SUBCOMMANDS@[20]@ == "--version"@);
        assert(is_subcommand(args[0]));
        assert("run"@.len() == 3);
        assert("add"@[0] != "run"@[0]);
        assert("dev"@[0] != "run"@[0]);
        assert(args[0] != "run"@);
    }
}

/// `ok` is a line that is kept.
proof fn lemma_ok_is_kept()
    ensures
        kept_lines(text::text_lines("ok"@)) == seq!["ok"@],
{
    reveal_strlit("ok");
    reveal_strlit("warn");
    reveal_strlit("WARN");
    reveal_strlit("bun run");
    let ok = "ok"@;
    text::lemma_line_end(ok, 2);
    assert(text::text_lines(ok) =~= seq![ok]);
    assert(is_kept(ok));
    let none = Seq::<Seq<char>>::empty();
    let pred = |line: Seq<char>| is_kept(line);
    none.lemma_filter_push(ok, pred);
    none.lemma_filter_len(pred);
    assert(none.push(ok) =~= seq![ok]);
    assert(none.filter(pred) =~= none);
}

/// A line that is kept is a line of the output that comes from the script.
proof fn lemma_kept_lines(lines: Seq<Seq<char>>, k: int)
    requires
        0 <= k < kept_lines(lines).len(),
    ensures
        is_kept(kept_lines(lines)[k]),
        lines.contains(kept_lines(lines)[k]),
{
    let pred = |line: Seq<char>| is_kept(line);
    let kept = lines.filter(pred);
    lines.lemma_filter_pred(pred, k);
    assert(kept.contains(kept[k]));
    lines.lemma_filter_contains_rev(pred, kept[k]);
}

/// Lines that are all kept stay as they are.
proof fn lemma_all_kept(lines: Seq<Seq<char>>)
    requires
        forall|k: int| 0 <= k < lines.len() ==> is_kept(#[trigger] lines[k]),
    ensures
        kept_lines(lines) == lines,
    decreases lines.len(),
{
    let pred = |line: Seq<char>| is_kept(line);
    if lines.len() == 0 {
        lines.lemma_filter_len(pred);
        assert(kept_lines(lines) =~= lines);
    } else {
        let fewer = lines.drop_last();
        assert forall|k: int| 0 <= k < fewer.len() implies is_kept(#[trigger] fewer[k]) by {
            assert(fewer[k] == lines[k]);
        }
        lemma_all_kept(fewer);
        fewer.lemma_filter_push(lines.last(), pred);
        assert(fewer.push(lines.last()) =~= lines);
    }
}

/// What is shown is never empty.
pub proof fn something_is_always_shown(output: Seq<char>)
    ensures
        filtered(output).len() > 0,
{
    reveal_strlit("ok");
    let kept = kept_lines(text::text_lines(output));
    if kept.len() > 0 {
        lemma_kept_lines(text::text_lines(output), kept.len() - 1);
    }
}

/// Filtering what is shown changes nothing, where no line that is kept, but the
/// last, ends with a carriage return.
pub proof fn filtering_again_changes_nothing(output: Seq<char>)
    requires
        ({
            let kept = kept_lines(text::text_lines(output));
            forall|k: int|
                0 <= k < kept.len() - 1 ==> !((#[trigger] kept[k]).len() > 0 && kept[k].last()
                    == '\r')
        }),
    ensures
        filtered(filtered(output)) == filtered(output),
{
    let lines = text::text_lines(output);
    let kept = kept_lines(lines);
    if kept.len() == 0 {
        lemma_ok_is_kept();
    } else {
        assert forall|k: int| 0 <= k < kept.len() implies is_kept(#[trigger] kept[k])
            && !kept[k].contains('\n') by {
            lemma_kept_lines(lines, k);
            let j = choose|j: int| 0 <= j < lines.len() && lines[j] == kept[k];
            text::lines_hold_no_newline(output, j);
        }
        assert(kept.last() == kept[kept.len() - 1]);
        text::joined_lines_are_read_back(kept);
        lemma_all_kept(kept);
    }
}

/// Each line that is shown comes from the script, unless `ok` is all that is shown.
pub proof fn shown_lines_come_from_the_script(output: Seq<char>, k: int)
    requires
        0 <= k < kept_lines(text::text_lines(output)).len(),
    ensures
        is_kept(kept_lines(text::text_lines(output))[k]),
        text::text_lines(output).contains(kept_lines(text::text_lines(output))[k]),
{
    lemma_kept_lines(text::text_lines(output), k);
}

/// The words that `bun` takes as a subcommand.
pub open spec fn is_bun_word(arg: Seq<char>) -> bool {
    ||| arg == "install"@
    ||| arg == "i"@
    ||| arg == "add"@
    ||| arg == "remove"@
    ||| arg == "rm"@
    ||| arg == "update"@
    ||| arg == "upgrade"@
    ||| arg == "link"@
    ||| arg == "unlink"@
    ||| arg == "pm"@
    ||| arg == "create"@
    ||| arg == "init"@
    ||| arg == "build"@
    ||| arg == "dev"@
    ||| arg == "test"@
    ||| arg == "repl"@
    ||| arg == "completions"@
    ||| arg == "help"@
    ||| arg == "version"@
    ||| arg == "-v"@
    ||| arg == "--version"@
}

proof fn lemma_bun_word(arg: Seq<char>)
    ensures
        is_subcommand(arg) == is_bun_word(arg),
{
    assert(BUN_SUBCOMMANDS@[0]@ == "install"@);
    assert(BUN_SUBCOMMANDS@[1]@ == "i"@);
    assert(BUN_SUBCOMMANDS@[2]@ == "add"@);
    assert(BUN_SUBCOMMANDS@[3]@ == "remove"@);
    assert(BUN_SUBCOMMANDS@[4]@ == "rm"@);
    assert(BUN_SUBCOMMANDS@[5]@ == "update"@);
    assert(BUN_SUBCOMMANDS@[6]@ == "upgrade"@);
    assert(BUN_SUBCOMMANDS@[7]@ == "link"@);
    assert(BUN_SUBCOMMANDS@[8]@ == "unlink"@);
    assert(BUN_SUBCOMMANDS@[9]@ == "pm"@);
    assert(BUN_SUBCOMMANDS@[10]@ == "create"@);
    assert(BUN_SUBCOMMANDS@[11]@ == "init"@);
    assert(BUN_SUBCOMMANDS@[12]@ == "build"@);
    assert(BUN_SUBCOMMANDS@[13]@ == "dev"@);
    assert(BUN_SUBCOMMANDS@[14]@ == "test"@);
    assert(BUN_SUBCOMMANDS@[15]@ == "repl"@);
    assert(BUN_SUBCOMMANDS@[16]@ == "completions"@);
    assert(BUN_SUBCOMMANDS@[17]@ == "help"@);
    assert(BUN_SUBCOMMANDS@[18]@ == "version"@);
    assert(BUN_SUBCOMMANDS@[19]@ == "-v"@);
    assert(BUN_SUBCOMMANDS@[20]@ == "--version"@);
}

/// The arguments reach `bun` unchanged and in their order. The word `run` comes before
/// them exactly where they do not begin with it, with a subcommand or with a flag.
pub proof fn only_script_names_get_run(args: Seq<Seq<char>>)
    ensures
        bun_args(args) == if args.len() > 0 && (args[0] == "run"@ || is_bun_word(args[0]) || (
        args[0].len() > 0 && args[0][0] == '-')) {
            args
        } else {
            seq!["run"@] + args
        },
        bun_args(args).len() == args.len() + if needs_run(args) {
            1nat
        } else {
            0nat
        },
{
    if args.len() > 0 {
        lemma_bun_word(args[0]);
    }
}

/// The words whose output is shown unchanged.
pub open spec fn is_managing_word(arg: Seq<char>) -> bool {
    ||| arg == "install"@
    ||| arg == "add"@
    ||| arg == "remove"@
    ||| arg == "link"@
    ||| arg == "unlink"@
    ||| arg == "pm"@
    ||| arg == "create"@
    ||| arg == "init"@
    ||| arg == "upgrade"@
    ||| arg == "completions"@
    ||| arg == "repl"@
    ||| arg == "dev"@
    ||| arg == "--version"@
}

/// The output is shown unchanged exactly where the first argument manages packages or
/// the project, starts a tool that stays, or asks for the version.
pub proof fn managing_words_pass_through(args: Seq<Seq<char>>)
    ensures
        passes_through(args) <==> args.len() > 0 && is_managing_word(args[0]),
{
    assert(PASSTHROUGH_SUBCOMMANDS@[0]@ == "install"@);
    assert(PASSTHROUGH_SUBCOMMANDS@[1]@ == "add"@);
    assert(PASSTHROUGH_SUBCOMMANDS@[2]@ == "remove"@);
    assert(PASSTHROUGH_SUBCOMMANDS@[3]@ == "link"@);
    assert(PASSTHROUGH_SUBCOMMANDS@[4]@ == "unlink"@);
    assert(PASSTHROUGH_SUBCOMMANDS@[5]@ == "pm"@);
    assert(PASSTHROUGH_SUBCOMMANDS@[6]@ == "create"@);
    assert(PASSTHROUGH_SUBCOMMANDS@[7]@ == "init"@);
    assert(PASSTHROUGH_SUBCOMMANDS@[8]@ == "upgrade"@);
    assert(PASSTHROUGH_SUBCOMMANDS@[9]@ == "completions"@);
    assert(PASSTHROUGH_SUBCOMMANDS@[10]@ == "repl"@);
    assert(PASSTHROUGH_SUBCOMMANDS@[11]@ == "dev"@);
    assert(PASSTHROUGH_SUBCOMMANDS@[12]@ == "--version"@);
}

/// Whether a word stands in a line with nothing but white space before it.
pub open spec fn begins_behind_space(line: Seq<char>, word: Seq<char>) -> bool {
    exists|n: int|
        0 <= n <= line.len() && word.is_prefix_of(#[trigger] line.skip(n)) && forall|i: int|
            0 <= i < n ==> text::white_space(#[trigger] line[i])
}

/// Whether a line is boilerplate of `bun`: the echo of a command, the name and version of
/// a package, a warning, a sign of progress, or blank.
pub open spec fn is_boilerplate(line: Seq<char>) -> bool {
    ||| line.len() > 0 && line[0] == '$'
    ||| "bun run"@.is_prefix_of(line)
    ||| line.len() > 0 && line[0] == '>' && line.contains('@')
    ||| begins_behind_space(line, "warn"@)
    ||| begins_behind_space(line, "WARN"@)
    ||| line.contains('⸩')
    ||| line.contains('⸨')
    ||| forall|i: int| 0 <= i < line.len() ==> text::white_space(#[trigger] line[i])
}

proof fn lemma_behind_space(line: Seq<char>, word: Seq<char>)
    requires
        word.len() > 0,
        !text::white_space(word[0]),
    ensures
        begins_behind_space(line, word) == word.is_prefix_of(text::trim_front(line)),
{
    text::trimming_takes_white_space_only(line);
    let front = text::trim_front(line);
    let cut = line.len() - front.len();
    assert(front =~= line.skip(cut));
    if begins_behind_space(line, word) {
        let n = choose|n: int|
            0 <= n <= line.len() && word.is_prefix_of(#[trigger] line.skip(n)) && forall|i: int|
                0 <= i < n ==> text::white_space(#[trigger] line[i]);
        let here = line.skip(n);
        assert(word[0] == here.subrange(0, word.len() as int)[0]);
        assert(line[n] == word[0]);
        if cut < n {
            assert(front[0] == line[cut]);
        } else if n < cut {
            assert(text::white_space(line[n]));
        }
    }
}

proof fn lemma_boilerplate(line: Seq<char>)
    ensures
        is_kept(line) == !is_boilerplate(line),
{
    reveal_strlit("warn");
    reveal_strlit("WARN");
    lemma_behind_space(line, "warn"@);
    lemma_behind_space(line, "WARN"@);
    text::trimming_takes_white_space_only(line);
    let front = text::trim_front(line);
    let both = text::trimmed(line);
    let cut = line.len() - front.len();
    if both.len() == 0 {
        if front.len() > 0 {
            assert(text::white_space(front[0]));
        }
        assert forall|i: int| 0 <= i < line.len() implies text::white_space(
            #[trigger] line[i],
        ) by {}
    } else {
        assert(front[0] == line[cut]);
    }
}

/// Nothing but boilerplate is dropped: every other line of the output is shown, whole
/// and in its place, and `ok` is shown instead exactly where there is no other line.
pub proof fn only_boilerplate_is_dropped(output: Seq<char>)
    ensures
        ({
            let shown = text::text_lines(output).filter(|line: Seq<char>| !is_boilerplate(line));
            &&& shown.len() > 0 ==> filtered(output) == text::joined(shown, "\n"@)
            &&& shown.len() == 0 ==> filtered(output) == "ok"@
            &&& forall|k: int|
                0 <= k < text::text_lines(output).len() && !is_boilerplate(
                    #[trigger] text::text_lines(output)[k],
                ) ==> shown.contains(text::text_lines(output)[k])
        }),
{
    let lines = text::text_lines(output);
    let kept = |line: Seq<char>| is_kept(line);
    let other = |line: Seq<char>| !is_boilerplate(line);
    assert forall|line: Seq<char>| #[trigger] kept(line) == other(line) by {
        lemma_boilerplate(line);
    }
    assert(kept =~= other);
    assert forall|k: int| 0 <= k < lines.len() && !is_boilerplate(
        #[trigger] lines[k],
    ) implies lines.filter(other).contains(lines[k]) by {
        lines.lemma_filter_contains(other, k);
    }
}

/// What is shown of a line does not depend on the lines around it: the lines that are
/// shown of two outputs, one behind the other, are those of the first and then those of
/// the second.
pub proof fn lines_are_kept_one_by_one(a: Seq<Seq<char>>, b: Seq<Seq<char>>)
    ensures
        kept_lines(a + b) == kept_lines(a) + kept_lines(b),
{
    Seq::filter_distributes_over_add(a, b, |line: Seq<char>| is_kept(line));
}

} // verus!
