//! The arguments of a search, in the syntax of `find` or in a short syntax.
//!
//! - `find [path] -name "*.rs" -type f -maxdepth 3`
//! - `<pattern> [path] [-m max] [-t type]`

use vstd::prelude::*;

use crate::numbers;
use crate::text;

verus! {

// ---------------------------------------------------------------------------
// What the arguments mean
// ---------------------------------------------------------------------------

/// What a search looks for, and where.
#[derive(Debug)]
pub struct FindArgs {
    pub pattern: String,
    pub path: String,
    pub max_results: usize,
    pub max_depth: Option<usize>,
    pub file_type: String,
    pub case_insensitive: bool,
}

/// The view of `FindArgs`.
#[verifier::ext_equal]
pub struct FindArgsView {
    pub pattern: Seq<char>,
    pub path: Seq<char>,
    pub max_results: usize,
    pub max_depth: Option<usize>,
    pub file_type: Seq<char>,
    pub case_insensitive: bool,
}

impl View for FindArgs {
    type V = FindArgsView;

    open spec fn view(&self) -> FindArgsView {
        FindArgsView {
            pattern: self.pattern@,
            path: self.path@,
            max_results: self.max_results,
            max_depth: self.max_depth,
            file_type: self.file_type@,
            case_insensitive: self.case_insensitive,
        }
    }
}

/// Why arguments are refused.
#[derive(Debug, Clone, Copy, PartialEq, Eq, Structural)]
pub enum FindError {
    /// A predicate or action of `find` that a search here does not have.
    Unsupported,
    /// The value of `-maxdepth` is not a number.
    InvalidMaxDepth,
    /// The value of `-m` or `--max` is not a number.
    InvalidMax,
}

/// How many names are shown where the arguments do not say.
pub const DEFAULT_MAX_RESULTS: usize = 50;

/// The flags of `find` that are understood. One of them makes the arguments those of
/// `find`.
pub const NATIVE_FIND_FLAGS: [&'static str; 4] = ["-name", "-type", "-maxdepth", "-iname"];

/// The flags of `find` that are refused: they combine predicates, act on what is
/// found, or ask for what a search here does not look at.
pub const UNSUPPORTED_FIND_FLAGS: [&'static str; 23] = [
    "-not", "!", "-or", "-o", "-and", "-a", "-exec", "-execdir", "-delete", "-print0", "-newer",
    "-perm", "-size", "-mtime", "-mmin", "-atime", "-amin", "-ctime", "-cmin", "-empty", "-link",
    "-regex", "-iregex",
];

/// Whether `arg` is one of the flags of `find` that are understood.
pub open spec fn is_native_flag(arg: Seq<char>) -> bool {
    exists|k: int| 0 <= k < NATIVE_FIND_FLAGS@.len() && #[trigger] NATIVE_FIND_FLAGS@[k]@ == arg
}

/// Whether `arg` is one of the flags of `find` that are refused.
pub open spec fn is_unsupported_flag(arg: Seq<char>) -> bool {
    exists|k: int|
        0 <= k < UNSUPPORTED_FIND_FLAGS@.len() && #[trigger] UNSUPPORTED_FIND_FLAGS@[k]@ == arg
}

/// Whether one of the arguments is a flag of `find` that is understood.
pub open spec fn any_native(args: Seq<Seq<char>>) -> bool {
    exists|i: int| 0 <= i < args.len() && is_native_flag(#[trigger] args[i])
}

/// Whether one of the arguments is a flag of `find` that is refused.
pub open spec fn any_unsupported(args: Seq<Seq<char>>) -> bool {
    exists|i: int| 0 <= i < args.len() && is_unsupported_flag(#[trigger] args[i])
}

/// What a search does where no argument says otherwise.
pub open spec fn default_args() -> FindArgsView {
    FindArgsView {
        pattern: "*"@,
        path: "."@,
        max_results: DEFAULT_MAX_RESULTS,
        max_depth: None,
        file_type: "f"@,
        case_insensitive: false,
    }
}

/// What arguments in the syntax of `find` come to, with the flags that were not
/// known and had no effect.
pub struct NativeScan {
    pub result: Result<FindArgsView, FindError>,
    pub ignored: Seq<Seq<char>>,
}

/// What the arguments `rest` in the syntax of `find` add to `found`. A flag that
/// takes a value takes the next argument; without one it has no effect.
pub open spec fn native_scan(
    rest: Seq<Seq<char>>,
    found: FindArgsView,
    ignored: Seq<Seq<char>>,
) -> NativeScan
    decreases rest.len(),
{
    if rest.len() == 0 {
        NativeScan { result: Ok(found), ignored }
    } else if !is_native_flag(rest[0]) {
        native_scan(
            rest.skip(1),
            found,
            if text::begins_with_char(rest[0], '-') {
                ignored.push(rest[0])
            } else {
                ignored
            },
        )
    } else if rest.len() == 1 {
        NativeScan { result: Ok(found), ignored }
    } else if rest[0] == "-name"@ {
        native_scan(rest.skip(2), FindArgsView { pattern: rest[1], ..found }, ignored)
    } else if rest[0] == "-iname"@ {
        native_scan(
            rest.skip(2),
            FindArgsView { pattern: rest[1], case_insensitive: true, ..found },
            ignored,
        )
    } else if rest[0] == "-type"@ {
        native_scan(rest.skip(2), FindArgsView { file_type: rest[1], ..found }, ignored)
    } else {
        match numbers::usize_text(rest[1]) {
            Some(n) => native_scan(
                rest.skip(2),
                FindArgsView { max_depth: Some(n), ..found },
                ignored,
            ),
            None => NativeScan { result: Err(FindError::InvalidMaxDepth), ignored },
        }
    }
}

/// What arguments in the syntax of `find` mean. The first is the path unless it
/// begins with `-`.
pub open spec fn native_args(args: Seq<Seq<char>>) -> NativeScan {
    if args.len() > 0 && !text::begins_with_char(args[0], '-') {
        native_scan(args.skip(1), FindArgsView { path: args[0], ..default_args() }, seq![])
    } else {
        native_scan(args, default_args(), seq![])
    }
}

/// What the arguments `rest` in the short syntax add to `found`.
pub open spec fn short_scan(rest: Seq<Seq<char>>, found: FindArgsView) -> Result<
    FindArgsView,
    FindError,
>
    decreases rest.len(),
{
    if rest.len() == 0 {
        Ok(found)
    } else if rest[0] == "-m"@ || rest[0] == "--max"@ {
        if rest.len() == 1 {
            Ok(found)
        } else {
            match numbers::usize_text(rest[1]) {
                Some(n) => short_scan(rest.skip(2), FindArgsView { max_results: n, ..found }),
                None => Err(FindError::InvalidMax),
            }
        }
    } else if rest[0] == "-t"@ || rest[0] == "--file-type"@ {
        if rest.len() == 1 {
            Ok(found)
        } else {
            short_scan(rest.skip(2), FindArgsView { file_type: rest[1], ..found })
        }
    } else {
        short_scan(rest.skip(1), found)
    }
}

/// What arguments in the short syntax mean. The first is the pattern, and the second
/// is the path unless it begins with `-`.
pub open spec fn short_args(args: Seq<Seq<char>>) -> Result<FindArgsView, FindError> {
    let found = FindArgsView { pattern: args[0], ..default_args() };
    if args.len() > 1 && !text::begins_with_char(args[1], '-') {
        short_scan(args.skip(2), FindArgsView { path: args[1], ..found })
    } else {
        short_scan(args.skip(1), found)
    }
}

/// What the arguments of a search mean.
pub open spec fn meaning(args: Seq<Seq<char>>) -> Result<FindArgsView, FindError> {
    if args.len() == 0 {
        Ok(default_args())
    } else if any_unsupported(args) {
        Err(FindError::Unsupported)
    } else if any_native(args) {
        native_args(args).result
    } else {
        short_args(args)
    }
}

/// The flags that the arguments of a search hold and that have no effect.
pub open spec fn ignored_flags(args: Seq<Seq<char>>) -> Seq<Seq<char>> {
    if args.len() == 0 || any_unsupported(args) || !any_native(args) {
        seq![]
    } else {
        native_args(args).ignored
    }
}

/// The view of what parsing gives.
pub open spec fn result_view(r: Result<FindArgs, FindError>) -> Result<FindArgsView, FindError> {
    match r {
        Ok(a) => Ok(a@),
        Err(e) => Err(e),
    }
}

// ---------------------------------------------------------------------------
// Parsing
// ---------------------------------------------------------------------------

impl FindError {
    /// The message that tells the user why the arguments are refused.
    pub open spec fn message_view(self) -> Seq<char> {
        match self {
            FindError::Unsupported => {
                "rtk find does not support compound predicates or actions (e.g. -not, -exec). Use `find` directly."@
            },
            FindError::InvalidMaxDepth => "invalid -maxdepth value"@,
            FindError::InvalidMax => "invalid --max value"@,
        }
    }

    /// The message that tells the user why the arguments are refused.
    pub fn message(&self) -> (text: String)
        ensures
            text@ == self.message_view(),
    {
        match self {
            FindError::Unsupported => {
                "rtk find does not support compound predicates or actions (e.g. -not, -exec). Use `find` directly.".to_owned()
            },
            FindError::InvalidMaxDepth => "invalid -maxdepth value".to_owned(),
            FindError::InvalidMax => "invalid --max value".to_owned(),
        }
    }
}

impl Default for FindArgs {
    fn default() -> (args: Self)
        ensures
            args@ == default_args(),
    {
        FindArgs {
            pattern: "*".to_owned(),
            path: ".".to_owned(),
            max_results: DEFAULT_MAX_RESULTS,
            max_depth: None,
            file_type: "f".to_owned(),
            case_insensitive: false,
        }
    }
}

/// Moves on to the next argument and gives it, or `None` behind the last one.
pub fn next_arg(args: &[String], i: &mut usize) -> (arg: Option<String>)
    requires
        *old(i) < usize::MAX,
    ensures
        *final(i) == *old(i) + 1,
        text::opt_view(arg) == if *old(i) + 1 < args@.len() {
            Some(args@[*old(i) + 1]@)
        } else {
            None
        },
{
    *i += 1;
    if *i < args.len() {
        Some(args[*i].clone())
    } else {
        None
    }
}

fn is_native(arg: &str) -> (yes: bool)
    ensures
        yes == is_native_flag(arg@),
{
    let mut k: usize = 0;
    while k < NATIVE_FIND_FLAGS.len()
        invariant
            k <= NATIVE_FIND_FLAGS@.len(),
            forall|j: int| 0 <= j < k ==> #[trigger] NATIVE_FIND_FLAGS@[j]@ != arg@,
        decreases NATIVE_FIND_FLAGS@.len() - k,
    {
        if text::str_eq(NATIVE_FIND_FLAGS[k], arg) {
            return true;
        }
        k += 1;
    }
    false
}

fn is_unsupported(arg: &str) -> (yes: bool)
    ensures
        yes == is_unsupported_flag(arg@),
{
    let mut k: usize = 0;
    while k < UNSUPPORTED_FIND_FLAGS.len()
        invariant
            k <= UNSUPPORTED_FIND_FLAGS@.len(),
            forall|j: int| 0 <= j < k ==> #[trigger] UNSUPPORTED_FIND_FLAGS@[j]@ != arg@,
        decreases UNSUPPORTED_FIND_FLAGS@.len() - k,
    {
        if text::str_eq(UNSUPPORTED_FIND_FLAGS[k], arg) {
            return true;
        }
        k += 1;
    }
    false
}

/// Whether the arguments hold a flag of `find` that is understood.
pub fn has_native_find_flags(args: &[String]) -> (yes: bool)
    ensures
        yes == any_native(text::views(args@)),
{
    let mut i: usize = 0;
    while i < args.len()
        invariant
            i <= args@.len(),
            forall|j: int| 0 <= j < i ==> !is_native_flag(#[trigger] text::views(args@)[j]),
        decreases args@.len() - i,
    {
        if is_native(args[i].as_str()) {
            assert(is_native_flag(text::views(args@)[i as int]));
            return true;
        }
        i += 1;
    }
    false
}

/// Whether the arguments hold a flag of `find` that is refused.
pub fn has_unsupported_find_flags(args: &[String]) -> (yes: bool)
    ensures
        yes == any_unsupported(text::views(args@)),
{
    let mut i: usize = 0;
    while i < args.len()
        invariant
            i <= args@.len(),
            forall|j: int| 0 <= j < i ==> !is_unsupported_flag(#[trigger] text::views(args@)[j]),
        decreases args@.len() - i,
    {
        if is_unsupported(args[i].as_str()) {
            assert(is_unsupported_flag(text::views(args@)[i as int]));
            return true;
        }
        i += 1;
    }
    false
}

/// The flags that are understood, spelled out.
proof fn lemma_native_flags(arg: Seq<char>)
    ensures
        is_native_flag(arg) == (arg == "-name"@ || arg == "-iname"@ || arg == "-type"@ || arg
            == "-maxdepth"@),
{
    assert(NATIVE_FIND_FLAGS@[0]@ == "-name"@);
    assert(NATIVE_FIND_FLAGS@[1]@ == "-type"@);
    assert(NATIVE_FIND_FLAGS@[2]@ == "-maxdepth"@);
    assert(NATIVE_FIND_FLAGS@[3]@ == "-iname"@);
}

/// Reads arguments in the syntax of `find`, and the flags among them that have no
/// effect.
fn scan_native(args: &[String]) -> (scan: (Result<FindArgs, FindError>, Vec<String>))
    requires
        args@.len() > 0,
    ensures
        result_view(scan.0) == native_args(text::views(args@)).result,
        text::views(scan.1@) == native_args(text::views(args@)).ignored,
{
    let ghost all = text::views(args@);
    let ghost whole = native_args(all);
    let mut parsed: FindArgs = FindArgs::default();
    let mut ignored: Vec<String> = Vec::new();
    let mut i: usize = 0;
    assert(all.skip(0) =~= all);
    assert(text::views(ignored@) =~= seq![]);
    if !text::starts_with_char(args[0].as_str(), '-') {
        parsed.path = args[0].clone();
        i = 1;
        assert(parsed@ =~= FindArgsView { path: all[0], ..default_args() });
    }
    while i < args.len()
        invariant
            i <= args@.len(),
            all == text::views(args@),
            whole == native_args(all),
            whole == native_scan(all.skip(i as int), parsed@, text::views(ignored@)),
        decreases args@.len() - i,
    {
        let ghost rest = all.skip(i as int);
        let ghost before = parsed@;
        let flag: &str = args[i].as_str();
        proof {
            assert(rest[0] == flag@);
            lemma_native_flags(flag@);
            assert(rest.skip(1) =~= all.skip(i + 1));
            if i + 1 < args@.len() {
                assert(rest[1] == args@[i + 1]@);
                assert(rest.skip(2) =~= all.skip(i + 2));
            }
        }
        if text::str_eq(flag, "-name") {
            if let Some(val) = next_arg(args, &mut i) {
                parsed.pattern = val;
                assert(parsed@ =~= FindArgsView { pattern: rest[1], ..before });
            }
        } else if text::str_eq(flag, "-iname") {
            if let Some(val) = next_arg(args, &mut i) {
                parsed.pattern = val;
                parsed.case_insensitive = true;
                assert(parsed@ =~= FindArgsView {
                    pattern: rest[1],
                    case_insensitive: true,
                    ..before
                });
            }
        } else if text::str_eq(flag, "-type") {
            if let Some(val) = next_arg(args, &mut i) {
                parsed.file_type = val;
                assert(parsed@ =~= FindArgsView { file_type: rest[1], ..before });
            }
        } else if text::str_eq(flag, "-maxdepth") {
            if let Some(val) = next_arg(args, &mut i) {
                match numbers::parse_usize(val.as_str()) {
                    Some(n) => {
                        parsed.max_depth = Some(n);
                        assert(parsed@ =~= FindArgsView { max_depth: Some(n), ..before });
                    },
                    None => {
                        return (Err(FindError::InvalidMaxDepth), ignored);
                    },
                }
            }
        } else if text::starts_with_char(flag, '-') {
            let unknown: String = args[i].clone();
            assert(text::views(ignored@.push(unknown)) =~= text::views(ignored@).push(flag@));
            ignored.push(unknown);
        }
        if i < args.len() {
            i += 1;
        } else {
            assert(all.skip(i as int) =~= seq![]);
        }
    }
    assert(all.skip(i as int) =~= seq![]);
    (Ok(parsed), ignored)
}

/// Reads arguments in the syntax of `find`.
pub fn parse_native_find_args(args: &[String]) -> (parsed: Result<FindArgs, FindError>)
    requires
        args@.len() > 0,
    ensures
        result_view(parsed) == native_args(text::views(args@)).result,
{
    scan_native(args).0
}

/// Reads arguments in the short syntax.
pub fn parse_rtk_find_args(args: &[String]) -> (parsed: Result<FindArgs, FindError>)
    requires
        args@.len() > 0,
    ensures
        result_view(parsed) == short_args(text::views(args@)),
{
    let ghost all = text::views(args@);
    let ghost whole = short_args(all);
    let mut parsed: FindArgs = FindArgs::default();
    parsed.pattern = args[0].clone();
    let mut i: usize = 1;
    assert(parsed@ =~= FindArgsView { pattern: all[0], ..default_args() });
    if i < args.len() && !text::starts_with_char(args[i].as_str(), '-') {
        let ghost before = parsed@;
        parsed.path = args[i].clone();
        i = 2;
        assert(parsed@ =~= FindArgsView { path: all[1], ..before });
    }
    while i < args.len()
        invariant
            i <= args@.len(),
            all == text::views(args@),
            whole == short_args(all),
            whole == short_scan(all.skip(i as int), parsed@),
        decreases args@.len() - i,
    {
        let ghost rest = all.skip(i as int);
        let ghost before = parsed@;
        let flag: &str = args[i].as_str();
        proof {
            assert(rest[0] == flag@);
            assert(rest.skip(1) =~= all.skip(i + 1));
            if i + 1 < args@.len() {
                assert(rest[1] == args@[i + 1]@);
                assert(rest.skip(2) =~= all.skip(i + 2));
            }
        }
        if text::str_eq(flag, "-m") || text::str_eq(flag, "--max") {
            if let Some(val) = next_arg(args, &mut i) {
                match numbers::parse_usize(val.as_str()) {
                    Some(n) => {
                        parsed.max_results = n;
                        assert(parsed@ =~= FindArgsView { max_results: n, ..before });
                    },
                    None => {
                        return Err(FindError::InvalidMax);
                    },
                }
            }
        } else if text::str_eq(flag, "-t") || text::str_eq(flag, "--file-type") {
            if let Some(val) = next_arg(args, &mut i) {
                parsed.file_type = val;
                assert(parsed@ =~= FindArgsView { file_type: rest[1], ..before });
            }
        }
        if i < args.len() {
            i += 1;
        } else {
            assert(all.skip(i as int) =~= seq![]);
        }
    }
    assert(all.skip(i as int) =~= seq![]);
    Ok(parsed)
}

/// Reads the arguments of a search, in either syntax.
pub fn parse_find_args(args: &[String]) -> (parsed: Result<FindArgs, FindError>)
    ensures
        result_view(parsed) == meaning(text::views(args@)),
{
    if args.len() == 0 {
        return Ok(FindArgs::default());
    }
    if has_unsupported_find_flags(args) {
        return Err(FindError::Unsupported);
    }
    if has_native_find_flags(args) {
        parse_native_find_args(args)
    } else {
        parse_rtk_find_args(args)
    }
}

/// The flags of `find` among the arguments that are not known and have no effect, in
/// their order. Those behind a value that is refused are not among them.
pub fn ignored_find_flags(args: &[String]) -> (flags: Vec<String>)
    ensures
        text::views(flags@) == ignored_flags(text::views(args@)),
{
    if args.len() == 0 || has_unsupported_find_flags(args) || !has_native_find_flags(args) {
        let none: Vec<String> = Vec::new();
        assert(text::views(none@) =~= seq![]);
        return none;
    }
    scan_native(args).1
}

// ---------------------------------------------------------------------------
// Laws
// ---------------------------------------------------------------------------

/// The flags of `find` for compound predicates, actions and tests that are not made.
pub open spec fn is_refused_flag(arg: Seq<char>) -> bool {
    ||| arg == "-not"@
    ||| arg == "!"@
    ||| arg == "-or"@
    ||| arg == "-o"@
    ||| arg == "-and"@
    ||| arg == "-a"@
    ||| arg == "-exec"@
    ||| arg == "-execdir"@
    ||| arg == "-delete"@
    ||| arg == "-print0"@
    ||| arg == "-newer"@
    ||| arg == "-perm"@
    ||| arg == "-size"@
    ||| arg == "-mtime"@
    ||| arg == "-mmin"@
    ||| arg == "-atime"@
    ||| arg == "-amin"@
    ||| arg == "-ctime"@
    ||| arg == "-cmin"@
    ||| arg == "-empty"@
    ||| arg == "-link"@
    ||| arg == "-regex"@
    ||| arg == "-iregex"@
}

/// The flags of `find` that take a value here.
pub open spec fn is_find_flag(arg: Seq<char>) -> bool {
    arg == "-name"@ || arg == "-iname"@ || arg == "-type"@ || arg == "-maxdepth"@
}

/// Whether one of the arguments is a flag that is refused.
pub open spec fn holds_refused_flag(args: Seq<Seq<char>>) -> bool {
    exists|i: int| 0 <= i < args.len() && is_refused_flag(#[trigger] args[i])
}

/// Whether the arguments are those of `find`: one of its flags is among them.
pub open spec fn is_find_syntax(args: Seq<Seq<char>>) -> bool {
    exists|i: int| 0 <= i < args.len() && is_find_flag(#[trigger] args[i])
}

proof fn lemma_refused_flag(arg: Seq<char>)
    ensures
        is_unsupported_flag(arg) == is_refused_flag(arg),
{
    assert(UNSUPPORTED_FIND_FLAGS@[0]@ == "-not"@);
    assert(UNSUPPORTED_FIND_FLAGS@[1]@ == "!"@);
    assert(UNSUPPORTED_FIND_FLAGS@[2]@ == "-or"@);
    assert(UNSUPPORTED_FIND_FLAGS@[3]@ == "-o"@);
    assert(UNSUPPORTED_FIND_FLAGS@[4]@ == "-and"@);
    assert(UNSUPPORTED_FIND_FLAGS@[5]@ == "-a"@);
    assert(UNSUPPORTED_FIND_FLAGS@[6]@ == "-exec"@);
    assert(UNSUPPORTED_FIND_FLAGS@[7]@ == "-execdir"@);
    assert(UNSUPPORTED_FIND_FLAGS@[8]@ == "-delete"@);
    assert(UNSUPPORTED_FIND_FLAGS@[9]@ == "-print0"@);
    assert(UNSUPPORTED_FIND_FLAGS@[10]@ == "-newer"@);
    assert(UNSUPPORTED_FIND_FLAGS@[11]@ == "-perm"@);
    assert(UNSUPPORTED_FIND_FLAGS@[12]@ == "-size"@);
    assert(UNSUPPORTED_FIND_FLAGS@[13]@ == "-mtime"@);
    assert(UNSUPPORTED_FIND_FLAGS@[14]@ == "-mmin"@);
    assert(UNSUPPORTED_FIND_FLAGS@[15]@ == "-atime"@);
    assert(UNSUPPORTED_FIND_FLAGS@[16]@ == "-amin"@);
    assert(UNSUPPORTED_FIND_FLAGS@[17]@ == "-ctime"@);
    assert(UNSUPPORTED_FIND_FLAGS@[18]@ == "-cmin"@);
    assert(UNSUPPORTED_FIND_FLAGS@[19]@ == "-empty"@);
    assert(UNSUPPORTED_FIND_FLAGS@[20]@ == "-link"@);
    assert(UNSUPPORTED_FIND_FLAGS@[21]@ == "-regex"@);
    assert(UNSUPPORTED_FIND_FLAGS@[22]@ == "-iregex"@);
}

proof fn lemma_syntax(args: Seq<Seq<char>>)
    ensures
        any_unsupported(args) == holds_refused_flag(args),
        any_native(args) == is_find_syntax(args),
{
    if any_unsupported(args) {
        let i = choose|i: int| 0 <= i < args.len() && is_unsupported_flag(#[trigger] args[i]);
        lemma_refused_flag(args[i]);
    }
    if holds_refused_flag(args) {
        let i = choose|i: int| 0 <= i < args.len() && is_refused_flag(#[trigger] args[i]);
        lemma_refused_flag(args[i]);
        assert(is_unsupported_flag(args[i]));
    }
    if any_native(args) {
        let i = choose|i: int| 0 <= i < args.len() && is_native_flag(#[trigger] args[i]);
        lemma_native_flags(args[i]);
        assert(is_find_flag(args[i]));
    }
    if is_find_syntax(args) {
        let i = choose|i: int| 0 <= i < args.len() && is_find_flag(#[trigger] args[i]);
        lemma_native_flags(args[i]);
        assert(is_native_flag(args[i]));
    }
}

/// The arguments are refused as unsupported exactly where a flag for a compound
/// predicate, an action or a test that is not made stands among them, whatever stands
/// beside it.
pub proof fn unsupported_flags_are_refused(args: Seq<Seq<char>>)
    ensures
        meaning(args) == Err::<FindArgsView, FindError>(FindError::Unsupported)
            <==> holds_refused_flag(args),
{
    lemma_syntax(args);
    if args.len() > 0 && !holds_refused_flag(args) {
        if is_find_syntax(args) {
            the_last_native_value_wins(args);
        } else {
            the_last_short_value_wins(args);
        }
    }
}

/// Without arguments, up to fifty names of files at any depth are shown, whatever they
/// are called.
pub proof fn no_arguments_ask_for_all_files()
    ensures
        meaning(Seq::<Seq<char>>::empty()) == Ok::<FindArgsView, FindError>(
            FindArgsView {
                pattern: "*"@,
                path: "."@,
                max_results: 50,
                max_depth: None,
                file_type: "f"@,
                case_insensitive: false,
            },
        ),
{
}

/// The arguments that are looked at by themselves, and not taken as the value of a flag
/// before them.
pub open spec fn read_args(
    takes_value: spec_fn(Seq<char>) -> bool,
    rest: Seq<Seq<char>>,
) -> Seq<Seq<char>>
    decreases rest.len(),
{
    if rest.len() == 0 {
        seq![]
    } else if takes_value(rest[0]) && rest.len() > 1 {
        seq![rest[0]] + read_args(takes_value, rest.skip(2))
    } else {
        seq![rest[0]] + read_args(takes_value, rest.skip(1))
    }
}

/// Whether an argument looks like a flag of `find` and is none that is known.
pub open spec fn is_unknown_flag(arg: Seq<char>) -> bool {
    arg.len() > 0 && arg[0] == '-' && !is_find_flag(arg)
}

proof fn lemma_ignored(rest: Seq<Seq<char>>, found: FindArgsView, ignored: Seq<Seq<char>>)
    requires
        native_scan(rest, found, ignored).result is Ok,
    ensures
        native_scan(rest, found, ignored).ignored == ignored + read_args(
            native_flags(),
            rest,
        ).filter(|arg: Seq<char>| is_unknown_flag(arg)),
    decreases rest.len(),
{
    let pred = |arg: Seq<char>| is_unknown_flag(arg);
    let read = read_args(native_flags(), rest);
    if rest.len() == 0 {
        read.lemma_filter_len(pred);
        assert(ignored + read.filter(pred) =~= ignored);
    } else {
        lemma_native_flags(rest[0]);
        lemma_native_flags_differ();
        let later = read_args(native_flags(), rest.skip(step(native_flags(), rest)));
        later.lemma_filter_prepend(rest[0], pred);
        assert(seq![rest[0]] + later =~= read);
        if !is_native_flag(rest[0]) {
            let more = if text::begins_with_char(rest[0], '-') {
                ignored.push(rest[0])
            } else {
                ignored
            };
            lemma_ignored(rest.skip(1), found, more);
            assert(more + later.filter(pred) =~= ignored + read.filter(pred));
        } else if rest.len() == 1 {
            later.lemma_filter_len(pred);
            assert(ignored + read.filter(pred) =~= ignored);
        } else if rest[0] == "-name"@ {
            lemma_ignored(rest.skip(2), FindArgsView { pattern: rest[1], ..found }, ignored);
        } else if rest[0] == "-iname"@ {
            lemma_ignored(
                rest.skip(2),
                FindArgsView { pattern: rest[1], case_insensitive: true, ..found },
                ignored,
            );
        } else if rest[0] == "-type"@ {
            lemma_ignored(rest.skip(2), FindArgsView { file_type: rest[1], ..found }, ignored);
        } else if let Some(n) = numbers::usize_text(rest[1]) {
            lemma_ignored(rest.skip(2), FindArgsView { max_depth: Some(n), ..found }, ignored);
        }
    }
}

/// The flags that have no effect are those that look like flags of `find`, are none that
/// is known and are not taken as a value, in their order. In the short syntax there are
/// none.
pub proof fn unknown_flags_are_told(args: Seq<Seq<char>>)
    ensures
        args.len() > 0 && is_find_syntax(args) && meaning(args) is Ok ==> ignored_flags(args)
            == read_args(native_flags(), native_rest(args)).filter(
            |arg: Seq<char>| is_unknown_flag(arg),
        ),
        args.len() == 0 || !is_find_syntax(args) || holds_refused_flag(args) ==> ignored_flags(
            args,
        ).len() == 0,
{
    lemma_syntax(args);
    if args.len() > 0 && is_find_syntax(args) && meaning(args) is Ok {
        let found = if text::begins_with_char(args[0], '-') {
            default_args()
        } else {
            FindArgsView { path: args[0], ..default_args() }
        };
        let none = Seq::<Seq<char>>::empty();
        lemma_ignored(native_rest(args), found, none);
        assert(none + read_args(native_flags(), native_rest(args)).filter(
            |arg: Seq<char>| is_unknown_flag(arg),
        ) =~= read_args(native_flags(), native_rest(args)).filter(
            |arg: Seq<char>| is_unknown_flag(arg),
        ));
    }
}

/// Nothing in the syntax of `find` changes how many names are shown, nor, once the
/// path is read, the path.
proof fn lemma_native_scan_keeps(
    rest: Seq<Seq<char>>,
    found: FindArgsView,
    ignored: Seq<Seq<char>>,
)
    ensures
        native_scan(rest, found, ignored).result matches Ok(a) ==> a.max_results
            == found.max_results && a.path == found.path,
    decreases rest.len(),
{
    if rest.len() > 0 {
        lemma_native_scan_keeps(
            rest.skip(1),
            found,
            if text::begins_with_char(rest[0], '-') {
                ignored.push(rest[0])
            } else {
                ignored
            },
        );
        if rest.len() > 1 {
            let next = rest.skip(2);
            lemma_native_scan_keeps(next, FindArgsView { pattern: rest[1], ..found }, ignored);
            lemma_native_scan_keeps(
                next,
                FindArgsView { pattern: rest[1], case_insensitive: true, ..found },
                ignored,
            );
            lemma_native_scan_keeps(next, FindArgsView { file_type: rest[1], ..found }, ignored);
            if let Some(n) = numbers::usize_text(rest[1]) {
                lemma_native_scan_keeps(next, FindArgsView { max_depth: Some(n), ..found }, ignored);
            }
        }
    }
}

/// In the syntax of `find` the path is the first argument, or `.` where that is a
/// flag, and the number of names that are shown is the default, whatever
/// `-maxdepth` says.
pub proof fn native_syntax_fixes_path_and_limit(args: Seq<Seq<char>>)
    requires
        args.len() > 0,
        !holds_refused_flag(args),
        is_find_syntax(args),
    ensures
        meaning(args) matches Ok(a) ==> a.max_results == 50 && a.path == (
        if text::begins_with_char(args[0], '-') {
            "."@
        } else {
            args[0]
        }),
{
    lemma_syntax(args);
    if text::begins_with_char(args[0], '-') {
        lemma_native_scan_keeps(args, default_args(), seq![]);
    } else {
        lemma_native_scan_keeps(
            args.skip(1),
            FindArgsView { path: args[0], ..default_args() },
            seq![],
        );
    }
}

proof fn lemma_native_scan_case(rest: Seq<Seq<char>>, found: FindArgsView, ignored: Seq<Seq<char>>)
    requires
        forall|i: int| 0 <= i < rest.len() ==> #[trigger] rest[i] != "-iname"@,
    ensures
        native_scan(rest, found, ignored).result matches Ok(a) ==> a.case_insensitive
            == found.case_insensitive,
    decreases rest.len(),
{
    if rest.len() > 0 {
        assert(rest[0] != "-iname"@);
        assert forall|i: int| 0 <= i < rest.skip(1).len() implies #[trigger] rest.skip(1)[i]
            != "-iname"@ by {
            assert(rest.skip(1)[i] == rest[i + 1]);
        }
        lemma_native_scan_case(
            rest.skip(1),
            found,
            if text::begins_with_char(rest[0], '-') {
                ignored.push(rest[0])
            } else {
                ignored
            },
        );
        if rest.len() > 1 {
            let next = rest.skip(2);
            assert forall|i: int| 0 <= i < next.len() implies #[trigger] next[i] != "-iname"@ by {
                assert(next[i] == rest[i + 2]);
            }
            lemma_native_scan_case(next, FindArgsView { pattern: rest[1], ..found }, ignored);
            lemma_native_scan_case(next, FindArgsView { file_type: rest[1], ..found }, ignored);
            if let Some(n) = numbers::usize_text(rest[1]) {
                lemma_native_scan_case(next, FindArgsView { max_depth: Some(n), ..found }, ignored);
            }
        }
    }
}

proof fn lemma_short_scan_keeps(rest: Seq<Seq<char>>, found: FindArgsView)
    ensures
        short_scan(rest, found) matches Ok(a) ==> {
            &&& a.pattern == found.pattern
            &&& a.path == found.path
            &&& a.max_depth == found.max_depth
            &&& a.case_insensitive == found.case_insensitive
        },
    decreases rest.len(),
{
    if rest.len() > 0 {
        lemma_short_scan_keeps(rest.skip(1), found);
        if rest.len() > 1 {
            lemma_short_scan_keeps(rest.skip(2), FindArgsView { file_type: rest[1], ..found });
            if let Some(n) = numbers::usize_text(rest[1]) {
                lemma_short_scan_keeps(rest.skip(2), FindArgsView { max_results: n, ..found });
            }
        }
    }
}

/// In the short syntax the first argument is the pattern, the second is the path
/// unless it is a flag, there is no limit on the depth, and capital and small
/// letters differ.
pub proof fn short_syntax_fixes_pattern_and_path(args: Seq<Seq<char>>)
    requires
        args.len() > 0,
        !holds_refused_flag(args),
        !is_find_syntax(args),
    ensures
        meaning(args) matches Ok(a) ==> {
            &&& a.pattern == args[0]
            &&& a.path == if args.len() > 1 && !text::begins_with_char(args[1], '-') {
                args[1]
            } else {
                "."@
            }
            &&& a.max_depth is None
            &&& !a.case_insensitive
        },
{
    lemma_syntax(args);
    let found = FindArgsView { pattern: args[0], ..default_args() };
    if args.len() > 1 && !text::begins_with_char(args[1], '-') {
        lemma_short_scan_keeps(args.skip(2), FindArgsView { path: args[1], ..found });
    } else {
        lemma_short_scan_keeps(args.skip(1), found);
    }
}

/// Only `-iname` makes a search take capital and small letters as equal.
pub proof fn only_iname_ignores_case(args: Seq<Seq<char>>)
    requires
        forall|i: int| 0 <= i < args.len() ==> #[trigger] args[i] != "-iname"@,
    ensures
        meaning(args) matches Ok(a) ==> !a.case_insensitive,
{
    lemma_syntax(args);
    if args.len() > 0 && !holds_refused_flag(args) {
        if is_find_syntax(args) {
            if text::begins_with_char(args[0], '-') {
                lemma_native_scan_case(args, default_args(), seq![]);
            } else {
                let rest = args.skip(1);
                assert forall|i: int| 0 <= i < rest.len() implies #[trigger] rest[i]
                    != "-iname"@ by {
                    assert(rest[i] == args[i + 1]);
                }
                lemma_native_scan_case(
                    rest,
                    FindArgsView { path: args[0], ..default_args() },
                    seq![],
                );
            }
        } else {
            short_syntax_fixes_pattern_and_path(args);
        }
    }
}

/// The flags that take a value in the syntax of `find`.
pub open spec fn native_flags() -> spec_fn(Seq<char>) -> bool {
    |arg: Seq<char>| is_find_flag(arg)
}

/// `-name` and `-iname`, which give the pattern.
pub open spec fn pattern_flags() -> spec_fn(Seq<char>) -> bool {
    |arg: Seq<char>| arg == "-name"@ || arg == "-iname"@
}

/// `-iname`, which makes capital and small letters equal.
pub open spec fn case_flags() -> spec_fn(Seq<char>) -> bool {
    |arg: Seq<char>| arg == "-iname"@
}

/// `-type`, which gives the kind of file.
pub open spec fn type_flags() -> spec_fn(Seq<char>) -> bool {
    |arg: Seq<char>| arg == "-type"@
}

/// `-maxdepth`, which gives the depth.
pub open spec fn depth_flags() -> spec_fn(Seq<char>) -> bool {
    |arg: Seq<char>| arg == "-maxdepth"@
}

/// `-m` and `--max`, which give the number of names in the short syntax.
pub open spec fn max_flags() -> spec_fn(Seq<char>) -> bool {
    |arg: Seq<char>| arg == "-m"@ || arg == "--max"@
}

/// `-t` and `--file-type`, which give the kind of file in the short syntax.
pub open spec fn short_type_flags() -> spec_fn(Seq<char>) -> bool {
    |arg: Seq<char>| arg == "-t"@ || arg == "--file-type"@
}

/// The flags that take a value in the short syntax.
pub open spec fn short_flags() -> spec_fn(Seq<char>) -> bool {
    |arg: Seq<char>| max_flags()(arg) || short_type_flags()(arg)
}

/// Whether argument `i` is looked at by itself, and not taken as the value of a flag
/// before it.
pub open spec fn is_read_at(
    takes_value: spec_fn(Seq<char>) -> bool,
    rest: Seq<Seq<char>>,
    i: int,
) -> bool
    decreases rest.len(),
{
    if i <= 0 || rest.len() == 0 {
        i == 0
    } else if takes_value(rest[0]) && rest.len() > 1 {
        is_read_at(takes_value, rest.skip(2), i - 2)
    } else {
        is_read_at(takes_value, rest.skip(1), i - 1)
    }
}

/// Whether argument `i` is one of `flags`, read as a flag, and followed by its value.
pub open spec fn has_value(
    takes_value: spec_fn(Seq<char>) -> bool,
    flags: spec_fn(Seq<char>) -> bool,
    rest: Seq<Seq<char>>,
    i: int,
) -> bool {
    0 <= i && i + 1 < rest.len() && is_read_at(takes_value, rest, i) && flags(rest[i])
}

/// Whether argument `i` is the last of `flags` that is followed by its value.
pub open spec fn is_last_value(
    takes_value: spec_fn(Seq<char>) -> bool,
    flags: spec_fn(Seq<char>) -> bool,
    rest: Seq<Seq<char>>,
    i: int,
) -> bool {
    &&& has_value(takes_value, flags, rest, i)
    &&& forall|j: int| i < j ==> !#[trigger] has_value(takes_value, flags, rest, j)
}

/// Whether none of `flags` is followed by its value.
pub open spec fn has_no_value(
    takes_value: spec_fn(Seq<char>) -> bool,
    flags: spec_fn(Seq<char>) -> bool,
    rest: Seq<Seq<char>>,
) -> bool {
    forall|i: int| !#[trigger] has_value(takes_value, flags, rest, i)
}

/// Whether one of `flags` is followed by a value that is no number.
pub open spec fn has_bad_number(
    takes_value: spec_fn(Seq<char>) -> bool,
    flags: spec_fn(Seq<char>) -> bool,
    rest: Seq<Seq<char>>,
) -> bool {
    exists|i: int| #[trigger]
        has_value(takes_value, flags, rest, i) && numbers::usize_text(rest[i + 1]) is None
}

/// How many arguments are read at once.
spec fn step(takes_value: spec_fn(Seq<char>) -> bool, rest: Seq<Seq<char>>) -> int {
    if takes_value(rest[0]) && rest.len() > 1 {
        2
    } else {
        1
    }
}

/// The value behind the last of `flags`.
spec fn last_value(
    takes_value: spec_fn(Seq<char>) -> bool,
    flags: spec_fn(Seq<char>) -> bool,
    rest: Seq<Seq<char>>,
) -> Option<Seq<char>>
    decreases rest.len(),
{
    if rest.len() == 0 {
        None
    } else {
        let later = last_value(takes_value, flags, rest.skip(step(takes_value, rest)));
        if later is Some {
            later
        } else if flags(rest[0]) && rest.len() > 1 {
            Some(rest[1])
        } else {
            None
        }
    }
}

/// What is read behind the first argument and its value is read in the rest.
proof fn lemma_has_value_later(
    takes_value: spec_fn(Seq<char>) -> bool,
    flags: spec_fn(Seq<char>) -> bool,
    rest: Seq<Seq<char>>,
    i: int,
)
    requires
        rest.len() > 0,
    ensures
        ({
            let n = step(takes_value, rest);
            &&& has_value(takes_value, flags, rest.skip(n), i) ==> has_value(
                takes_value,
                flags,
                rest,
                i + n,
            )
            &&& has_value(takes_value, flags, rest, i) && i != 0 ==> i >= n && has_value(
                takes_value,
                flags,
                rest.skip(n),
                i - n,
            )
            &&& has_value(takes_value, flags, rest, 0) <==> flags(rest[0]) && rest.len() > 1
        }),
{
    let n = step(takes_value, rest);
    if has_value(takes_value, flags, rest.skip(n), i) {
        assert(rest.skip(n)[i] == rest[i + n]);
        assert(is_read_at(takes_value, rest, i + n));
    }
    if has_value(takes_value, flags, rest, i) && i != 0 {
        assert(is_read_at(takes_value, rest.skip(n), i - n));
        assert(i >= n);
        assert(rest.skip(n)[i - n] == rest[i]);
    }
}

proof fn lemma_last_value(
    takes_value: spec_fn(Seq<char>) -> bool,
    flags: spec_fn(Seq<char>) -> bool,
    rest: Seq<Seq<char>>,
)
    ensures
        forall|i: int| #[trigger]
            is_last_value(takes_value, flags, rest, i) ==> last_value(takes_value, flags, rest)
                == Some(rest[i + 1]),
        has_no_value(takes_value, flags, rest) <==> last_value(takes_value, flags, rest) is None,
    decreases rest.len(),
{
    if rest.len() > 0 {
        let n = step(takes_value, rest);
        let later = rest.skip(n);
        lemma_last_value(takes_value, flags, later);
        lemma_has_value_later(takes_value, flags, rest, 0);
        assert forall|j: int| has_value(takes_value, flags, later, j) implies #[trigger] has_value(
            takes_value,
            flags,
            rest,
            j + n,
        ) by {
            lemma_has_value_later(takes_value, flags, rest, j);
        }
        if has_no_value(takes_value, flags, rest) {
            assert forall|j: int| !#[trigger] has_value(takes_value, flags, later, j) by {
                if has_value(takes_value, flags, later, j) {
                    assert(has_value(takes_value, flags, rest, j + n));
                }
            }
            assert(!has_value(takes_value, flags, rest, 0));
        } else {
            let i = choose|i: int| #[trigger] has_value(takes_value, flags, rest, i);
            lemma_has_value_later(takes_value, flags, rest, i);
            if i != 0 {
                assert(has_value(takes_value, flags, later, i - n));
            }
        }
        assert forall|i: int| #[trigger] is_last_value(takes_value, flags, rest, i) implies last_value(
            takes_value,
            flags,
            rest,
        ) == Some(rest[i + 1]) by {
            lemma_has_value_later(takes_value, flags, rest, i);
            assert forall|j: int| i - n < j implies !#[trigger] has_value(
                takes_value,
                flags,
                later,
                j,
            ) by {
                if has_value(takes_value, flags, later, j) {
                    assert(has_value(takes_value, flags, rest, j + n));
                }
            }
            if i == 0 {
                assert forall|j: int| !#[trigger] has_value(takes_value, flags, later, j) by {
                    if has_value(takes_value, flags, later, j) {
                        assert(has_value(takes_value, flags, rest, j + n));
                    }
                }
                assert(has_no_value(takes_value, flags, later));
            } else {
                assert(is_last_value(takes_value, flags, later, i - n));
                assert(later[i - n + 1] == rest[i + 1]);
            }
        }
    }
}

/// A number that cannot be read stands behind the first argument, or later.
proof fn lemma_bad_number(
    takes_value: spec_fn(Seq<char>) -> bool,
    flags: spec_fn(Seq<char>) -> bool,
    rest: Seq<Seq<char>>,
)
    requires
        rest.len() > 0,
    ensures
        has_bad_number(takes_value, flags, rest) == (flags(rest[0]) && rest.len() > 1
            && numbers::usize_text(rest[1]) is None || has_bad_number(
            takes_value,
            flags,
            rest.skip(step(takes_value, rest)),
        )),
{
    let n = step(takes_value, rest);
    let later = rest.skip(n);
    lemma_has_value_later(takes_value, flags, rest, 0);
    if has_bad_number(takes_value, flags, rest) {
        let i = choose|i: int| #[trigger]
            has_value(takes_value, flags, rest, i) && numbers::usize_text(rest[i + 1]) is None;
        lemma_has_value_later(takes_value, flags, rest, i);
        if i != 0 {
            assert(later[i - n + 1] == rest[i + 1]);
            assert(has_value(takes_value, flags, later, i - n));
        }
    }
    if has_bad_number(takes_value, flags, later) {
        let i = choose|i: int| #[trigger]
            has_value(takes_value, flags, later, i) && numbers::usize_text(later[i + 1]) is None;
        lemma_has_value_later(takes_value, flags, rest, i);
        assert(later[i + 1] == rest[i + n + 1]);
        assert(has_value(takes_value, flags, rest, i + n));
    }
    if flags(rest[0]) && rest.len() > 1 && numbers::usize_text(rest[1]) is None {
        assert(has_value(takes_value, flags, rest, 0));
    }
}

/// `value`, or `other` where there is none.
spec fn value_or(value: Option<Seq<char>>, other: Seq<char>) -> Seq<char> {
    match value {
        Some(v) => v,
        None => other,
    }
}

/// The flags of `find` are different.
proof fn lemma_native_flags_differ()
    ensures
        "-name"@ != "-type"@,
        "-name"@ != "-maxdepth"@,
        "-name"@ != "-iname"@,
        "-type"@ != "-maxdepth"@,
        "-type"@ != "-iname"@,
        "-maxdepth"@ != "-iname"@,
{
    reveal_strlit("-name");
    reveal_strlit("-type");
    reveal_strlit("-maxdepth");
    reveal_strlit("-iname");
    assert("-name"@[1] == 'n');
    assert("-type"@[1] == 't');
    assert("-maxdepth"@[1] == 'm');
    assert("-iname"@[1] == 'i');
}

proof fn lemma_native_scan_values(
    rest: Seq<Seq<char>>,
    found: FindArgsView,
    ignored: Seq<Seq<char>>,
)
    ensures
        ({
            let takes = native_flags();
            let result = native_scan(rest, found, ignored).result;
            &&& result is Err <==> has_bad_number(takes, depth_flags(), rest)
            &&& result is Err ==> result == Err::<FindArgsView, FindError>(
                FindError::InvalidMaxDepth,
            )
            &&& result matches Ok(a) ==> {
                let depth = last_value(takes, depth_flags(), rest);
                &&& a.pattern == value_or(last_value(takes, pattern_flags(), rest), found.pattern)
                &&& a.file_type == value_or(last_value(takes, type_flags(), rest), found.file_type)
                &&& a.max_depth == if depth is Some {
                    numbers::usize_text(depth->0)
                } else {
                    found.max_depth
                }
                &&& a.case_insensitive == (found.case_insensitive || last_value(
                    takes,
                    case_flags(),
                    rest,
                ) is Some)
            }
        }),
    decreases rest.len(),
{
    let takes = native_flags();
    if rest.len() == 0 {
        assert(!has_bad_number(takes, depth_flags(), rest));
    } else {
        lemma_native_flags(rest[0]);
        lemma_native_flags_differ();
        lemma_bad_number(takes, depth_flags(), rest);
        let n = step(takes, rest);
        let later = rest.skip(n);
        if !is_find_flag(rest[0]) {
            lemma_native_scan_values(
                later,
                found,
                if text::begins_with_char(rest[0], '-') {
                    ignored.push(rest[0])
                } else {
                    ignored
                },
            );
        } else if rest.len() == 1 {
            lemma_native_scan_values(later, found, ignored);
        } else if rest[0] == "-name"@ {
            lemma_native_scan_values(later, FindArgsView { pattern: rest[1], ..found }, ignored);
        } else if rest[0] == "-iname"@ {
            lemma_native_scan_values(
                later,
                FindArgsView { pattern: rest[1], case_insensitive: true, ..found },
                ignored,
            );
        } else if rest[0] == "-type"@ {
            lemma_native_scan_values(later, FindArgsView { file_type: rest[1], ..found }, ignored);
        } else if let Some(depth) = numbers::usize_text(rest[1]) {
            lemma_native_scan_values(
                later,
                FindArgsView { max_depth: Some(depth), ..found },
                ignored,
            );
        }
    }
}

/// The arguments in the syntax of `find` that stand behind the path.
pub open spec fn native_rest(args: Seq<Seq<char>>) -> Seq<Seq<char>> {
    if text::begins_with_char(args[0], '-') {
        args
    } else {
        args.skip(1)
    }
}

/// In the syntax of `find` the last value of each flag wins, a flag without a value has
/// no effect, and the arguments are refused exactly where `-maxdepth`, read as a flag,
/// is followed by a value that is no number.
pub proof fn the_last_native_value_wins(args: Seq<Seq<char>>)
    requires
        args.len() > 0,
        !holds_refused_flag(args),
        is_find_syntax(args),
    ensures
        ({
            let takes = native_flags();
            let rest = native_rest(args);
            &&& meaning(args) is Err <==> has_bad_number(takes, depth_flags(), rest)
            &&& meaning(args) is Err ==> meaning(args) == Err::<FindArgsView, FindError>(
                FindError::InvalidMaxDepth,
            )
            &&& meaning(args) matches Ok(a) ==> {
                &&& forall|i: int| #[trigger]
                    is_last_value(takes, pattern_flags(), rest, i) ==> a.pattern == rest[i + 1]
                &&& has_no_value(takes, pattern_flags(), rest) ==> a.pattern == "*"@
                &&& forall|i: int| #[trigger]
                    is_last_value(takes, type_flags(), rest, i) ==> a.file_type == rest[i + 1]
                &&& has_no_value(takes, type_flags(), rest) ==> a.file_type == "f"@
                &&& forall|i: int| #[trigger]
                    is_last_value(takes, depth_flags(), rest, i) ==> a.max_depth
                        == numbers::usize_text(rest[i + 1])
                &&& has_no_value(takes, depth_flags(), rest) ==> a.max_depth is None
                &&& a.case_insensitive <==> !has_no_value(takes, case_flags(), rest)
            }
        }),
{
    lemma_syntax(args);
    let takes = native_flags();
    let rest = native_rest(args);
    let found = if text::begins_with_char(args[0], '-') {
        default_args()
    } else {
        FindArgsView { path: args[0], ..default_args() }
    };
    lemma_native_scan_values(rest, found, seq![]);
    lemma_last_value(takes, pattern_flags(), rest);
    lemma_last_value(takes, type_flags(), rest);
    lemma_last_value(takes, depth_flags(), rest);
    lemma_last_value(takes, case_flags(), rest);
}

proof fn lemma_short_scan_values(rest: Seq<Seq<char>>, found: FindArgsView)
    ensures
        ({
            let takes = short_flags();
            let result = short_scan(rest, found);
            &&& result is Err <==> has_bad_number(takes, max_flags(), rest)
            &&& result is Err ==> result == Err::<FindArgsView, FindError>(FindError::InvalidMax)
            &&& result matches Ok(a) ==> {
                let max = last_value(takes, max_flags(), rest);
                &&& Some(a.max_results) == if max is Some {
                    numbers::usize_text(max->0)
                } else {
                    Some(found.max_results)
                }
                &&& a.file_type == value_or(
                    last_value(takes, short_type_flags(), rest),
                    found.file_type,
                )
            }
        }),
    decreases rest.len(),
{
    let takes = short_flags();
    if rest.len() == 0 {
        assert(!has_bad_number(takes, max_flags(), rest));
    } else {
        reveal_strlit("-m");
        reveal_strlit("--max");
        reveal_strlit("-t");
        reveal_strlit("--file-type");
        assert("-m"@[1] == 'm' && "-t"@[1] == 't' && "--max"@[2] == 'm' && "--file-type"@[2]
            == 'f' && "--max"@[1] == '-' && "--file-type"@[1] == '-');
        lemma_bad_number(takes, max_flags(), rest);
        let later = rest.skip(step(takes, rest));
        if rest.len() == 1 || !takes(rest[0]) {
            lemma_short_scan_values(later, found);
        } else if max_flags()(rest[0]) {
            if let Some(n) = numbers::usize_text(rest[1]) {
                lemma_short_scan_values(later, FindArgsView { max_results: n, ..found });
            }
        } else {
            lemma_short_scan_values(later, FindArgsView { file_type: rest[1], ..found });
        }
    }
}

/// The arguments in the short syntax that stand behind the pattern and the path.
pub open spec fn short_rest(args: Seq<Seq<char>>) -> Seq<Seq<char>> {
    if args.len() > 1 && !text::begins_with_char(args[1], '-') {
        args.skip(2)
    } else {
        args.skip(1)
    }
}

/// In the short syntax the last value of each flag wins, a flag without a value has no
/// effect, and the arguments are refused exactly where `-m` or `--max`, read as a flag,
/// is followed by a value that is no number.
pub proof fn the_last_short_value_wins(args: Seq<Seq<char>>)
    requires
        args.len() > 0,
        !holds_refused_flag(args),
        !is_find_syntax(args),
    ensures
        ({
            let takes = short_flags();
            let rest = short_rest(args);
            &&& meaning(args) is Err <==> has_bad_number(takes, max_flags(), rest)
            &&& meaning(args) is Err ==> meaning(args) == Err::<FindArgsView, FindError>(
                FindError::InvalidMax,
            )
            &&& meaning(args) matches Ok(a) ==> {
                &&& forall|i: int| #[trigger]
                    is_last_value(takes, max_flags(), rest, i) ==> numbers::usize_text(rest[i + 1])
                        == Some(a.max_results)
                &&& has_no_value(takes, max_flags(), rest) ==> a.max_results == 50
                &&& forall|i: int| #[trigger]
                    is_last_value(takes, short_type_flags(), rest, i) ==> a.file_type == rest[i + 1]
                &&& has_no_value(takes, short_type_flags(), rest) ==> a.file_type == "f"@
            }
        }),
{
    lemma_syntax(args);
    let takes = short_flags();
    let rest = short_rest(args);
    let found = FindArgsView { pattern: args[0], ..default_args() };
    if args.len() > 1 && !text::begins_with_char(args[1], '-') {
        lemma_short_scan_values(rest, FindArgsView { path: args[1], ..found });
    } else {
        lemma_short_scan_values(rest, found);
    }
    lemma_last_value(takes, max_flags(), rest);
    lemma_last_value(takes, short_type_flags(), rest);
}

} // verus!
