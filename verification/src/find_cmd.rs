//! A search for files: what is walked, what is skipped, what is collected, and the
//! report on it.
//!
//! The walk itself is made outside. It hands in each entry that it meets and is told
//! what to do next.

use vstd::prelude::*;
use vstd::utf8::*;

use crate::find_args;
use crate::find_args::{FindArgs, FindError};
use crate::glob;
use crate::listing;
use crate::listing::FoundFile;
use crate::paths;
use crate::text;

verus! {

// ---------------------------------------------------------------------------
// Directories that are not walked
// ---------------------------------------------------------------------------

/// Directories that are always skipped: large trees of dependencies and caches. One
/// name is skipped wherever it stands, a path of several at the root of the search.
pub const SKIP_DIRS: [&'static str; 34] = [
    "node_modules",
    ".cache",
    ".npm",
    ".yarn",
    ".pnpm-store",
    ".cargo/registry",
    ".cargo/git",
    ".rustup",
    "go/pkg",
    ".local/share",
    ".local/lib",
    "Library",
    ".Trash",
    ".docker",
    ".gradle",
    ".m2",
    ".venv",
    ".tox",
    ".nox",
    ".mypy_cache",
    ".pytest_cache",
    ".ruff_cache",
    "__pycache__",
    ".git/objects",
    ".bundle",
    "vendor/bundle",
    ".terraform",
    ".pulumi",
    ".next",
    ".nuxt",
    "dist",
    "build/intermediates",
    ".angular",
    ".svelte-kit",
];

/// Names of directories that are skipped wherever they stand.
pub const SKIP_NAMES: [&'static str; 29] = [
    "node_modules", ".cache", ".npm", ".yarn", ".pnpm-store", ".rustup",
    ".Trash", ".docker", ".gradle", ".m2", ".venv", ".tox", ".nox",
    ".mypy_cache", ".pytest_cache", ".ruff_cache", "__pycache__",
    ".bundle", ".terraform", ".pulumi", ".next", ".nuxt",
    ".angular", ".svelte-kit", "Library", "Applications",
    ".lima", ".orbstack", ".colima",
];

/// Whether `name` is one of the names that are skipped.
pub open spec fn is_skip_name(name: Seq<char>) -> bool {
    exists|k: int| 0 <= k < SKIP_NAMES@.len() && #[trigger] SKIP_NAMES@[k]@ == name
}

/// Whether `name` is a directory of one component that is always skipped.
pub open spec fn is_skip_dir_name(name: Seq<char>) -> bool {
    exists|k: int|
        0 <= k < SKIP_DIRS@.len() && #[trigger] SKIP_DIRS@[k]@ == name && !name.contains('/')
}

/// Whether the path `rel`, seen from the root of the search, begins with one of the
/// paths of several components that are always skipped.
pub open spec fn is_skip_place(rel: Seq<char>) -> bool {
    exists|k: int|
        0 <= k < SKIP_DIRS@.len() && (#[trigger] SKIP_DIRS@[k]@).contains('/')
            && SKIP_DIRS@[k]@.is_prefix_of(rel)
}

/// An entry that the walk has met. `name` is its last component, where it has one,
/// and `rel` its path seen from the root of the search, where it is below that.
#[derive(Debug)]
pub struct WalkEntry {
    pub path: String,
    pub name: Option<String>,
    pub rel: Option<String>,
    pub is_dir: bool,
}

/// Whether an entry is its path taken apart, in a search that starts at `root`.
pub open spec fn is_entry_below(entry: WalkEntry, root: Seq<char>) -> bool {
    &&& paths::portable(entry.path@) ==> text::opt_view(entry.name) == paths::file_name_of(
        paths::segments(entry.path@),
    )
    &&& paths::portable(entry.path@) && paths::portable(root) ==> text::opt_view(entry.rel)
        == paths::below(paths::segments(entry.path@), paths::segments(root))
}

/// The entry at a path, in a search that starts at `root`.
pub fn walk_entry(path: String, root: &str, is_dir: bool) -> (entry: WalkEntry)
    ensures
        entry.path == path,
        entry.is_dir == is_dir,
        is_entry_below(entry, root@),
{
    let name: Option<String> = paths::path_file_name(path.as_str());
    let rel: Option<String> = paths::path_strip_prefix(path.as_str(), root);
    WalkEntry { path, name, rel, is_dir }
}

/// Whether a directory that the walk has met is skipped, with all below it.
pub open spec fn is_skipped(entry: WalkEntry) -> bool {
    ||| entry.name matches Some(name) && (is_skip_name(name@) || is_skip_dir_name(name@))
    ||| entry.rel matches Some(rel) && is_skip_place(rel@)
}

fn named_to_skip(name: &str) -> (yes: bool)
    ensures
        yes == (is_skip_name(name@) || is_skip_dir_name(name@)),
{
    let mut k: usize = 0;
    while k < SKIP_NAMES.len()
        invariant
            k <= SKIP_NAMES@.len(),
            forall|j: int| 0 <= j < k ==> #[trigger] SKIP_NAMES@[j]@ != name@,
        decreases SKIP_NAMES@.len() - k,
    {
        if text::str_eq(SKIP_NAMES[k], name) {
            return true;
        }
        k += 1;
    }
    if text::contains_char(name, '/') {
        return false;
    }
    k = 0;
    while k < SKIP_DIRS.len()
        invariant
            k <= SKIP_DIRS@.len(),
            !name@.contains('/'),
            forall|j: int| 0 <= j < k ==> #[trigger] SKIP_DIRS@[j]@ != name@,
        decreases SKIP_DIRS@.len() - k,
    {
        if text::str_eq(SKIP_DIRS[k], name) {
            return true;
        }
        k += 1;
    }
    false
}

fn placed_to_skip(rel: &str) -> (yes: bool)
    ensures
        yes == is_skip_place(rel@),
{
    let mut k: usize = 0;
    while k < SKIP_DIRS.len()
        invariant
            k <= SKIP_DIRS@.len(),
            forall|j: int|
                0 <= j < k ==> !((#[trigger] SKIP_DIRS@[j]@).contains('/')
                    && SKIP_DIRS@[j]@.is_prefix_of(rel@)),
        decreases SKIP_DIRS@.len() - k,
    {
        if text::contains_char(SKIP_DIRS[k], '/') && text::starts_with(rel, SKIP_DIRS[k]) {
            return true;
        }
        k += 1;
    }
    false
}

/// Whether a directory that the walk has met is skipped, with all below it.
pub fn should_skip_dir(entry: &WalkEntry) -> (yes: bool)
    ensures
        yes == is_skipped(*entry),
{
    if let Some(name) = &entry.name {
        if named_to_skip(name.as_str()) {
            return true;
        }
    }
    if let Some(rel) = &entry.rel {
        if placed_to_skip(rel.as_str()) {
            return true;
        }
    }
    false
}

// ---------------------------------------------------------------------------
// The plan of a search
// ---------------------------------------------------------------------------

/// How far down a search goes that starts at a broad path and has no limit.
pub const BROAD_DEPTH_LIMIT: usize = 8;

/// How many components a path has at most that counts as broad.
pub const BROAD_COMPONENTS: usize = 3;

/// How many components a path counts as where they cannot be told.
pub const UNKNOWN_COMPONENTS: usize = 10;

/// How far down a search goes by itself that starts at a path with so many components.
pub open spec fn own_depth(components: nat) -> Option<usize> {
    if components <= BROAD_COMPONENTS {
        Some(BROAD_DEPTH_LIMIT)
    } else {
        None
    }
}

/// How far down a search goes: as far as it is told, and otherwise a few levels
/// below a broad path such as `/` or a home directory. `components` is the number
/// of components of the absolute path, or `None` where that cannot be told.
pub fn cap_depth(explicit_depth: Option<usize>, components: Option<usize>) -> (depth: Option<usize>)
    ensures
        depth == match (explicit_depth, components) {
            (Some(_), _) => explicit_depth,
            (None, Some(n)) => own_depth(n as nat),
            (None, None) => None,
        },
{
    if explicit_depth.is_some() {
        return explicit_depth;
    }
    let depth: usize = match components {
        Some(n) => n,
        None => UNKNOWN_COMPONENTS,
    };
    if depth <= BROAD_COMPONENTS {
        Some(BROAD_DEPTH_LIMIT)
    } else {
        None
    }
}

/// How far down a search goes that starts at `path`, where `cwd` is the directory that
/// relative paths start from, if it is known. Where it is not, whether a path that
/// begins with a slash can be counted depends on the platform.
pub fn auto_max_depth(path: &str, cwd: &Option<String>, explicit_depth: Option<usize>) -> (depth:
    Option<usize>)
    ensures
        explicit_depth is Some ==> depth == explicit_depth,
        explicit_depth is None ==> depth is None || depth == Some(BROAD_DEPTH_LIMIT),
        explicit_depth is None && cwd is Some && cwd->0@.len() > 0 && paths::portable(cwd->0@)
            && paths::portable(path@) ==> depth == own_depth(
            paths::joined_total(paths::segments(cwd->0@), paths::segments(path@)),
        ),
        explicit_depth is None && cwd is None && paths::portable(path@) ==> depth is None || (
        paths::lead(paths::segments(path@)) is Root && depth == own_depth(
            paths::component_total(paths::segments(path@)),
        )),
{
    let components: Option<usize> = if paths::is_absolute(path) {
        Some(paths::component_count(path))
    } else {
        match cwd {
            Some(base) => Some(paths::joined_component_count(base.as_str(), path)),
            None => None,
        }
    };
    cap_depth(explicit_depth, components)
}

/// How many times more files are collected than names are shown.
pub const COLLECT_FACTOR: usize = 4;

/// All that a search is made with.
#[derive(Debug)]
pub struct FindQuery {
    /// Where the search starts.
    pub path: String,
    /// The pattern that names are matched against.
    pub pattern: String,
    /// The pattern in small letters, where capital and small letters are equal.
    pub pattern_lower: Option<String>,
    /// Whether directories are looked for, and not files.
    pub want_dirs: bool,
    /// Whether hidden entries are walked.
    pub search_hidden: bool,
    /// How far down the search was told to go.
    pub max_depth: Option<usize>,
    /// How many names are shown.
    pub max_results: usize,
    /// How many files end the walk.
    pub collect_limit: usize,
    /// What is told about the search beforehand.
    pub announcement: Option<String>,
}

/// The pattern that a search matches with: `.` stands for every name.
pub open spec fn effective_pattern(pattern: Seq<char>) -> Seq<char> {
    if pattern == "."@ {
        "*"@
    } else {
        pattern
    }
}

/// Whether `q` is the plan of the search that `a` asks for.
pub open spec fn is_plan(q: FindQuery, a: find_args::FindArgsView, verbose: u8) -> bool {
    let pattern = effective_pattern(a.pattern);
    &&& q.path@ == a.path
    &&& q.pattern@ == pattern
    &&& text::opt_view(q.pattern_lower) == if a.case_insensitive {
        Some(text::lowercase(pattern))
    } else {
        None
    }
    &&& q.want_dirs == (a.file_type == "d"@)
    &&& q.search_hidden == text::begins_with_char(pattern, '.')
    &&& q.max_depth == a.max_depth
    &&& q.max_results == a.max_results
    &&& q.collect_limit == a.max_results * COLLECT_FACTOR
    &&& text::opt_view(q.announcement) == if verbose > 0 {
        Some("find: "@ + pattern + " in "@ + a.path)
    } else {
        None
    }
}

/// Plans a search.
pub fn plan_search(args: &FindArgs, verbose: u8) -> (query: FindQuery)
    requires
        args.max_results * COLLECT_FACTOR <= usize::MAX,
    ensures
        is_plan(query, args@, verbose),
        args.case_insensitive && is_ascii_chars(effective_pattern(args.pattern@)) ==> text::opt_view(
            query.pattern_lower,
        ) == Some(ascii_small(effective_pattern(args.pattern@))),
{
    let pattern: String = if text::str_eq(args.pattern.as_str(), ".") {
        "*".to_owned()
    } else {
        args.pattern.clone()
    };
    let pattern_lower: Option<String> = if args.case_insensitive {
        Some(pattern.as_str().to_lowercase())
    } else {
        None
    };
    let announcement: Option<String> = if verbose > 0 {
        let mut told: String = "find: ".to_owned();
        told.append(pattern.as_str());
        told.append(" in ");
        told.append(args.path.as_str());
        Some(told)
    } else {
        None
    };
    let search_hidden: bool = text::starts_with_char(pattern.as_str(), '.');
    FindQuery {
        path: args.path.clone(),
        pattern,
        pattern_lower,
        want_dirs: text::str_eq(args.file_type.as_str(), "d"),
        search_hidden,
        max_depth: args.max_depth,
        max_results: args.max_results,
        collect_limit: args.max_results * COLLECT_FACTOR,
        announcement,
    }
}

/// Whether the walk of a search can be limited: the number of files that end it is a
/// number that the machine has.
pub open spec fn limit_fits(args: Seq<Seq<char>>) -> bool {
    find_args::meaning(args) matches Ok(a) ==> a.max_results * COLLECT_FACTOR <= usize::MAX
}

/// Whether the walk of a search can be limited.
pub fn does_limit_fit(args: &[String]) -> (yes: bool)
    ensures
        yes == limit_fits(text::views(args@)),
{
    match find_args::parse_find_args(args) {
        Ok(parsed) => parsed.max_results <= usize::MAX / COLLECT_FACTOR,
        Err(_) => true,
    }
}

/// Reads the arguments of a search and plans it.
pub fn run_from_args(args: &[String], verbose: u8) -> (query: Result<FindQuery, FindError>)
    requires
        limit_fits(text::views(args@)),
    ensures
        match find_args::meaning(text::views(args@)) {
            Ok(a) => query matches Ok(q) && is_plan(q, a, verbose),
            Err(e) => query == Err::<FindQuery, FindError>(e),
        },
{
    match find_args::parse_find_args(args) {
        Ok(parsed) => Ok(plan_search(&parsed, verbose)),
        Err(e) => Err(e),
    }
}

// ---------------------------------------------------------------------------
// The walk
// ---------------------------------------------------------------------------

/// `s` with each of `A` to `Z` replaced by its small letter.
pub open spec fn ascii_small(s: Seq<char>) -> Seq<char> {
    s.map_values(|c: char| text::ascii_lower(c))
}

/// Whether an entry is what the search looks for: of the wanted kind, with a name
/// that matches the pattern.
pub open spec fn entry_matches(
    entry: WalkEntry,
    want_dirs: bool,
    pattern: Seq<char>,
    pattern_lower: Option<Seq<char>>,
) -> bool {
    &&& entry.is_dir == want_dirs
    &&& entry.name matches Some(name) && match pattern_lower {
        Some(lower) => glob::glob_matches(encode_utf8(lower), encode_utf8(text::lowercase(name@))),
        None => glob::glob_matches(encode_utf8(pattern), encode_utf8(name@)),
    }
}

/// Whether an entry is what the search looks for. Where capital and small letters are
/// equal, a name of ASCII characters is matched as if it had small letters only.
pub fn matches_entry(
    entry: &WalkEntry,
    want_dirs: bool,
    pattern: &str,
    pattern_lower: &Option<String>,
) -> (yes: bool)
    ensures
        yes == entry_matches(*entry, want_dirs, pattern@, text::opt_view(*pattern_lower)),
        entry.is_dir != want_dirs || entry.name is None ==> !yes,
        entry.name is Some && pattern_lower is None ==> yes == (entry.is_dir == want_dirs
            && glob::glob_matches(encode_utf8(pattern@), encode_utf8(entry.name->0@))),
        entry.name is Some && pattern_lower is Some ==> yes == (entry.is_dir == want_dirs
            && glob::glob_matches(
            encode_utf8(pattern_lower->0@),
            encode_utf8(text::lowercase(entry.name->0@)),
        )),
        entry.name is Some && pattern_lower is Some && is_ascii_chars(entry.name->0@) ==> yes == (
        entry.is_dir == want_dirs && glob::glob_matches(
            encode_utf8(pattern_lower->0@),
            encode_utf8(ascii_small(entry.name->0@)),
        )),
{
    if want_dirs != entry.is_dir {
        return false;
    }
    match &entry.name {
        Some(name) => match pattern_lower {
            Some(lower) => {
                let small: String = name.as_str().to_lowercase();
                glob::glob_match(lower.as_str(), small.as_str())
            },
            None => glob::glob_match(pattern, name.as_str()),
        },
        None => false,
    }
}

/// The path of an entry as it is shown: seen from the root of the search, or whole
/// where it is not below that.
pub open spec fn shown_path(entry: WalkEntry) -> Seq<char> {
    match entry.rel {
        Some(rel) => rel@,
        None => entry.path@,
    }
}

/// The path of an entry as it is shown.
pub fn rel_display(entry: &WalkEntry) -> (shown: String)
    ensures
        shown@ == shown_path(*entry),
{
    match &entry.rel {
        Some(rel) => rel.clone(),
        None => entry.path.clone(),
    }
}

/// What the walk does next.
#[derive(Debug, Clone, Copy, PartialEq, Eq, Structural)]
pub enum WalkStep {
    /// Ends.
    Quit,
    /// Goes on, but not into this directory.
    Skip,
    /// Goes on.
    Continue,
}

/// What becomes of an entry.
pub enum Verdict {
    /// The directory is skipped.
    Skip,
    /// The entry is passed by.
    Pass,
    /// The entry is collected, with its path as it is shown.
    Take(Seq<char>),
}

/// What becomes of an entry. The root of the search, whose path seen from itself is
/// empty, is not collected.
pub open spec fn verdict(query: FindQuery, entry: WalkEntry) -> Verdict {
    if entry.is_dir && is_skipped(entry) {
        Verdict::Skip
    } else if entry_matches(
        entry,
        query.want_dirs,
        query.pattern@,
        text::opt_view(query.pattern_lower),
    ) && shown_path(entry).len() > 0 {
        Verdict::Take(shown_path(entry))
    } else {
        Verdict::Pass
    }
}

/// The files that a walk has collected, until there are enough of them.
#[derive(Debug)]
pub struct Collector {
    pub files: Vec<String>,
    pub limit: usize,
    pub done: bool,
}

/// How many files a walk collects at most: the first file always counts.
pub open spec fn capacity(limit: usize) -> nat {
    if limit == 0 {
        1
    } else {
        limit as nat
    }
}

impl Collector {
    /// The walk ends when, and only when, as many files as it may are collected.
    pub open spec fn wf(self) -> bool {
        &&& self.files@.len() <= capacity(self.limit)
        &&& self.done == (self.files@.len() == capacity(self.limit))
    }

    /// The paths that are collected.
    pub open spec fn paths(self) -> Seq<Seq<char>> {
        text::views(self.files@)
    }

    /// Nothing collected yet.
    pub fn new(limit: usize) -> (collector: Collector)
        ensures
            collector.wf(),
            collector.limit == limit,
            collector.paths() == Seq::<Seq<char>>::empty(),
    {
        let collector: Collector = Collector { files: Vec::new(), limit, done: false };
        assert(collector.paths() =~= Seq::<Seq<char>>::empty());
        collector
    }

    /// Takes in an entry, or `None` for one that could not be read, and says what
    /// the walk does next.
    pub fn step(&mut self, query: &FindQuery, entry: Option<&WalkEntry>) -> (next: WalkStep)
        requires
            old(self).wf(),
        ensures
            final(self).wf(),
            final(self).limit == old(self).limit,
            final(self).paths() == match entry {
                Some(e) if !old(self).done => match verdict(*query, *e) {
                    Verdict::Take(path) => old(self).paths().push(path),
                    _ => old(self).paths(),
                },
                _ => old(self).paths(),
            },
            !old(self).done && entry is Some && query.pattern_lower is None ==> (
            final(self).files@.len() == old(self).files@.len() + 1) == (!(entry->0.is_dir
                && is_skipped(*entry->0)) && entry->0.is_dir == query.want_dirs
                && entry->0.name is Some && glob::glob_matches(
                encode_utf8(query.pattern@),
                encode_utf8(entry->0.name->0@),
            ) && shown_path(*entry->0).len() > 0),
            !old(self).done && entry is Some && query.pattern_lower is Some ==> (
            final(self).files@.len() == old(self).files@.len() + 1) == (!(entry->0.is_dir
                && is_skipped(*entry->0)) && entry->0.is_dir == query.want_dirs
                && entry->0.name is Some && glob::glob_matches(
                encode_utf8(query.pattern_lower->0@),
                encode_utf8(text::lowercase(entry->0.name->0@)),
            ) && shown_path(*entry->0).len() > 0),
            next == if old(self).done {
                WalkStep::Quit
            } else if entry matches Some(e) && verdict(*query, *e) is Skip {
                WalkStep::Skip
            } else if final(self).done {
                WalkStep::Quit
            } else {
                WalkStep::Continue
            },
    {
        if self.done {
            return WalkStep::Quit;
        }
        let e: &WalkEntry = match entry {
            Some(e) => e,
            None => return WalkStep::Continue,
        };
        if e.is_dir && should_skip_dir(e) {
            return WalkStep::Skip;
        }
        if !matches_entry(e, query.want_dirs, query.pattern.as_str(), &query.pattern_lower) {
            return WalkStep::Continue;
        }
        let shown: String = rel_display(e);
        if shown.as_str().is_empty() {
            return WalkStep::Continue;
        }
        assert(text::views(self.files@.push(shown)) =~= self.paths().push(shown@));
        self.files.push(shown);
        if self.files.len() >= self.limit {
            self.done = true;
            return WalkStep::Quit;
        }
        WalkStep::Continue
    }
}

/// The paths that a walk over `entries` has collected.
pub open spec fn collected(query: FindQuery, entries: Seq<Option<WalkEntry>>, limit: usize) -> Seq<
    Seq<char>,
>
    decreases entries.len(),
{
    if entries.len() == 0 {
        seq![]
    } else {
        let before = collected(query, entries.drop_last(), limit);
        match entries.last() {
            Some(e) if before.len() < capacity(limit) => match verdict(query, e) {
                Verdict::Take(path) => before.push(path),
                _ => before,
            },
            _ => before,
        }
    }
}

/// The paths of all entries that are what the search looks for.
pub open spec fn wanted(query: FindQuery, entries: Seq<Option<WalkEntry>>) -> Seq<Seq<char>>
    decreases entries.len(),
{
    if entries.len() == 0 {
        seq![]
    } else {
        let before = wanted(query, entries.drop_last());
        match entries.last() {
            Some(e) => match verdict(query, e) {
                Verdict::Take(path) => before.push(path),
                _ => before,
            },
            None => before,
        }
    }
}

/// Takes in the entries of a walk one after the other.
pub fn collect_all(query: &FindQuery, entries: &Vec<Option<WalkEntry>>, limit: usize) -> (collector:
    Collector)
    ensures
        collector.wf(),
        collector.limit == limit,
        collector.paths() == collected(*query, entries@, limit),
{
    let mut collector: Collector = Collector::new(limit);
    let mut i: usize = 0;
    assert(entries@.take(0) =~= seq![]);
    while i < entries.len()
        invariant
            i <= entries@.len(),
            collector.wf(),
            collector.limit == limit,
            collector.paths() == collected(*query, entries@.take(i as int), limit),
        decreases entries@.len() - i,
    {
        assert(entries@.take(i + 1).drop_last() =~= entries@.take(i as int));
        assert(collector.paths().len() == collector.files@.len());
        let entry: Option<&WalkEntry> = entries[i].as_ref();
        let _ = collector.step(query, entry);
        i += 1;
    }
    assert(entries@.take(entries@.len() as int) =~= entries@);
    collector
}

/// A walk collects the first of the entries that the search looks for, as many as it
/// may, and all of them where they are fewer.
pub proof fn walk_collects_the_first_matches(
    query: FindQuery,
    entries: Seq<Option<WalkEntry>>,
    limit: usize,
)
    ensures
        collected(query, entries, limit) == if wanted(query, entries).len() <= capacity(limit) {
            wanted(query, entries)
        } else {
            wanted(query, entries).take(capacity(limit) as int)
        },
    decreases entries.len(),
{
    if entries.len() > 0 {
        walk_collects_the_first_matches(query, entries.drop_last(), limit);
        let before = wanted(query, entries.drop_last());
        let now = wanted(query, entries);
        let cap = capacity(limit) as int;
        if before.len() >= cap {
            assert(before.take(cap) =~= now.take(cap));
            assert(now.len() == cap ==> now.take(cap) =~= now);
            assert(before.len() == cap ==> before.take(cap) =~= before);
        }
    }
}

// ---------------------------------------------------------------------------
// The report
// ---------------------------------------------------------------------------

/// The paths of files.
pub open spec fn paths_of(files: Seq<FoundFile>) -> Seq<Seq<char>> {
    Seq::new(files.len(), |k: int| files[k].path@)
}

/// Whether `files` are the files with the paths `found`, in the order of their
/// paths, each path taken apart.
pub open spec fn are_files(files: Seq<FoundFile>, found: Seq<Seq<char>>) -> bool {
    &&& listing::is_sorted(paths_of(files))
    &&& paths_of(files).to_multiset() == found.to_multiset()
    &&& forall|k: int| 0 <= k < files.len() ==> paths::is_split(#[trigger] files[k])
}

/// Whether `out` is what is printed of a search that found the paths `found`: the report
/// on them, or nothing where the name of a directory would have to be cut inside a
/// character.
pub open spec fn is_printed(
    out: Option<Seq<char>>,
    found: Seq<Seq<char>>,
    pattern: Seq<char>,
    max_results: usize,
) -> bool {
    exists|files: Seq<FoundFile>|
        #![trigger listing::items_of(files)]
        {
            let items = listing::items_of(files);
            &&& are_files(files, found)
            &&& (out is Some) == listing::report_fits(items, max_results as nat)
            &&& out is Some ==> listing::is_report(out->0, items, pattern, max_results as nat)
        }
}

/// The report on the files with the paths `found`: what is printed of a search.
/// `None` where the name of a directory would have to be cut inside a character.
pub fn report_on(found: Vec<String>, pattern: &str, max_results: usize) -> (out: Option<String>)
    ensures
        is_printed(text::opt_view(out), text::views(found@), pattern@, max_results),
{
    let mut sorted: Vec<String> = found;
    listing::sort_strings(&mut sorted);
    let mut files: Vec<FoundFile> = Vec::new();
    let mut k: usize = 0;
    while k < sorted.len()
        invariant
            k <= sorted@.len(),
            files@.len() == k,
            paths_of(files@) == text::views(sorted@).take(k as int),
            forall|j: int| 0 <= j < k ==> paths::is_split(#[trigger] files@[j]),
        decreases sorted@.len() - k,
    {
        let file: FoundFile = paths::split_path(sorted[k].clone());
        proof {
            assert(paths_of(files@.push(file)) =~= paths_of(files@).push(file.path@));
            assert(text::views(sorted@).take(k + 1) =~= text::views(sorted@).take(k as int).push(
                sorted@[k as int]@,
            ));
        }
        files.push(file);
        k += 1;
    }
    proof {
        assert(text::views(sorted@).take(sorted@.len() as int) =~= text::views(sorted@));
        assert(are_files(files@, text::views(found@)));
    }
    let out: Option<String> = listing::try_find_report(&files, pattern, max_results);
    assert(listing::items_of(files@).len() == files@.len());
    out
}

/// What is printed of a search whose walk meets `entries`.
pub fn print_search(query: &FindQuery, entries: &Vec<Option<WalkEntry>>) -> (out: Option<String>)
    ensures
        is_printed(
            text::opt_view(out),
            collected(*query, entries@, query.collect_limit),
            query.pattern@,
            query.max_results,
        ),
{
    let collector: Collector = collect_all(query, entries, query.collect_limit);
    report_on(collector.files, query.pattern.as_str(), query.max_results)
}

// ---------------------------------------------------------------------------
// Laws
// ---------------------------------------------------------------------------

/// The pattern `.` stands for every name.
pub proof fn dot_matches_every_name(name: Seq<char>)
    ensures
        glob::glob_matches(encode_utf8(effective_pattern("."@)), encode_utf8(name)),
{
    reveal_strlit("*");
    is_ascii_chars_encode_utf8("*"@);
    assert(encode_utf8("*"@) =~= seq![glob::STAR]);
    glob::star_matches_every_name(encode_utf8(name));
}

/// Hidden entries are walked for a pattern that begins with a point, unless it is
/// the point alone.
pub proof fn hidden_entries_are_for_dotfile_patterns(
    q: FindQuery,
    a: find_args::FindArgsView,
    verbose: u8,
)
    requires
        is_plan(q, a, verbose),
    ensures
        q.search_hidden == (text::begins_with_char(a.pattern, '.') && a.pattern != "."@),
{
    reveal_strlit("*");
}

/// A directory whose name is on a list of directories to skip is skipped wherever it
/// stands, unless the list gives it as a path of several components.
pub proof fn listed_names_are_skipped(entry: WalkEntry, k: int)
    requires
        entry.name is Some,
        ({
            ||| 0 <= k < SKIP_NAMES@.len() && entry.name->0@ == SKIP_NAMES@[k]@
            ||| 0 <= k < SKIP_DIRS@.len() && entry.name->0@ == SKIP_DIRS@[k]@
                && !SKIP_DIRS@[k]@.contains('/')
        }),
    ensures
        is_skipped(entry),
{
}

/// An entry below the root of the search is shown without the components of that, and
/// matched by its last component.
pub proof fn entries_are_shown_from_the_root(
    entry: WalkEntry,
    root: Seq<char>,
    rest: Seq<Seq<char>>,
)
    requires
        is_entry_below(entry, root),
        root.len() > 0,
        paths::portable(root),
        paths::portable(entry.path@),
        rest.len() > 0,
        forall|k: int|
            0 <= k < rest.len() ==> paths::is_solid(#[trigger] rest[k]) && !rest[k].contains('/')
                && rest[k] != ".."@,
        paths::is_path_below(entry.path@, root, rest),
    ensures
        shown_path(entry) == text::joined(rest, "/"@),
        text::opt_view(entry.name) == Some(rest.last()),
{
    paths::paths_below_a_root(entry.path@, root, rest);
}

/// Where an entry begins with the components of the root of the search, these followed
/// by those of what is shown are the components of the entry, and nothing is shown
/// exactly where the entry is the root. Every other entry is shown unchanged.
pub proof fn what_is_shown_leads_to_the_entry(entry: WalkEntry, root: Seq<char>)
    requires
        is_entry_below(entry, root),
        paths::portable(root),
        paths::portable(entry.path@),
    ensures
        ({
            let path = paths::segments(entry.path@);
            let top = paths::segments(root);
            let shown = paths::segments(shown_path(entry));
            if paths::starts_with_root(path, top) {
                &&& paths::solids(path) == paths::solids(top) + paths::solids(shown)
                &&& paths::lead(path) == if root.len() == 0 {
                    paths::lead(shown)
                } else {
                    paths::lead(top)
                }
                &&& shown_path(entry).len() == 0 <==> paths::lead(path) == paths::lead(top)
                    && paths::solids(path) == paths::solids(top)
            } else {
                shown_path(entry) == entry.path@
            }
        }),
{
    if paths::starts_with_root(paths::segments(entry.path@), paths::segments(root)) {
        paths::root_and_rest_make_the_path(entry.path@, root);
    }
}

/// Portable paths determine what the report reads of the files.
pub proof fn portable_paths_determine_the_items(
    a: Seq<FoundFile>,
    b: Seq<FoundFile>,
    found: Seq<Seq<char>>,
)
    requires
        are_files(a, found),
        are_files(b, found),
        forall|k: int| 0 <= k < found.len() ==> paths::portable(#[trigger] found[k]),
    ensures
        listing::items_of(a) == listing::items_of(b),
{
    let pa = paths_of(a);
    listing::ascending_order_is_unique(pa, paths_of(b));
    assert(a.len() == pa.len() && b.len() == paths_of(b).len());
    assert forall|k: int| 0 <= k < a.len() implies listing::item_of(a[k]) == listing::item_of(
        b[k],
    ) by {
        assert(pa[k] == paths_of(b)[k]);
        lemma_found(a, found, k);
        assert(paths::is_split(a[k]) && paths::is_split(b[k]));
    }
    assert(listing::items_of(a) =~= listing::items_of(b));
}

proof fn lemma_found(files: Seq<FoundFile>, found: Seq<Seq<char>>, k: int)
    requires
        are_files(files, found),
        0 <= k < files.len(),
    ensures
        found.contains(files[k].path@),
{
    let all = paths_of(files);
    vstd::seq_lib::to_multiset_contains(all, all[k]);
    vstd::seq_lib::to_multiset_contains(found, all[k]);
    assert(all.contains(all[k]));
}

/// A report comes out whatever is found, as long as the paths are portable and made of
/// ASCII characters.
pub proof fn ascii_paths_always_give_a_report(
    files: Seq<FoundFile>,
    found: Seq<Seq<char>>,
    max_results: usize,
)
    requires
        are_files(files, found),
        forall|k: int|
            0 <= k < found.len() ==> paths::portable(#[trigger] found[k]) && is_ascii_chars(
                found[k],
            ),
    ensures
        listing::report_fits(listing::items_of(files), max_results as nat),
{
    let items = listing::items_of(files);
    assert forall|k: int| 0 <= k < items.len() implies is_ascii_chars(
        (#[trigger] items[k]).dir,
    ) by {
        lemma_found(files, found, k);
        assert(paths::is_split(files[k]));
        paths::parents_of_ascii_paths(files[k].path@);
        reveal_strlit(".");
    }
    listing::ascii_directories_can_be_shown(items, max_results as nat);
}

/// Whether two plans are for the same search.
pub open spec fn same_search(a: FindQuery, b: FindQuery) -> bool {
    &&& a.path@ == b.path@
    &&& a.pattern@ == b.pattern@
    &&& text::opt_view(a.pattern_lower) == text::opt_view(b.pattern_lower)
    &&& a.want_dirs == b.want_dirs
    &&& a.search_hidden == b.search_hidden
    &&& a.max_depth == b.max_depth
    &&& a.max_results == b.max_results
    &&& a.collect_limit == b.collect_limit
}

/// Two plans for the same search collect the same on every walk.
pub proof fn same_searches_collect_the_same(
    a: FindQuery,
    b: FindQuery,
    entries: Seq<Option<WalkEntry>>,
)
    requires
        same_search(a, b),
    ensures
        collected(a, entries, a.collect_limit) == collected(b, entries, b.collect_limit),
    decreases entries.len(),
{
    if entries.len() > 0 {
        same_searches_collect_the_same(a, b, entries.drop_last());
    }
}

/// What is printed is determined by what was found, where the paths are portable.
pub proof fn what_is_found_decides_what_is_printed(
    a: Option<Seq<char>>,
    b: Option<Seq<char>>,
    found: Seq<Seq<char>>,
    pattern: Seq<char>,
    max_results: usize,
)
    requires
        is_printed(a, found, pattern, max_results),
        is_printed(b, found, pattern, max_results),
        forall|k: int| 0 <= k < found.len() ==> paths::portable(#[trigger] found[k]),
    ensures
        a == b,
{
    let printed = |out: Option<Seq<char>>, files: Seq<FoundFile>|
        {
            let items = listing::items_of(files);
            &&& are_files(files, found)
            &&& (out is Some) == listing::report_fits(items, max_results as nat)
            &&& out is Some ==> listing::is_report(out->0, items, pattern, max_results as nat)
        };
    let x = choose|files: Seq<FoundFile>|
        #![trigger listing::items_of(files)]
        printed(a, files);
    let y = choose|files: Seq<FoundFile>|
        #![trigger listing::items_of(files)]
        printed(b, files);
    portable_paths_determine_the_items(x, y, found);
    if a is Some {
        listing::report_is_unique(
            a->0,
            b->0,
            listing::items_of(x),
            pattern,
            max_results as nat,
        );
    }
}

/// Two plans for the same search print the same on every walk, where the paths that are
/// collected are portable.
pub proof fn same_searches_print_the_same(
    a: FindQuery,
    b: FindQuery,
    entries: Seq<Option<WalkEntry>>,
    out_a: Option<Seq<char>>,
    out_b: Option<Seq<char>>,
)
    requires
        same_search(a, b),
        is_printed(out_a, collected(a, entries, a.collect_limit), a.pattern@, a.max_results),
        is_printed(out_b, collected(b, entries, b.collect_limit), b.pattern@, b.max_results),
        forall|k: int|
            0 <= k < collected(a, entries, a.collect_limit).len() ==> paths::portable(
                #[trigger] collected(a, entries, a.collect_limit)[k],
            ),
    ensures
        out_a == out_b,
{
    same_searches_collect_the_same(a, b, entries);
    what_is_found_decides_what_is_printed(
        out_a,
        out_b,
        collected(a, entries, a.collect_limit),
        a.pattern@,
        a.max_results,
    );
}

/// The pattern `.` finds what `*` finds: the same walk, without hidden entries, is made
/// for both, the same is collected on it, and under the same pattern it is reported.
pub proof fn dot_finds_what_star_finds(
    dot: FindQuery,
    star: FindQuery,
    args: find_args::FindArgsView,
    dot_verbose: u8,
    star_verbose: u8,
    entries: Seq<Option<WalkEntry>>,
)
    requires
        is_plan(dot, find_args::FindArgsView { pattern: "."@, ..args }, dot_verbose),
        is_plan(star, find_args::FindArgsView { pattern: "*"@, ..args }, star_verbose),
    ensures
        same_search(dot, star),
        !dot.search_hidden,
        collected(dot, entries, dot.collect_limit) == collected(star, entries, star.collect_limit),
{
    reveal_strlit(".");
    reveal_strlit("*");
    same_searches_collect_the_same(dot, star, entries);
}

/// The arguments alone decide what is searched and collected: two plans for arguments
/// with the same meaning, told about or not, are for the same search.
pub proof fn arguments_decide_the_search(
    a: FindQuery,
    b: FindQuery,
    args: find_args::FindArgsView,
    verbose_a: u8,
    verbose_b: u8,
    entries: Seq<Option<WalkEntry>>,
)
    requires
        is_plan(a, args, verbose_a),
        is_plan(b, args, verbose_b),
    ensures
        same_search(a, b),
        collected(a, entries, a.collect_limit) == collected(b, entries, b.collect_limit),
{
    same_searches_collect_the_same(a, b, entries);
}

/// The names of directories that hold dependencies, caches or what was built.
pub open spec fn is_dependency_name(name: Seq<char>) -> bool {
    ||| name == "node_modules"@
    ||| name == ".cache"@
    ||| name == ".npm"@
    ||| name == ".yarn"@
    ||| name == ".pnpm-store"@
    ||| name == ".rustup"@
    ||| name == ".Trash"@
    ||| name == ".docker"@
    ||| name == ".gradle"@
    ||| name == ".m2"@
    ||| name == ".venv"@
    ||| name == ".tox"@
    ||| name == ".nox"@
    ||| name == ".mypy_cache"@
    ||| name == ".pytest_cache"@
    ||| name == ".ruff_cache"@
    ||| name == "__pycache__"@
    ||| name == ".bundle"@
    ||| name == ".terraform"@
    ||| name == ".pulumi"@
    ||| name == ".next"@
    ||| name == ".nuxt"@
    ||| name == ".angular"@
    ||| name == ".svelte-kit"@
    ||| name == "Library"@
    ||| name == "Applications"@
    ||| name == ".lima"@
    ||| name == ".orbstack"@
    ||| name == ".colima"@
    ||| name == "dist"@
}

/// The places below the root of a search that hold dependencies, caches or what was
/// built.
pub open spec fn is_dependency_place(rel: Seq<char>) -> bool {
    ||| ".cargo/registry"@.is_prefix_of(rel)
    ||| ".cargo/git"@.is_prefix_of(rel)
    ||| "go/pkg"@.is_prefix_of(rel)
    ||| ".local/share"@.is_prefix_of(rel)
    ||| ".local/lib"@.is_prefix_of(rel)
    ||| ".git/objects"@.is_prefix_of(rel)
    ||| "vendor/bundle"@.is_prefix_of(rel)
    ||| "build/intermediates"@.is_prefix_of(rel)
}

proof fn lemma_skip_name(name: Seq<char>)
    ensures
        is_skip_name(name) || is_skip_dir_name(name) ==> is_dependency_name(name),
        is_dependency_name(name) ==> is_skip_name(name) || is_skip_dir_name(name),
{
    assert(SKIP_NAMES@[0]@ == "node_modules"@);
    assert(SKIP_NAMES@[1]@ == ".cache"@);
    assert(SKIP_NAMES@[2]@ == ".npm"@);
    assert(SKIP_NAMES@[3]@ == ".yarn"@);
    assert(SKIP_NAMES@[4]@ == ".pnpm-store"@);
    assert(SKIP_NAMES@[5]@ == ".rustup"@);
    assert(SKIP_NAMES@[6]@ == ".Trash"@);
    assert(SKIP_NAMES@[7]@ == ".docker"@);
    assert(SKIP_NAMES@[8]@ == ".gradle"@);
    assert(SKIP_NAMES@[9]@ == ".m2"@);
    assert(SKIP_NAMES@[10]@ == ".venv"@);
    assert(SKIP_NAMES@[11]@ == ".tox"@);
    assert(SKIP_NAMES@[12]@ == ".nox"@);
    assert(SKIP_NAMES@[13]@ == ".mypy_cache"@);
    assert(SKIP_NAMES@[14]@ == ".pytest_cache"@);
    assert(SKIP_NAMES@[15]@ == ".ruff_cache"@);
    assert(SKIP_NAMES@[16]@ == "__pycache__"@);
    assert(SKIP_NAMES@[17]@ == ".bundle"@);
    assert(SKIP_NAMES@[18]@ == ".terraform"@);
    assert(SKIP_NAMES@[19]@ == ".pulumi"@);
    assert(SKIP_NAMES@[20]@ == ".next"@);
    assert(SKIP_NAMES@[21]@ == ".nuxt"@);
    assert(SKIP_NAMES@[22]@ == ".angular"@);
    assert(SKIP_NAMES@[23]@ == ".svelte-kit"@);
    assert(SKIP_NAMES@[24]@ == "Library"@);
    assert(SKIP_NAMES@[25]@ == "Applications"@);
    assert(SKIP_NAMES@[26]@ == ".lima"@);
    assert(SKIP_NAMES@[27]@ == ".orbstack"@);
    assert(SKIP_NAMES@[28]@ == ".colima"@);
    reveal_strlit(".cargo/registry");
    reveal_strlit(".cargo/git");
    reveal_strlit("go/pkg");
    reveal_strlit(".local/share");
    reveal_strlit(".local/lib");
    reveal_strlit(".git/objects");
    reveal_strlit("vendor/bundle");
    reveal_strlit("build/intermediates");
    assert(".cargo/registry"@[6] == '/');
    assert(".cargo/git"@[6] == '/');
    assert("go/pkg"@[2] == '/');
    assert(".local/share"@[6] == '/');
    assert(".local/lib"@[6] == '/');
    assert(".git/objects"@[4] == '/');
    assert("vendor/bundle"@[6] == '/');
    assert("build/intermediates"@[5] == '/');
    reveal_strlit("dist");
    assert(SKIP_DIRS@[30]@ == "dist"@);
    assert(!"dist"@.contains('/'));
    if is_skip_dir_name(name) {
        let k = choose|k: int|
            0 <= k < SKIP_DIRS@.len() && #[trigger] SKIP_DIRS@[k]@ == name && !name.contains('/');
        assert(".cargo/registry"@.contains('/'));
        assert(".cargo/git"@.contains('/'));
        assert("go/pkg"@.contains('/'));
        assert(".local/share"@.contains('/'));
        assert(".local/lib"@.contains('/'));
        assert(".git/objects"@.contains('/'));
        assert("vendor/bundle"@.contains('/'));
        assert("build/intermediates"@.contains('/'));
        assert(is_dependency_name(SKIP_DIRS@[k]@));
    }
}

proof fn lemma_skip_place(rel: Seq<char>)
    ensures
        is_skip_place(rel) == is_dependency_place(rel),
{
    reveal_strlit("node_modules");
    reveal_strlit(".cache");
    reveal_strlit(".npm");
    reveal_strlit(".yarn");
    reveal_strlit(".pnpm-store");
    reveal_strlit(".cargo/registry");
    reveal_strlit(".cargo/git");
    reveal_strlit(".rustup");
    reveal_strlit("go/pkg");
    reveal_strlit(".local/share");
    reveal_strlit(".local/lib");
    reveal_strlit("Library");
    reveal_strlit(".Trash");
    reveal_strlit(".docker");
    reveal_strlit(".gradle");
    reveal_strlit(".m2");
    reveal_strlit(".venv");
    reveal_strlit(".tox");
    reveal_strlit(".nox");
    reveal_strlit(".mypy_cache");
    reveal_strlit(".pytest_cache");
    reveal_strlit(".ruff_cache");
    reveal_strlit("__pycache__");
    reveal_strlit(".git/objects");
    reveal_strlit(".bundle");
    reveal_strlit("vendor/bundle");
    reveal_strlit(".terraform");
    reveal_strlit(".pulumi");
    reveal_strlit(".next");
    reveal_strlit(".nuxt");
    reveal_strlit("dist");
    reveal_strlit("build/intermediates");
    reveal_strlit(".angular");
    reveal_strlit(".svelte-kit");
    assert(".cargo/registry"@[6] == '/');
    assert(".cargo/registry"@.contains('/'));
    assert(SKIP_DIRS@[5]@ == ".cargo/registry"@);
    assert(".cargo/git"@[6] == '/');
    assert(".cargo/git"@.contains('/'));
    assert(SKIP_DIRS@[6]@ == ".cargo/git"@);
    assert("go/pkg"@[2] == '/');
    assert("go/pkg"@.contains('/'));
    assert(SKIP_DIRS@[8]@ == "go/pkg"@);
    assert(".local/share"@[6] == '/');
    assert(".local/share"@.contains('/'));
    assert(SKIP_DIRS@[9]@ == ".local/share"@);
    assert(".local/lib"@[6] == '/');
    assert(".local/lib"@.contains('/'));
    assert(SKIP_DIRS@[10]@ == ".local/lib"@);
    assert(".git/objects"@[4] == '/');
    assert(".git/objects"@.contains('/'));
    assert(SKIP_DIRS@[23]@ == ".git/objects"@);
    assert("vendor/bundle"@[6] == '/');
    assert("vendor/bundle"@.contains('/'));
    assert(SKIP_DIRS@[25]@ == "vendor/bundle"@);
    assert("build/intermediates"@[5] == '/');
    assert("build/intermediates"@.contains('/'));
    assert(SKIP_DIRS@[31]@ == "build/intermediates"@);
    assert(!"node_modules"@.contains('/'));
    assert(!".cache"@.contains('/'));
    assert(!".npm"@.contains('/'));
    assert(!".yarn"@.contains('/'));
    assert(!".pnpm-store"@.contains('/'));
    assert(!".rustup"@.contains('/'));
    assert(!"Library"@.contains('/'));
    assert(!".Trash"@.contains('/'));
    assert(!".docker"@.contains('/'));
    assert(!".gradle"@.contains('/'));
    assert(!".m2"@.contains('/'));
    assert(!".venv"@.contains('/'));
    assert(!".tox"@.contains('/'));
    assert(!".nox"@.contains('/'));
    assert(!".mypy_cache"@.contains('/'));
    assert(!".pytest_cache"@.contains('/'));
    assert(!".ruff_cache"@.contains('/'));
    assert(!"__pycache__"@.contains('/'));
    assert(!".bundle"@.contains('/'));
    assert(!".terraform"@.contains('/'));
    assert(!".pulumi"@.contains('/'));
    assert(!".next"@.contains('/'));
    assert(!".nuxt"@.contains('/'));
    assert(!"dist"@.contains('/'));
    assert(!".angular"@.contains('/'));
    assert(!".svelte-kit"@.contains('/'));
    if is_skip_place(rel) {
        let k = choose|k: int|
            0 <= k < SKIP_DIRS@.len() && (#[trigger] SKIP_DIRS@[k]@).contains('/')
                && SKIP_DIRS@[k]@.is_prefix_of(rel);
        assert(SKIP_DIRS@[k]@.is_prefix_of(rel));
    }
}

/// Whether an entry is a directory that holds dependencies, caches or what was built.
pub open spec fn is_dependency_dir(entry: WalkEntry) -> bool {
    ||| entry.name is Some && is_dependency_name(entry.name->0@)
    ||| entry.rel is Some && is_dependency_place(entry.rel->0@)
}

/// Directories that hold dependencies, caches or what was built are skipped, by their
/// name wherever they stand or by their place below the root, and no others.
pub proof fn only_dependencies_are_skipped(entry: WalkEntry)
    ensures
        is_skipped(entry) == is_dependency_dir(entry),
{
    if let Some(name) = entry.name {
        lemma_skip_name(name@);
    }
    if let Some(rel) = entry.rel {
        lemma_skip_place(rel@);
    }
}

/// Whether an entry is what a search looks for: it is no directory that is skipped, of
/// the wanted kind, below the root, and its name matches the pattern, in small letters
/// where these and capital letters are equal.
pub open spec fn is_sought(query: FindQuery, entry: WalkEntry) -> bool {
    &&& !(entry.is_dir && is_dependency_dir(entry))
    &&& entry.is_dir == query.want_dirs
    &&& entry.name is Some
    &&& query.pattern_lower is None ==> glob::glob_matches(
        encode_utf8(query.pattern@),
        encode_utf8(entry.name->0@),
    )
    &&& query.pattern_lower is Some ==> glob::glob_matches(
        encode_utf8(query.pattern_lower->0@),
        encode_utf8(text::lowercase(entry.name->0@)),
    )
    &&& entry.rel is Some ==> entry.rel->0@.len() > 0
    &&& entry.rel is None ==> entry.path@.len() > 0
}

/// An entry is taken exactly where it is what the search looks for, and under its path
/// seen from the root, or its whole path where it is not below that. A directory is
/// skipped exactly where it holds dependencies, caches or what was built.
pub proof fn what_is_sought_is_taken(query: FindQuery, entry: WalkEntry)
    ensures
        verdict(query, entry) is Take <==> is_sought(query, entry),
        verdict(query, entry) is Take ==> verdict(query, entry)->Take_0 == if entry.rel is Some {
            entry.rel->0@
        } else {
            entry.path@
        },
        verdict(query, entry) is Skip <==> entry.is_dir && is_dependency_dir(entry),
{
    only_dependencies_are_skipped(entry);
}

/// The paths of the entries that a search looks for, in the order of the walk.
pub open spec fn sought_paths(query: FindQuery, entries: Seq<Option<WalkEntry>>) -> Seq<
    Seq<char>,
> {
    entries.filter(|e: Option<WalkEntry>| e is Some && is_sought(query, e->0)).map_values(
        |e: Option<WalkEntry>|
            if e->0.rel is Some {
                e->0.rel->0@
            } else {
                e->0.path@
            },
    )
}

proof fn lemma_sought(query: FindQuery, entries: Seq<Option<WalkEntry>>)
    ensures
        wanted(query, entries) == sought_paths(query, entries),
    decreases entries.len(),
{
    let pred = |e: Option<WalkEntry>| e is Some && is_sought(query, e->0);
    let shown = |e: Option<WalkEntry>|
        if e->0.rel is Some {
            e->0.rel->0@
        } else {
            e->0.path@
        };
    if entries.len() == 0 {
        entries.lemma_filter_len(pred);
        assert(wanted(query, entries) =~= sought_paths(query, entries));
    } else {
        let fewer = entries.drop_last();
        let last = entries.last();
        lemma_sought(query, fewer);
        assert(fewer.push(last) =~= entries);
        fewer.lemma_filter_push(last, pred);
        if let Some(e) = last {
            what_is_sought_is_taken(query, e);
        }
        assert(wanted(query, entries) =~= sought_paths(query, entries));
    }
}

/// A walk collects the first entries that the search looks for: as many as its limit
/// says, but always the first, or all where they are fewer.
pub proof fn the_first_sought_are_collected(
    query: FindQuery,
    entries: Seq<Option<WalkEntry>>,
    limit: usize,
)
    ensures
        ({
            let sought = sought_paths(query, entries);
            let most: int = if limit == 0 {
                1
            } else {
                limit as int
            };
            collected(query, entries, limit) == if sought.len() <= most {
                sought
            } else {
                sought.take(most)
            }
        }),
{
    walk_collects_the_first_matches(query, entries, limit);
    lemma_sought(query, entries);
}

/// A plan follows the arguments: `.` stands for every name, `d` asks for directories,
/// hidden entries are walked for a pattern that begins with a point, four times as many
/// files are collected as names are shown, and the rest is taken over.
pub proof fn plans_follow_the_arguments(q: FindQuery, a: find_args::FindArgsView, verbose: u8)
    requires
        is_plan(q, a, verbose),
    ensures
        q.path@ == a.path,
        q.pattern@ == if a.pattern == "."@ {
            "*"@
        } else {
            a.pattern
        },
        a.case_insensitive <==> q.pattern_lower is Some,
        q.pattern_lower is Some ==> q.pattern_lower->0@ == text::lowercase(q.pattern@),
        q.want_dirs <==> a.file_type == "d"@,
        q.search_hidden <==> a.pattern.len() > 0 && a.pattern[0] == '.' && a.pattern != "."@,
        q.max_depth == a.max_depth,
        q.max_results == a.max_results,
        q.collect_limit == 4 * a.max_results,
        q.announcement is Some <==> verbose > 0,
        q.announcement is Some ==> q.announcement->0@ == "find: "@ + q.pattern@ + " in "@ + a.path,
{
    reveal_strlit("*");
}

/// A search that starts three components deep or less goes eight levels down by itself,
/// and any other as far as there is something.
pub proof fn broad_searches_are_capped(n: nat)
    ensures
        n <= 3 ==> own_depth(n) == Some(8usize),
        n > 3 ==> own_depth(n) is None,
{
}

/// The walk can be limited exactly where four times the number of names to show is a
/// number that the machine has.
pub proof fn the_limit_is_four_times_the_names(args: Seq<Seq<char>>)
    ensures
        limit_fits(args) <==> (find_args::meaning(args) is Ok ==> 4 * (find_args::meaning(
            args,
        )->Ok_0).max_results <= usize::MAX),
{
}

/// The files of a report are those that were found, each as often as it was found, in the
/// order of their paths, and nothing else.
pub proof fn files_are_what_was_found(files: Seq<FoundFile>, found: Seq<Seq<char>>)
    requires
        are_files(files, found),
    ensures
        files.len() == found.len(),
        Seq::new(files.len(), |k: int| files[k].path@).to_multiset() == found.to_multiset(),
        forall|j: int, k: int|
            0 <= j < k < files.len() ==> listing::str_le(
                (#[trigger] files[j]).path@,
                (#[trigger] files[k]).path@,
            ),
{
    let all = paths_of(files);
    assert(all =~= Seq::new(files.len(), |k: int| files[k].path@));
    assert forall|j: int, k: int| 0 <= j < k < files.len() implies listing::str_le(
        (#[trigger] files[j]).path@,
        (#[trigger] files[k]).path@,
    ) by {
        assert(listing::str_le(all[j], all[k]));
    }
    all.to_multiset_ensures();
    found.to_multiset_ensures();
}

/// Whether `files` are the paths that were found, each as often as it was found, in
/// ascending order, each taken apart.
pub open spec fn are_found_files(files: Seq<FoundFile>, found: Seq<Seq<char>>) -> bool {
    &&& files.len() == found.len()
    &&& Seq::new(files.len(), |k: int| files[k].path@).to_multiset() == found.to_multiset()
    &&& forall|j: int, k: int|
        0 <= j < k < files.len() ==> listing::str_le(
            (#[trigger] files[j]).path@,
            (#[trigger] files[k]).path@,
        )
    &&& forall|k: int|
        0 <= k < files.len() && paths::portable((#[trigger] files[k]).path@) ==> {
            let parts = paths::segments(files[k].path@);
            &&& text::opt_view(files[k].parent) == paths::parent_of(parts)
            &&& text::opt_view(files[k].file_name) == paths::file_name_of(parts)
        }
}

/// What is printed of a search is the report on all files that were found, and nothing is
/// printed exactly where that report cannot be made.
pub proof fn all_that_is_found_is_reported(
    out: Option<Seq<char>>,
    found: Seq<Seq<char>>,
    pattern: Seq<char>,
    max_results: usize,
)
    requires
        is_printed(out, found, pattern, max_results),
    ensures
        exists|files: Seq<FoundFile>|
            #![trigger listing::items_of(files)]
            {
                let items = listing::items_of(files);
                &&& are_found_files(files, found)
                &&& out is None <==> !listing::report_fits(items, max_results as nat)
                &&& out is Some ==> listing::is_report(out->0, items, pattern, max_results as nat)
            },
{
    let files = choose|files: Seq<FoundFile>|
        #![trigger listing::items_of(files)]
        {
            let items = listing::items_of(files);
            &&& are_files(files, found)
            &&& (out is Some) == listing::report_fits(items, max_results as nat)
            &&& out is Some ==> listing::is_report(out->0, items, pattern, max_results as nat)
        };
    files_are_what_was_found(files, found);
    assert forall|k: int| 0 <= k < files.len() && paths::portable(
        (#[trigger] files[k]).path@,
    ) implies text::opt_view(files[k].parent) == paths::parent_of(
        paths::segments(files[k].path@),
    ) && text::opt_view(files[k].file_name) == paths::file_name_of(
        paths::segments(files[k].path@),
    ) by {
        paths::files_are_their_paths_taken_apart(files[k]);
    }
    assert(are_found_files(files, found));
    assert(listing::items_of(files).len() == files.len());
}

} // verus!
