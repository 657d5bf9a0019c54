//! The report on the files that a search found, grouped by directory.

use vstd::prelude::*;
use vstd::utf8::*;

use crate::numbers;
use crate::text;

verus! {

// ---------------------------------------------------------------------------
// What the report is made from
// ---------------------------------------------------------------------------

/// A file that was found, with its path taken apart. `parent`, `file_name` and
/// `extension` are `None` where the path has no such part.
#[derive(Debug)]
pub struct FoundFile {
    pub path: String,
    pub parent: Option<String>,
    pub file_name: Option<String>,
    pub extension: Option<String>,
}

/// What the report reads of a file: the directory under which it is listed, the
/// name that is shown, and the extension under which it is counted.
pub struct FileItem {
    pub dir: Seq<char>,
    pub name: Seq<char>,
    pub ext: Seq<char>,
}

/// The directory of a parent path: `.` where there is none or it is empty.
pub open spec fn dir_of(parent: Option<String>) -> Seq<char> {
    match parent {
        Some(d) if d@.len() > 0 => d@,
        _ => "."@,
    }
}

/// What the report reads of one file.
pub open spec fn item_of(f: FoundFile) -> FileItem {
    FileItem {
        dir: dir_of(f.parent),
        name: match f.file_name {
            Some(n) => n@,
            None => seq![],
        },
        ext: match f.extension {
            Some(e) => e@,
            None => "none"@,
        },
    }
}

/// What the report reads of several files.
pub open spec fn items_of(files: Seq<FoundFile>) -> Seq<FileItem> {
    Seq::new(files.len(), |i: int| item_of(files[i]))
}

/// The names of the files in the directory `d`, in the order of `items`.
pub open spec fn names_in(items: Seq<FileItem>, d: Seq<char>) -> Seq<Seq<char>>
    decreases items.len(),
{
    if items.len() == 0 {
        seq![]
    } else if items.last().dir == d {
        names_in(items.drop_last(), d).push(items.last().name)
    } else {
        names_in(items.drop_last(), d)
    }
}

/// Whether `a` stands before `b`, or is equal to it, in the order of strings: the
/// first characters that differ decide, by their code points, and a prefix of a
/// string stands before it.
pub open spec fn str_le(a: Seq<char>, b: Seq<char>) -> bool
    decreases a.len(),
{
    ||| a.len() == 0
    ||| b.len() > 0 && (a[0] < b[0] || (a[0] == b[0] && str_le(a.skip(1), b.skip(1))))
}

/// Whether the strings stand in ascending order.
pub open spec fn is_sorted(s: Seq<Seq<char>>) -> bool {
    forall|i: int, j: int| 0 <= i < j < s.len() ==> str_le(#[trigger] s[i], #[trigger] s[j])
}

/// Whether one of the files is in the directory `d`.
pub open spec fn holds_a_file(items: Seq<FileItem>, d: Seq<char>) -> bool {
    exists|i: int| 0 <= i < items.len() && (#[trigger] items[i]).dir == d
}

/// Whether `dirs` holds the directories of `items`, each once, in ascending order.
pub open spec fn is_dir_list(dirs: Seq<Seq<char>>, items: Seq<FileItem>) -> bool {
    &&& dirs.no_duplicates()
    &&& is_sorted(dirs)
    &&& forall|i: int| 0 <= i < items.len() ==> dirs.contains((#[trigger] items[i]).dir)
    &&& forall|k: int| 0 <= k < dirs.len() ==> holds_a_file(items, #[trigger] dirs[k])
}

// ---------------------------------------------------------------------------
// The directories
// ---------------------------------------------------------------------------

/// How many bytes of a directory's name are shown before it is cut.
pub const LABEL_MAX: usize = 50;

/// How many bytes are left of a name that is cut.
pub const LABEL_TAIL: usize = 47;

/// Whether the name of `dir` can be shown: where it is too long, its last bytes
/// begin with a whole character.
pub open spec fn label_fits(dir: Seq<char>) -> bool {
    encode_utf8(dir).len() > LABEL_MAX ==> is_char_boundary(
        encode_utf8(dir),
        encode_utf8(dir).len() - LABEL_TAIL,
    )
}

/// The name of `dir` as it is shown: whole, or its last bytes after three points.
pub open spec fn label(dir: Seq<char>) -> Seq<char> {
    let bytes = encode_utf8(dir);
    if bytes.len() > LABEL_MAX {
        "..."@ + decode_utf8(bytes.skip(bytes.len() - LABEL_TAIL))
    } else {
        dir
    }
}

/// The name of a directory as it is shown.
pub fn dir_label(dir: &str) -> (shown: String)
    requires
        label_fits(dir@),
    ensures
        shown@ == label(dir@),
{
    let len: usize = dir.as_bytes().len();
    if len > LABEL_MAX {
        let (head, tail) = dir.split_at(len - LABEL_TAIL);
        proof {
            let bytes = encode_utf8(dir@);
            assert(bytes.subrange(len - LABEL_TAIL, len as int) =~= bytes.skip(len - LABEL_TAIL));
            encode_utf8_decode_utf8(tail@);
        }
        let mut shown: String = "...".to_owned();
        shown.append(tail);
        shown
    } else {
        dir.to_owned()
    }
}

/// Whether the name of a directory can be shown.
pub fn dir_label_fits(dir: &str) -> (yes: bool)
    ensures
        yes == label_fits(dir@),
{
    let len: usize = dir.as_bytes().len();
    len <= LABEL_MAX || dir.is_char_boundary(len - LABEL_TAIL)
}

/// `<[String]>::sort`: puts the strings in ascending order. Nothing is added or
/// lost. Strings are ordered by the code points of their characters, as `str`
/// documents.
#[verifier::external_body]
pub(crate) fn sort_strings(strings: &mut Vec<String>)
    ensures
        text::views(final(strings)@).to_multiset() == text::views(old(strings)@).to_multiset(),
        is_sorted(text::views(final(strings)@)),
{
    strings.sort();
}

/// The directory under which a file is listed.
fn file_dir(f: &FoundFile) -> (dir: String)
    ensures
        dir@ == item_of(*f).dir,
{
    match &f.parent {
        Some(d) => if d.as_str().is_empty() {
            ".".to_owned()
        } else {
            d.clone()
        },
        None => ".".to_owned(),
    }
}

/// The name under which a file is listed.
fn file_label(f: &FoundFile) -> (name: String)
    ensures
        name@ == item_of(*f).name,
{
    match &f.file_name {
        Some(n) => n.clone(),
        None => String::new(),
    }
}

/// Whether a string is one of several.
fn contains_string(strings: &Vec<String>, s: &str) -> (yes: bool)
    ensures
        yes == text::views(strings@).contains(s@),
{
    let mut i: usize = 0;
    while i < strings.len()
        invariant
            i <= strings@.len(),
            forall|j: int| 0 <= j < i ==> #[trigger] text::views(strings@)[j] != s@,
        decreases strings@.len() - i,
    {
        if text::str_eq(strings[i].as_str(), s) {
            assert(text::views(strings@)[i as int] == s@);
            return true;
        }
        i += 1;
    }
    false
}

/// The directories of the files, each once, in ascending order.
fn dirs_of(files: &Vec<FoundFile>) -> (dirs: Vec<String>)
    ensures
        is_dir_list(text::views(dirs@), items_of(files@)),
{
    let mut dirs: Vec<String> = Vec::new();
    let ghost items = items_of(files@);
    let mut i: usize = 0;
    while i < files.len()
        invariant
            i <= files@.len(),
            items == items_of(files@),
            text::views(dirs@).no_duplicates(),
            forall|j: int| 0 <= j < i ==> text::views(dirs@).contains((#[trigger] items[j]).dir),
            forall|k: int|
                0 <= k < dirs@.len() ==> holds_a_file(items, #[trigger] text::views(dirs@)[k]),
        decreases files@.len() - i,
    {
        let dir: String = file_dir(&files[i]);
        let ghost before = text::views(dirs@);
        assert(items[i as int].dir == dir@);
        if !contains_string(&dirs, dir.as_str()) {
            dirs.push(dir);
            proof {
                let after = text::views(dirs@);
                assert(after =~= before.push(dir@));
                assert forall|j: int| 0 <= j < i + 1 implies after.contains(
                    (#[trigger] items[j]).dir,
                ) by {
                    if j < i {
                        let k = choose|k: int| 0 <= k < before.len() && before[k] == items[j].dir;
                        assert(after[k] == items[j].dir);
                    } else {
                        assert(after[before.len() as int] == items[j].dir);
                    }
                }
                assert forall|k: int| 0 <= k < dirs@.len() implies holds_a_file(
                    items,
                    #[trigger] after[k],
                ) by {
                    if k < before.len() {
                        assert(before[k] == after[k]);
                    } else {
                        assert(items[i as int].dir == after[k]);
                    }
                }
            }
        }
        i += 1;
    }
    let ghost found = text::views(dirs@);
    sort_strings(&mut dirs);
    proof {
        lemma_same_elements(found, text::views(dirs@));
        let sorted = text::views(dirs@);
        assert forall|i: int| 0 <= i < items.len() implies sorted.contains(
            (#[trigger] items[i]).dir,
        ) by {
            assert(found.contains(items[i].dir));
        }
        assert forall|k: int| 0 <= k < sorted.len() implies holds_a_file(
            items,
            #[trigger] sorted[k],
        ) by {
            assert(sorted.contains(sorted[k]));
            let m = choose|m: int| 0 <= m < found.len() && found[m] == sorted[k];
            assert(holds_a_file(items, found[m]));
        }
    }
    dirs
}

/// Two sequences with the same multiset hold the same elements, and where one has
/// no duplicates the other has none.
proof fn lemma_same_elements(a: Seq<Seq<char>>, b: Seq<Seq<char>>)
    requires
        a.to_multiset() == b.to_multiset(),
    ensures
        forall|x: Seq<char>| a.contains(x) == #[trigger] b.contains(x),
        a.no_duplicates() ==> b.no_duplicates(),
{
    a.to_multiset_ensures();
    b.to_multiset_ensures();
    assert forall|x: Seq<char>| a.contains(x) == #[trigger] b.contains(x) by {
        vstd::seq_lib::to_multiset_contains(a, x);
        vstd::seq_lib::to_multiset_contains(b, x);
    }
    if a.no_duplicates() {
        a.lemma_multiset_has_no_duplicates();
        b.lemma_multiset_has_no_duplicates_conv();
    }
}

/// The names of the files in one directory.
fn names_of(files: &Vec<FoundFile>, dir: &str) -> (names: Vec<String>)
    ensures
        text::views(names@) == names_in(items_of(files@), dir@),
{
    let mut names: Vec<String> = Vec::new();
    let ghost items = items_of(files@);
    let mut i: usize = 0;
    assert(text::views(names@) =~= names_in(items.take(0), dir@));
    while i < files.len()
        invariant
            i <= files@.len(),
            items == items_of(files@),
            text::views(names@) == names_in(items.take(i as int), dir@),
        decreases files@.len() - i,
    {
        let here: String = file_dir(&files[i]);
        proof {
            assert(items.take(i + 1).drop_last() =~= items.take(i as int));
            assert(items.take(i + 1).last() == item_of(files@[i as int]));
        }
        if text::str_eq(here.as_str(), dir) {
            let name: String = file_label(&files[i]);
            assert(text::views(names@.push(name)) =~= text::views(names@).push(name@));
            names.push(name);
        }
        i += 1;
    }
    assert(items.take(files@.len() as int) =~= items);
    names
}

/// The lines that list the files, directory by directory, until `budget` names are
/// shown. A directory with more names than are left is listed in part.
pub open spec fn listing(items: Seq<FileItem>, dirs: Seq<Seq<char>>, budget: nat) -> Seq<char>
    decreases dirs.len(),
{
    if dirs.len() == 0 || budget == 0 {
        seq![]
    } else {
        let names = names_in(items, dirs[0]);
        if names.len() <= budget {
            dir_line(dirs[0], names) + listing(items, dirs.skip(1), (budget - names.len()) as nat)
        } else {
            dir_line(dirs[0], names.take(budget as int))
        }
    }
}

/// The line of one directory.
pub open spec fn dir_line(dir: Seq<char>, names: Seq<Seq<char>>) -> Seq<char> {
    label(dir) + "/ "@ + text::joined(names, " "@) + "\n"@
}

/// Whether the name of every directory that `listing` shows can be shown.
pub open spec fn labels_fit(items: Seq<FileItem>, dirs: Seq<Seq<char>>, budget: nat) -> bool
    decreases dirs.len(),
{
    dirs.len() > 0 && budget > 0 ==> {
        let names = names_in(items, dirs[0]);
        &&& label_fits(dirs[0])
        &&& names.len() <= budget ==> labels_fit(
            items,
            dirs.skip(1),
            (budget - names.len()) as nat,
        )
    }
}

/// How many names the directories hold together.
pub open spec fn name_count(items: Seq<FileItem>, dirs: Seq<Seq<char>>) -> nat
    decreases dirs.len(),
{
    if dirs.len() == 0 {
        0
    } else {
        names_in(items, dirs[0]).len() + name_count(items, dirs.skip(1))
    }
}

/// How many names `listing` shows.
pub open spec fn shown_count(items: Seq<FileItem>, dirs: Seq<Seq<char>>, budget: nat) -> nat
    decreases dirs.len(),
{
    if dirs.len() == 0 || budget == 0 {
        0
    } else {
        let names = names_in(items, dirs[0]);
        if names.len() <= budget {
            names.len() + shown_count(items, dirs.skip(1), (budget - names.len()) as nat)
        } else {
            budget
        }
    }
}

/// The first names of a directory.
fn first_names(names: &Vec<String>, n: usize) -> (part: Vec<String>)
    requires
        n <= names@.len(),
    ensures
        text::views(part@) == text::views(names@).take(n as int),
{
    let mut part: Vec<String> = Vec::new();
    let mut i: usize = 0;
    while i < n
        invariant
            i <= n <= names@.len(),
            text::views(part@) == text::views(names@).take(i as int),
        decreases n - i,
    {
        let name: String = names[i].clone();
        assert(text::views(part@.push(name)) =~= text::views(part@).push(name@));
        part.push(name);
        assert(text::views(names@).take(i + 1) =~= text::views(names@).take(i as int).push(names@[i as int]@));
        i += 1;
    }
    part
}

/// The line of one directory.
fn line_of(dir: &str, names: &Vec<String>) -> (line: String)
    requires
        label_fits(dir@),
    ensures
        line@ == dir_line(dir@, text::views(names@)),
{
    let mut line: String = dir_label(dir);
    line.append("/ ");
    let shown: String = text::join(names, " ");
    line.append(shown.as_str());
    line.append("\n");
    line
}

/// The lines that list the files.
fn list_files(files: &Vec<FoundFile>, dirs: &Vec<String>, max_results: usize) -> (listed: String)
    requires
        labels_fit(items_of(files@), text::views(dirs@), max_results as nat),
    ensures
        listed@ == listing(items_of(files@), text::views(dirs@), max_results as nat),
{
    let ghost items = items_of(files@);
    let mut out: String = String::new();
    let mut shown: usize = 0;
    let mut k: usize = 0;
    let ghost all = text::views(dirs@);
    assert(all.skip(0) =~= all);
    assert(out@ + listing(items, all, max_results as nat) =~= listing(
        items,
        all,
        max_results as nat,
    ));
    while k < dirs.len() && shown < max_results
        invariant
            k <= dirs@.len(),
            shown <= max_results,
            items == items_of(files@),
            all == text::views(dirs@),
            labels_fit(items, all.skip(k as int), (max_results - shown) as nat),
            listing(items, all, max_results as nat) == out@ + listing(
                items,
                all.skip(k as int),
                (max_results - shown) as nat,
            ),
        decreases dirs@.len() - k,
    {
        let budget: usize = max_results - shown;
        let names: Vec<String> = names_of(files, dirs[k].as_str());
        let ghost rest = all.skip(k as int);
        proof {
            assert(rest[0] == dirs@[k as int]@);
            assert(rest.skip(1) =~= all.skip(k + 1));
            assert(names@.len() == text::views(names@).len());
        }
        if names.len() <= budget {
            let line: String = line_of(dirs[k].as_str(), &names);
            out.append(line.as_str());
            shown += names.len();
            k += 1;
            assert(listing(items, all, max_results as nat) =~= out@ + listing(
                items,
                all.skip(k as int),
                (max_results - shown) as nat,
            ));
        } else {
            let part: Vec<String> = first_names(&names, budget);
            let line: String = line_of(dirs[k].as_str(), &part);
            out.append(line.as_str());
            return out;
        }
    }
    assert(out@ + Seq::<char>::empty() =~= out@);
    out
}

/// The listing shows as many names as there are and as the budget allows.
proof fn lemma_shown_count(items: Seq<FileItem>, dirs: Seq<Seq<char>>, budget: nat)
    ensures
        shown_count(items, dirs, budget) == if name_count(items, dirs) <= budget {
            name_count(items, dirs)
        } else {
            budget
        },
    decreases dirs.len(),
{
    if dirs.len() > 0 && budget > 0 {
        let names = names_in(items, dirs[0]);
        if names.len() <= budget {
            lemma_shown_count(items, dirs.skip(1), (budget - names.len()) as nat);
        }
    }
}

/// One file more is one name more, in the one directory that it is in.
proof fn lemma_name_count_push(items: Seq<FileItem>, dirs: Seq<Seq<char>>)
    requires
        items.len() > 0,
        dirs.no_duplicates(),
    ensures
        name_count(items, dirs) == name_count(items.drop_last(), dirs) + if dirs.contains(
            items.last().dir,
        ) {
            1nat
        } else {
            0nat
        },
    decreases dirs.len(),
{
    if dirs.len() > 0 {
        let rest = dirs.skip(1);
        let d = items.last().dir;
        assert(rest.no_duplicates());
        lemma_name_count_push(items, rest);
        if dirs[0] == d {
            assert(!rest.contains(d)) by {
                if rest.contains(d) {
                    let k = choose|k: int| 0 <= k < rest.len() && rest[k] == d;
                    assert(dirs[k + 1] == dirs[0]);
                }
            }
        } else if dirs.contains(d) {
            let k = choose|k: int| 0 <= k < dirs.len() && dirs[k] == d;
            assert(rest[k - 1] == d);
        } else if rest.contains(d) {
            let k = choose|k: int| 0 <= k < rest.len() && rest[k] == d;
            assert(dirs[k + 1] == d);
        }
    }
}

proof fn lemma_name_count(items: Seq<FileItem>, dirs: Seq<Seq<char>>)
    requires
        dirs.no_duplicates(),
        forall|i: int| 0 <= i < items.len() ==> dirs.contains((#[trigger] items[i]).dir),
    ensures
        name_count(items, dirs) == items.len(),
    decreases items.len(),
{
    if items.len() > 0 {
        let fewer = items.drop_last();
        assert forall|i: int| 0 <= i < fewer.len() implies dirs.contains(
            (#[trigger] fewer[i]).dir,
        ) by {
            assert(fewer[i] == items[i]);
        }
        lemma_name_count(fewer, dirs);
        lemma_name_count_push(items, dirs);
    } else {
        lemma_no_names(items, dirs);
    }
}

proof fn lemma_no_names(items: Seq<FileItem>, dirs: Seq<Seq<char>>)
    requires
        items.len() == 0,
    ensures
        name_count(items, dirs) == 0,
    decreases dirs.len(),
{
    if dirs.len() > 0 {
        lemma_no_names(items, dirs.skip(1));
    }
}

/// Every file is listed in exactly one directory: the directories hold together as
/// many names as there are files.
pub proof fn directories_share_out_the_files(items: Seq<FileItem>, dirs: Seq<Seq<char>>)
    requires
        is_dir_list(dirs, items),
    ensures
        name_count(items, dirs) == items.len(),
{
    lemma_name_count(items, dirs);
}

/// The limit counts names: as many are shown as there are files, or as the limit
/// allows where there are more.
pub proof fn limit_bounds_the_names_shown(
    items: Seq<FileItem>,
    dirs: Seq<Seq<char>>,
    max_results: nat,
)
    requires
        is_dir_list(dirs, items),
    ensures
        shown_count(items, dirs, max_results) == if items.len() <= max_results {
            items.len()
        } else {
            max_results
        },
{
    lemma_name_count(items, dirs);
    lemma_shown_count(items, dirs, max_results);
}

// ---------------------------------------------------------------------------
// The extensions
// ---------------------------------------------------------------------------

/// How many extensions are shown.
pub const EXTENSIONS_SHOWN: usize = 5;

/// How many files have the extension `ext`.
pub open spec fn ext_count(items: Seq<FileItem>, ext: Seq<char>) -> nat
    decreases items.len(),
{
    if items.len() == 0 {
        0
    } else if items.last().ext == ext {
        ext_count(items.drop_last(), ext) + 1
    } else {
        ext_count(items.drop_last(), ext)
    }
}

/// An extension, the number of files that have it, and the first of them.
#[derive(Debug)]
pub struct ExtCount {
    pub ext: String,
    pub count: usize,
    pub first: usize,
}

/// Whether `e` counts the files with its extension and names the first of them.
pub open spec fn counts(items: Seq<FileItem>, e: ExtCount) -> bool {
    &&& e.count == ext_count(items, e.ext@)
    &&& e.first < items.len()
    &&& items[e.first as int].ext == e.ext@
    &&& forall|i: int| 0 <= i < e.first ==> (#[trigger] items[i]).ext != e.ext@
}

/// Whether `a` is shown before `b`: it has more files, or as many and was met first.
pub open spec fn ranks_before(a: ExtCount, b: ExtCount) -> bool {
    a.count > b.count || (a.count == b.count && a.first < b.first)
}

/// Whether one of the extensions is `ext`.
pub open spec fn has_ext(exts: Seq<ExtCount>, ext: Seq<char>) -> bool {
    exists|k: int| 0 <= k < exts.len() && (#[trigger] exts[k]).ext@ == ext
}

/// Whether `exts` counts each extension of `items`, each once.
pub open spec fn is_tally(exts: Seq<ExtCount>, items: Seq<FileItem>) -> bool {
    &&& forall|k: int| 0 <= k < exts.len() ==> counts(items, #[trigger] exts[k])
    &&& forall|i: int| 0 <= i < items.len() ==> has_ext(exts, (#[trigger] items[i]).ext)
    &&& forall|j: int, k: int|
        0 <= j < k < exts.len() ==> (#[trigger] exts[j]).ext@ != (#[trigger] exts[k]).ext@
}

/// Whether `exts` counts each extension of `items` once, the most frequent first.
pub open spec fn is_ranking(exts: Seq<ExtCount>, items: Seq<FileItem>) -> bool {
    &&& is_tally(exts, items)
    &&& forall|j: int, k: int|
        0 <= j < k < exts.len() ==> ranks_before(#[trigger] exts[j], #[trigger] exts[k])
}

/// The extension under which a file is counted.
fn file_ext(f: &FoundFile) -> (ext: String)
    ensures
        ext@ == item_of(*f).ext,
{
    match &f.extension {
        Some(e) => e.clone(),
        None => "none".to_owned(),
    }
}

/// The position of an extension, or the length where it is new.
fn ext_position(exts: &Vec<ExtCount>, ext: &str) -> (at: usize)
    ensures
        at <= exts@.len(),
        at < exts@.len() ==> exts@[at as int].ext@ == ext@,
        at == exts@.len() ==> !has_ext(exts@, ext@),
{
    let mut at: usize = 0;
    while at < exts.len()
        invariant
            at <= exts@.len(),
            forall|k: int| 0 <= k < at ==> (#[trigger] exts@[k]).ext@ != ext@,
        decreases exts@.len() - at,
    {
        if text::str_eq(exts[at].ext.as_str(), ext) {
            return at;
        }
        at += 1;
    }
    at
}

/// No more files have an extension than there are.
proof fn lemma_ext_count_bound(items: Seq<FileItem>, ext: Seq<char>)
    ensures
        ext_count(items, ext) <= items.len(),
    decreases items.len(),
{
    if items.len() > 0 {
        lemma_ext_count_bound(items.drop_last(), ext);
    }
}

/// An extension that no file has is counted zero times.
proof fn lemma_ext_count_absent(items: Seq<FileItem>, ext: Seq<char>)
    requires
        forall|i: int| 0 <= i < items.len() ==> (#[trigger] items[i]).ext != ext,
    ensures
        ext_count(items, ext) == 0,
    decreases items.len(),
{
    if items.len() > 0 {
        assert(items.last() == items[items.len() - 1]);
        assert forall|i: int| 0 <= i < items.drop_last().len() implies (
        #[trigger] items.drop_last()[i]).ext != ext by {
            assert(items.drop_last()[i] == items[i]);
        }
        lemma_ext_count_absent(items.drop_last(), ext);
    }
}

/// Counts the extensions of the files, in the order in which they are met.
fn tally(files: &Vec<FoundFile>) -> (exts: Vec<ExtCount>)
    ensures
        is_tally(exts@, items_of(files@)),
        forall|j: int, k: int|
            0 <= j < k < exts@.len() ==> (#[trigger] exts@[j]).first < (#[trigger] exts@[k]).first,
{
    let mut exts: Vec<ExtCount> = Vec::new();
    let ghost items = items_of(files@);
    let mut i: usize = 0;
    while i < files.len()
        invariant
            i <= files@.len(),
            items == items_of(files@),
            is_tally(exts@, items.take(i as int)),
            forall|j: int, k: int|
                0 <= j < k < exts@.len() ==> (#[trigger] exts@[j]).first < (
                #[trigger] exts@[k]).first,
        decreases files@.len() - i,
    {
        let ext: String = file_ext(&files[i]);
        let at: usize = ext_position(&exts, ext.as_str());
        let ghost seen = items.take(i as int);
        let ghost now = items.take(i + 1);
        let ghost before = exts@;
        proof {
            assert(now.drop_last() =~= seen);
            assert(now.last() == item_of(files@[i as int]));
            assert(now[i as int].ext == ext@);
            assert forall|j: int| 0 <= j < i implies #[trigger] now[j] == seen[j] by {}
            lemma_ext_count_bound(seen, ext@);
        }
        if at < exts.len() {
            assert(counts(seen, exts@[at as int]));
            let counted: ExtCount = ExtCount {
                ext,
                count: exts[at].count + 1,
                first: exts[at].first,
            };
            exts.set(at, counted);
            proof {
                assert forall|k: int| 0 <= k < exts@.len() implies counts(now, #[trigger] exts@[k]) by {
                    assert(counts(seen, before[k]));
                    assert(exts@[k].ext@ == before[k].ext@);
                    assert(now[exts@[k].first as int] == seen[exts@[k].first as int]);
                    if k < at {
                        assert(before[k].ext@ != before[at as int].ext@);
                    } else if k > at {
                        assert(before[at as int].ext@ != before[k].ext@);
                    }
                }
                assert forall|j: int| 0 <= j < now.len() implies has_ext(
                    exts@,
                    (#[trigger] now[j]).ext,
                ) by {
                    if j < i {
                        assert(has_ext(before, seen[j].ext));
                        let k = choose|k: int|
                            0 <= k < before.len() && (#[trigger] before[k]).ext@ == seen[j].ext;
                        assert(exts@[k].ext@ == now[j].ext);
                    } else {
                        assert(exts@[at as int].ext@ == now[j].ext);
                    }
                }
                assert forall|j: int, k: int| 0 <= j < k < exts@.len() implies (
                #[trigger] exts@[j]).ext@ != (#[trigger] exts@[k]).ext@ by {
                    assert(before[j].ext@ != before[k].ext@);
                }
                assert forall|j: int, k: int| 0 <= j < k < exts@.len() implies (
                #[trigger] exts@[j]).first < (#[trigger] exts@[k]).first by {
                    assert(before[j].first < before[k].first);
                }
            }
        } else {
            let counted: ExtCount = ExtCount { ext, count: 1, first: i };
            exts.push(counted);
            proof {
                assert forall|j: int| 0 <= j < seen.len() implies (#[trigger] seen[j]).ext
                    != ext@ by {
                    assert(has_ext(before, seen[j].ext));
                }
                lemma_ext_count_absent(seen, ext@);
                assert forall|k: int| 0 <= k < exts@.len() implies counts(now, #[trigger] exts@[k]) by {
                    if k < before.len() {
                        assert(exts@[k] == before[k]);
                        assert(counts(seen, before[k]));
                        assert(now[exts@[k].first as int] == seen[exts@[k].first as int]);
                    }
                }
                assert forall|j: int| 0 <= j < now.len() implies has_ext(
                    exts@,
                    (#[trigger] now[j]).ext,
                ) by {
                    if j < i {
                        assert(has_ext(before, seen[j].ext));
                        let k = choose|k: int|
                            0 <= k < before.len() && (#[trigger] before[k]).ext@ == seen[j].ext;
                        assert(exts@[k].ext@ == now[j].ext);
                    } else {
                        assert(exts@[at as int].ext@ == now[j].ext);
                    }
                }
                assert forall|j: int, k: int| 0 <= j < k < exts@.len() implies (
                #[trigger] exts@[j]).ext@ != (#[trigger] exts@[k]).ext@ && exts@[j].first
                    < exts@[k].first by {
                    assert(exts@[j] == before[j]);
                    assert(counts(seen, before[j]));
                    if k < before.len() {
                        assert(before[j].ext@ != before[k].ext@);
                        assert(before[j].first < before[k].first);
                    }
                }
            }
        }
        i += 1;
    }
    assert(items.take(files@.len() as int) =~= items);
    exts
}

/// Whether `ranked` holds the first `n` extensions, in the order in which they are shown.
spec fn ranks_first(ranked: Seq<ExtCount>, exts: Seq<ExtCount>, n: int) -> bool {
    &&& ranked.len() == n
    &&& forall|k: int| 0 <= k < n ==> exts.take(n).contains(#[trigger] ranked[k])
    &&& forall|j: int| 0 <= j < n ==> ranked.contains(#[trigger] exts[j])
    &&& forall|j: int, k: int|
        0 <= j < k < n ==> ranks_before(#[trigger] ranked[j], #[trigger] ranked[k])
}

/// The next extension stands behind those that have as many files or more.
proof fn lemma_rank_insert(before: Seq<ExtCount>, exts: Seq<ExtCount>, i: int, p: int)
    requires
        0 <= i < exts.len(),
        forall|j: int, k: int|
            0 <= j < k < exts.len() ==> (#[trigger] exts[j]).first < (#[trigger] exts[k]).first,
        ranks_first(before, exts, i),
        0 <= p <= before.len(),
        forall|k: int| 0 <= k < p ==> (#[trigger] before[k]).count >= exts[i].count,
        p < before.len() ==> before[p].count < exts[i].count,
    ensures
        ranks_first(before.insert(p, exts[i]), exts, i + 1),
{
    let next = exts[i];
    let seen = exts.take(i);
    let now = exts.take(i + 1);
    let after = before.insert(p, next);
    assert(now[i] == next);
    assert forall|k: int| 0 <= k < before.len() implies (#[trigger] before[k]).first
        < next.first && now.contains(before[k]) by {
        assert(seen.contains(before[k]));
        let j = choose|j: int| 0 <= j < seen.len() && seen[j] == before[k];
        assert(exts[j].first < exts[i].first);
        assert(now[j] == before[k]);
    }
    assert forall|k: int| 0 <= k < after.len() implies now.contains(#[trigger] after[k]) by {
        if k < p {
            assert(after[k] == before[k]);
        } else if k > p {
            assert(after[k] == before[k - 1]);
        }
    }
    assert forall|j: int| 0 <= j < i + 1 implies after.contains(#[trigger] exts[j]) by {
        if j < i {
            assert(before.contains(exts[j]));
            let k = choose|k: int| 0 <= k < before.len() && before[k] == exts[j];
            if k < p {
                assert(after[k] == before[k]);
            } else {
                assert(after[k + 1] == before[k]);
            }
        } else {
            assert(after[p] == exts[j]);
        }
    }
    assert forall|j: int, k: int| 0 <= j < k < after.len() implies ranks_before(
        #[trigger] after[j],
        #[trigger] after[k],
    ) by {
        if j < p {
            assert(after[j] == before[j]);
            if k < p {
                assert(after[k] == before[k]);
                assert(ranks_before(before[j], before[k]));
            } else if k > p {
                assert(after[k] == before[k - 1]);
                assert(ranks_before(before[j], before[k - 1]));
            }
        } else if j == p {
            assert(after[k] == before[k - 1]);
            if p < k - 1 {
                assert(ranks_before(before[p], before[k - 1]));
            }
        } else {
            assert(after[j] == before[j - 1]);
            assert(after[k] == before[k - 1]);
            assert(ranks_before(before[j - 1], before[k - 1]));
        }
    }
}

/// Puts the extensions in the order in which they are shown.
fn rank(exts: &Vec<ExtCount>, Ghost(items): Ghost<Seq<FileItem>>) -> (ranked: Vec<ExtCount>)
    requires
        is_tally(exts@, items),
        forall|j: int, k: int|
            0 <= j < k < exts@.len() ==> (#[trigger] exts@[j]).first < (#[trigger] exts@[k]).first,
    ensures
        is_ranking(ranked@, items),
        ranked@.len() == exts@.len(),
{
    let mut ranked: Vec<ExtCount> = Vec::new();
    let mut i: usize = 0;
    while i < exts.len()
        invariant
            i <= exts@.len(),
            forall|j: int, k: int|
                0 <= j < k < exts@.len() ==> (#[trigger] exts@[j]).first < (
                #[trigger] exts@[k]).first,
            ranks_first(ranked@, exts@, i as int),
        decreases exts@.len() - i,
    {
        let next: ExtCount = ExtCount {
            ext: exts[i].ext.clone(),
            count: exts[i].count,
            first: exts[i].first,
        };
        let mut p: usize = 0;
        while p < ranked.len() && ranked[p].count >= next.count
            invariant
                p <= ranked@.len(),
                forall|k: int| 0 <= k < p ==> (#[trigger] ranked@[k]).count >= next.count,
            decreases ranked@.len() - p,
        {
            p += 1;
        }
        proof {
            assert(next == exts@[i as int]);
            lemma_rank_insert(ranked@, exts@, i as int, p as int);
        }
        ranked.insert(p, next);
        i += 1;
    }
    proof {
        assert(exts@.take(exts@.len() as int) =~= exts@);
        assert forall|k: int| 0 <= k < ranked@.len() implies counts(items, #[trigger] ranked@[k]) by {
            assert(exts@.contains(ranked@[k]));
        }
        assert forall|i: int| 0 <= i < items.len() implies has_ext(
            ranked@,
            (#[trigger] items[i]).ext,
        ) by {
            assert(has_ext(exts@, items[i].ext));
            let k = choose|k: int|
                0 <= k < exts@.len() && (#[trigger] exts@[k]).ext@ == items[i].ext;
            assert(ranked@.contains(exts@[k]));
            let m = choose|m: int| 0 <= m < ranked@.len() && ranked@[m] == exts@[k];
            assert(ranked@[m].ext@ == items[i].ext);
        }
        assert forall|j: int, k: int| 0 <= j < k < ranked@.len() implies (
        #[trigger] ranked@[j]).ext@ != (#[trigger] ranked@[k]).ext@ by {
            assert(ranks_before(ranked@[j], ranked@[k]));
            let a = ranked@[j];
            let b = ranked@[k];
            assert(counts(items, a) && counts(items, b));
            if a.ext@ == b.ext@ {
                if a.first < b.first {
                    assert(items[a.first as int].ext != b.ext@);
                } else if b.first < a.first {
                    assert(items[b.first as int].ext != a.ext@);
                }
            }
        }
    }
    ranked
}

/// An extension and its count as they are shown.
pub open spec fn ext_entry(e: ExtCount) -> Seq<char> {
    "."@ + e.ext@ + "("@ + numbers::decimal(e.count as nat) + ")"@
}

/// The line on the extensions. There is none where all files have the same.
pub open spec fn ext_line(exts: Seq<ExtCount>) -> Seq<char> {
    if exts.len() > 1 {
        "\next: "@ + text::joined(ext_entries(exts), " "@) + "\n"@
    } else {
        seq![]
    }
}

/// The most frequent extensions as they are shown.
pub open spec fn ext_entries(exts: Seq<ExtCount>) -> Seq<Seq<char>> {
    Seq::new(
        if exts.len() <= EXTENSIONS_SHOWN {
            exts.len()
        } else {
            EXTENSIONS_SHOWN as nat
        },
        |k: int| ext_entry(exts[k]),
    )
}

/// The line on the extensions.
fn ext_line_of(exts: &Vec<ExtCount>) -> (line: String)
    ensures
        line@ == ext_line(exts@),
{
    if exts.len() <= 1 {
        return String::new();
    }
    let mut entries: Vec<String> = Vec::new();
    let mut k: usize = 0;
    while k < exts.len() && k < EXTENSIONS_SHOWN
        invariant
            k <= exts@.len(),
            k <= EXTENSIONS_SHOWN,
            text::views(entries@) == ext_entries(exts@).take(k as int),
        decreases exts@.len() - k,
    {
        let mut entry: String = ".".to_owned();
        entry.append(exts[k].ext.as_str());
        entry.append("(");
        let count: String = numbers::usize_to_string(exts[k].count);
        entry.append(count.as_str());
        entry.append(")");
        assert(text::views(entries@.push(entry)) =~= text::views(entries@).push(entry@));
        entries.push(entry);
        assert(ext_entries(exts@).take(k + 1) =~= ext_entries(exts@).take(k as int).push(
            ext_entry(exts@[k as int]),
        ));
        k += 1;
    }
    assert(text::views(entries@) =~= ext_entries(exts@));
    let mut line: String = "\next: ".to_owned();
    let shown: String = text::join(&entries, " ");
    line.append(shown.as_str());
    line.append("\n");
    line
}

// ---------------------------------------------------------------------------
// The report
// ---------------------------------------------------------------------------

/// The whole report: how many files and directories there are, the files by
/// directory until `max_results` names are shown, how many are left, and the most
/// frequent extensions.
pub open spec fn report_text(
    items: Seq<FileItem>,
    dirs: Seq<Seq<char>>,
    exts: Seq<ExtCount>,
    pattern: Seq<char>,
    max_results: nat,
) -> Seq<char> {
    if items.len() == 0 {
        "0 for '"@ + pattern + "'\n"@
    } else {
        numbers::decimal(items.len()) + "F "@ + numbers::decimal(dirs.len()) + "D:\n\n"@ + listing(
            items,
            dirs,
            max_results,
        ) + rest_line(items.len(), max_results) + ext_line(exts)
    }
}

/// The line on the files that are not shown. There is none where all are.
pub open spec fn rest_line(total: nat, max_results: nat) -> Seq<char> {
    if total > max_results {
        "+"@ + numbers::decimal((total - max_results) as nat) + " more\n"@
    } else {
        seq![]
    }
}

/// Whether `out` is the report on `items`.
pub open spec fn is_report(
    out: Seq<char>,
    items: Seq<FileItem>,
    pattern: Seq<char>,
    max_results: nat,
) -> bool {
    exists|dirs: Seq<Seq<char>>, exts: Seq<ExtCount>|
        is_dir_list(dirs, items) && is_ranking(exts, items) && out == #[trigger] report_text(
            items,
            dirs,
            exts,
            pattern,
            max_results,
        )
}

/// Whether the name of every directory that the report shows can be shown.
pub open spec fn report_fits(items: Seq<FileItem>, max_results: nat) -> bool {
    forall|dirs: Seq<Seq<char>>|
        is_dir_list(dirs, items) ==> #[trigger] labels_fit(items, dirs, max_results)
}

/// The line on the files that are not shown.
fn rest_line_of(total: usize, max_results: usize) -> (line: String)
    ensures
        line@ == rest_line(total as nat, max_results as nat),
{
    if total > max_results {
        let mut line: String = "+".to_owned();
        let left: String = numbers::usize_to_string(total - max_results);
        line.append(left.as_str());
        line.append(" more\n");
        line
    } else {
        String::new()
    }
}

/// The text of the report on files with these directories and extensions.
fn report_text_of(
    files: &Vec<FoundFile>,
    dirs: &Vec<String>,
    exts: &Vec<ExtCount>,
    pattern: &str,
    max_results: usize,
) -> (out: String)
    requires
        labels_fit(items_of(files@), text::views(dirs@), max_results as nat),
    ensures
        out@ == report_text(
            items_of(files@),
            text::views(dirs@),
            exts@,
            pattern@,
            max_results as nat,
        ),
{
    if files.len() == 0 {
        let mut out: String = "0 for '".to_owned();
        out.append(pattern);
        out.append("'\n");
        return out;
    }
    let mut out: String = numbers::usize_to_string(files.len());
    out.append("F ");
    let dirs_count: String = numbers::usize_to_string(dirs.len());
    out.append(dirs_count.as_str());
    out.append("D:\n\n");
    let listed: String = list_files(files, dirs, max_results);
    out.append(listed.as_str());
    let rest: String = rest_line_of(files.len(), max_results);
    out.append(rest.as_str());
    let ext_text: String = ext_line_of(exts);
    out.append(ext_text.as_str());
    assert(text::views(dirs@).len() == dirs@.len());
    out
}

/// The report on the files that were found, which stand in the order of their paths.
pub fn find_report(files: &Vec<FoundFile>, pattern: &str, max_results: usize) -> (out: String)
    requires
        report_fits(items_of(files@), max_results as nat),
    ensures
        is_report(out@, items_of(files@), pattern@, max_results as nat),
{
    let dirs: Vec<String> = dirs_of(files);
    let tallied: Vec<ExtCount> = tally(files);
    let exts: Vec<ExtCount> = rank(&tallied, Ghost(items_of(files@)));
    assert(labels_fit(items_of(files@), text::views(dirs@), max_results as nat));
    report_text_of(files, &dirs, &exts, pattern, max_results)
}

/// Whether the name of every directory that the listing shows can be shown.
fn labels_fit_in(files: &Vec<FoundFile>, dirs: &Vec<String>, max_results: usize) -> (yes: bool)
    ensures
        yes == labels_fit(items_of(files@), text::views(dirs@), max_results as nat),
{
    let ghost items = items_of(files@);
    let ghost all = text::views(dirs@);
    let mut budget: usize = max_results;
    let mut k: usize = 0;
    assert(all.skip(0) =~= all);
    while k < dirs.len() && budget > 0
        invariant
            k <= dirs@.len(),
            items == items_of(files@),
            all == text::views(dirs@),
            labels_fit(items, all, max_results as nat) == labels_fit(
                items,
                all.skip(k as int),
                budget as nat,
            ),
        decreases dirs@.len() - k,
    {
        let ghost rest = all.skip(k as int);
        proof {
            assert(rest[0] == dirs@[k as int]@);
            assert(rest.skip(1) =~= all.skip(k + 1));
        }
        if !dir_label_fits(dirs[k].as_str()) {
            return false;
        }
        let names: Vec<String> = names_of(files, dirs[k].as_str());
        assert(names@.len() == text::views(names@).len());
        if names.len() > budget {
            return true;
        }
        budget -= names.len();
        k += 1;
    }
    true
}

/// The report on the files that were found, or `None` where the name of a directory
/// would have to be cut inside a character.
pub fn try_find_report(files: &Vec<FoundFile>, pattern: &str, max_results: usize) -> (out: Option<
    String,
>)
    ensures
        (out is Some) == report_fits(items_of(files@), max_results as nat),
        out matches Some(t) ==> is_report(t@, items_of(files@), pattern@, max_results as nat),
{
    let dirs: Vec<String> = dirs_of(files);
    let ghost items = items_of(files@);
    let fits: bool = labels_fit_in(files, &dirs, max_results);
    proof {
        assert forall|other: Seq<Seq<char>>| is_dir_list(other, items) implies #[trigger] labels_fit(
            items,
            other,
            max_results as nat,
        ) == fits by {
            lemma_dir_list_unique(other, text::views(dirs@), items);
        }
    }
    if fits {
        Some(find_report(files, pattern, max_results))
    } else {
        None
    }
}

// ---------------------------------------------------------------------------
// The report is determined by the files
// ---------------------------------------------------------------------------

/// Two sequences in the same strict order with the same elements are equal.
proof fn lemma_strict_order_unique<K>(a: Seq<K>, b: Seq<K>, before: spec_fn(K, K) -> bool)
    requires
        forall|x: K, y: K| !(#[trigger] before(x, y) && before(y, x)),
        forall|i: int, j: int| 0 <= i < j < a.len() ==> before(#[trigger] a[i], #[trigger] a[j]),
        forall|i: int, j: int| 0 <= i < j < b.len() ==> before(#[trigger] b[i], #[trigger] b[j]),
        forall|i: int| 0 <= i < a.len() ==> b.contains(#[trigger] a[i]),
        forall|i: int| 0 <= i < b.len() ==> a.contains(#[trigger] b[i]),
    ensures
        a == b,
    decreases a.len(),
{
    if a.len() == 0 {
        if b.len() > 0 {
            assert(a.contains(b[0]));
        }
        assert(a =~= b);
    } else {
        assert(b.contains(a[0]));
        assert(a.contains(b[0]));
        let k = choose|k: int| 0 <= k < b.len() && b[k] == a[0];
        let m = choose|m: int| 0 <= m < a.len() && a[m] == b[0];
        if k > 0 && m > 0 {
            assert(before(b[0], b[k]));
            assert(before(a[0], a[m]));
        }
        assert(a[0] == b[0]);
        let x = a.skip(1);
        let y = b.skip(1);
        assert forall|i: int| 0 <= i < x.len() implies y.contains(#[trigger] x[i]) by {
            assert(x[i] == a[i + 1]);
            assert(b.contains(a[i + 1]));
            let n = choose|n: int| 0 <= n < b.len() && b[n] == a[i + 1];
            assert(before(a[0], a[i + 1]));
            assert(n != 0);
            assert(y[n - 1] == x[i]);
        }
        assert forall|i: int| 0 <= i < y.len() implies x.contains(#[trigger] y[i]) by {
            assert(y[i] == b[i + 1]);
            assert(a.contains(b[i + 1]));
            let n = choose|n: int| 0 <= n < a.len() && a[n] == b[i + 1];
            assert(before(b[0], b[i + 1]));
            assert(n != 0);
            assert(x[n - 1] == y[i]);
        }
        lemma_strict_order_unique(x, y, before);
        assert(a =~= seq![a[0]] + x);
        assert(b =~= seq![b[0]] + y);
    }
}

/// Two strings that stand before each other are equal.
proof fn lemma_str_le_antisymmetric(a: Seq<char>, b: Seq<char>)
    requires
        str_le(a, b),
        str_le(b, a),
    ensures
        a == b,
    decreases a.len(),
{
    if a.len() > 0 {
        lemma_str_le_antisymmetric(a.skip(1), b.skip(1));
        assert(a =~= seq![a[0]] + a.skip(1));
        assert(b =~= seq![b[0]] + b.skip(1));
    } else {
        assert(a =~= b);
    }
}

proof fn lemma_str_le_transitive(a: Seq<char>, b: Seq<char>, c: Seq<char>)
    requires
        str_le(a, b),
        str_le(b, c),
    ensures
        str_le(a, c),
    decreases a.len(),
{
    if a.len() > 0 && a[0] == b[0] && b[0] == c[0] {
        lemma_str_le_transitive(a.skip(1), b.skip(1), c.skip(1));
    }
}

proof fn lemma_str_le_total(a: Seq<char>, b: Seq<char>)
    ensures
        str_le(a, b) || str_le(b, a),
    decreases a.len(),
{
    if a.len() > 0 && b.len() > 0 {
        lemma_str_le_total(a.skip(1), b.skip(1));
    }
}

/// Strings that stand in ascending order stand in the only such order.
pub proof fn ascending_order_is_unique(a: Seq<Seq<char>>, b: Seq<Seq<char>>)
    requires
        is_sorted(a),
        is_sorted(b),
        a.to_multiset() == b.to_multiset(),
    ensures
        a == b,
{
    let le = |x: Seq<char>, y: Seq<char>| str_le(x, y);
    assert forall|x: Seq<char>| #[trigger] le(x, x) by {
        lemma_str_le_total(x, x);
    }
    assert forall|x: Seq<char>, y: Seq<char>| #[trigger] le(x, y) && #[trigger] le(y, x) implies x
        == y by {
        lemma_str_le_antisymmetric(x, y);
    }
    assert forall|x: Seq<char>, y: Seq<char>, z: Seq<char>| #[trigger] le(x, y) && #[trigger] le(
        y,
        z,
    ) implies le(x, z) by {
        lemma_str_le_transitive(x, y, z);
    }
    assert forall|x: Seq<char>, y: Seq<char>| #[trigger] le(x, y) || #[trigger] le(y, x) by {
        lemma_str_le_total(x, y);
    }
    vstd::seq_lib::lemma_sorted_unique(a, b, le);
}

proof fn lemma_dir_list_unique(a: Seq<Seq<char>>, b: Seq<Seq<char>>, items: Seq<FileItem>)
    requires
        is_dir_list(a, items),
        is_dir_list(b, items),
    ensures
        a == b,
{
    let before = |x: Seq<char>, y: Seq<char>| str_le(x, y) && x != y;
    assert forall|x: Seq<char>, y: Seq<char>| !(#[trigger] before(x, y) && before(y, x)) by {
        if before(x, y) && before(y, x) {
            lemma_str_le_antisymmetric(x, y);
        }
    }
    assert forall|i: int| 0 <= i < a.len() implies b.contains(#[trigger] a[i]) by {
        assert(holds_a_file(items, a[i]));
    }
    assert forall|i: int| 0 <= i < b.len() implies a.contains(#[trigger] b[i]) by {
        assert(holds_a_file(items, b[i]));
    }
    lemma_strict_order_unique(a, b, before);
}

/// What the report shows of an extension, and what decides its place.
spec fn ext_key(e: ExtCount) -> (Seq<char>, usize, usize) {
    (e.ext@, e.count, e.first)
}

spec fn ext_keys(exts: Seq<ExtCount>) -> Seq<(Seq<char>, usize, usize)> {
    Seq::new(exts.len(), |k: int| ext_key(exts[k]))
}

/// Each extension of one tally is in the other, with the same count and first file.
proof fn lemma_tally_keys(a: Seq<ExtCount>, b: Seq<ExtCount>, items: Seq<FileItem>, k: int)
    requires
        is_tally(a, items),
        is_tally(b, items),
        0 <= k < a.len(),
    ensures
        ext_keys(b).contains(ext_keys(a)[k]),
{
    let x = a[k];
    assert(counts(items, x));
    assert(has_ext(b, items[x.first as int].ext));
    let m = choose|m: int| 0 <= m < b.len() && (#[trigger] b[m]).ext@ == x.ext@;
    let y = b[m];
    assert(counts(items, y));
    if x.first < y.first {
        assert(items[x.first as int].ext != y.ext@);
    } else if y.first < x.first {
        assert(items[y.first as int].ext != x.ext@);
    }
    assert(ext_keys(b)[m] == ext_keys(a)[k]);
}

proof fn lemma_ranking_unique(a: Seq<ExtCount>, b: Seq<ExtCount>, items: Seq<FileItem>)
    requires
        is_ranking(a, items),
        is_ranking(b, items),
    ensures
        ext_line(a) == ext_line(b),
{
    let before = |x: (Seq<char>, usize, usize), y: (Seq<char>, usize, usize)|
        x.1 > y.1 || (x.1 == y.1 && x.2 < y.2);
    let x = ext_keys(a);
    let y = ext_keys(b);
    assert forall|i: int| 0 <= i < x.len() implies y.contains(#[trigger] x[i]) by {
        lemma_tally_keys(a, b, items, i);
    }
    assert forall|i: int| 0 <= i < y.len() implies x.contains(#[trigger] y[i]) by {
        lemma_tally_keys(b, a, items, i);
    }
    assert forall|i: int, j: int| 0 <= i < j < x.len() implies before(
        #[trigger] x[i],
        #[trigger] x[j],
    ) by {
        assert(ranks_before(a[i], a[j]));
    }
    assert forall|i: int, j: int| 0 <= i < j < y.len() implies before(
        #[trigger] y[i],
        #[trigger] y[j],
    ) by {
        assert(ranks_before(b[i], b[j]));
    }
    lemma_strict_order_unique(x, y, before);
    assert(a.len() == x.len() && b.len() == y.len());
    assert forall|k: int| 0 <= k < a.len() implies ext_entry(a[k]) == ext_entry(b[k]) by {
        assert(x[k] == y[k]);
    }
    assert(ext_entries(a) =~= ext_entries(b));
}

/// The name of a directory that is made of ASCII characters can be shown.
proof fn lemma_ascii_label(dir: Seq<char>)
    requires
        is_ascii_chars(dir),
    ensures
        label_fits(dir),
{
    let bytes = encode_utf8(dir);
    if bytes.len() > LABEL_MAX {
        let at = bytes.len() - LABEL_TAIL;
        is_ascii_chars_encode_utf8(dir);
        encode_utf8_valid_utf8(dir);
        assert(dir[at] as u8 == bytes[at]);
        is_ascii_chars_nat_bound(dir);
        is_char_boundary_iff_not_is_continuation_byte(bytes, at);
        utf8_byte_ranges_bitwise(bytes[at]);
    }
}

proof fn lemma_ascii_labels(items: Seq<FileItem>, dirs: Seq<Seq<char>>, budget: nat)
    requires
        forall|k: int| 0 <= k < dirs.len() ==> is_ascii_chars(#[trigger] dirs[k]),
    ensures
        labels_fit(items, dirs, budget),
    decreases dirs.len(),
{
    if dirs.len() > 0 && budget > 0 {
        assert(is_ascii_chars(dirs[0]));
        lemma_ascii_label(dirs[0]);
        let names = names_in(items, dirs[0]);
        if names.len() <= budget {
            let rest = dirs.skip(1);
            assert forall|k: int| 0 <= k < rest.len() implies is_ascii_chars(
                #[trigger] rest[k],
            ) by {
                assert(rest[k] == dirs[k + 1]);
            }
            lemma_ascii_labels(items, rest, (budget - names.len()) as nat);
        }
    }
}

/// Directories whose names are made of ASCII characters can all be shown.
pub proof fn ascii_directories_can_be_shown(items: Seq<FileItem>, max_results: nat)
    requires
        forall|k: int| 0 <= k < items.len() ==> is_ascii_chars((#[trigger] items[k]).dir),
    ensures
        report_fits(items, max_results),
{
    assert forall|dirs: Seq<Seq<char>>| is_dir_list(dirs, items) implies #[trigger] labels_fit(
        items,
        dirs,
        max_results,
    ) by {
        assert forall|k: int| 0 <= k < dirs.len() implies is_ascii_chars(#[trigger] dirs[k]) by {
            assert(holds_a_file(items, dirs[k]));
        }
        lemma_ascii_labels(items, dirs, max_results);
    }
}

/// How many files the extensions have together.
pub open spec fn ext_total(exts: Seq<ExtCount>) -> nat
    decreases exts.len(),
{
    if exts.len() == 0 {
        0
    } else {
        exts[0].count as nat + ext_total(exts.skip(1))
    }
}

/// The files, listed by their extensions.
spec fn by_ext(items: Seq<FileItem>) -> Seq<FileItem> {
    items.map_values(|item: FileItem| FileItem { dir: item.ext, ..item })
}

spec fn ext_names(exts: Seq<ExtCount>) -> Seq<Seq<char>> {
    Seq::new(exts.len(), |k: int| exts[k].ext@)
}

proof fn lemma_names_by_ext(items: Seq<FileItem>, ext: Seq<char>)
    ensures
        names_in(by_ext(items), ext).len() == ext_count(items, ext),
    decreases items.len(),
{
    if items.len() > 0 {
        lemma_names_by_ext(items.drop_last(), ext);
        assert(by_ext(items).drop_last() =~= by_ext(items.drop_last()));
    }
}

proof fn lemma_ext_total(exts: Seq<ExtCount>, items: Seq<FileItem>)
    requires
        forall|k: int| 0 <= k < exts.len() ==> counts(items, #[trigger] exts[k]),
    ensures
        ext_total(exts) == name_count(by_ext(items), ext_names(exts)),
    decreases exts.len(),
{
    if exts.len() > 0 {
        let rest = exts.skip(1);
        assert forall|k: int| 0 <= k < rest.len() implies counts(items, #[trigger] rest[k]) by {
            assert(rest[k] == exts[k + 1]);
        }
        lemma_ext_total(rest, items);
        assert(ext_names(exts).skip(1) =~= ext_names(rest));
        assert(counts(items, exts[0]));
        lemma_names_by_ext(items, exts[0].ext@);
    }
}

/// Every file is counted under exactly one extension: the counts add up to the number
/// of files.
pub proof fn extensions_share_out_the_files(exts: Seq<ExtCount>, items: Seq<FileItem>)
    requires
        is_tally(exts, items),
    ensures
        ext_total(exts) == items.len(),
{
    let listed = by_ext(items);
    let names = ext_names(exts);
    assert forall|j: int, k: int| 0 <= j < k < names.len() implies names[j] != names[k] by {
        assert(exts[j].ext@ != exts[k].ext@);
    }
    assert forall|i: int| 0 <= i < listed.len() implies names.contains(
        (#[trigger] listed[i]).dir,
    ) by {
        assert(has_ext(exts, items[i].ext));
        let k = choose|k: int| 0 <= k < exts.len() && (#[trigger] exts[k]).ext@ == items[i].ext;
        assert(names[k] == listed[i].dir);
    }
    lemma_name_count(listed, names);
    lemma_ext_total(exts, items);
}

/// The files, the pattern and the limit determine the report: there is only one.
pub proof fn report_is_unique(
    a: Seq<char>,
    b: Seq<char>,
    items: Seq<FileItem>,
    pattern: Seq<char>,
    max_results: nat,
)
    requires
        is_report(a, items, pattern, max_results),
        is_report(b, items, pattern, max_results),
    ensures
        a == b,
{
    let (d1, e1) = choose|dirs: Seq<Seq<char>>, exts: Seq<ExtCount>|
        is_dir_list(dirs, items) && is_ranking(exts, items) && a == #[trigger] report_text(
            items,
            dirs,
            exts,
            pattern,
            max_results,
        );
    let (d2, e2) = choose|dirs: Seq<Seq<char>>, exts: Seq<ExtCount>|
        is_dir_list(dirs, items) && is_ranking(exts, items) && b == #[trigger] report_text(
            items,
            dirs,
            exts,
            pattern,
            max_results,
        );
    lemma_dir_list_unique(d1, d2, items);
    lemma_ranking_unique(e1, e2, items);
}

// ---------------------------------------------------------------------------
// Laws
// ---------------------------------------------------------------------------

/// A file is listed under its parent, or under `.` where that is missing or empty, by its
/// name, and counted under its extension, or under `none` where it has none.
pub proof fn files_are_listed_under_their_parents(f: FoundFile)
    ensures
        item_of(f).dir == if f.parent is Some && f.parent->0@.len() > 0 {
            f.parent->0@
        } else {
            "."@
        },
        f.file_name is Some ==> item_of(f).name == f.file_name->0@,
        f.file_name is None ==> item_of(f).name.len() == 0,
        item_of(f).ext == if f.extension is Some {
            f.extension->0@
        } else {
            "none"@
        },
{
}

/// Every file makes one item, in its place.
pub proof fn every_file_makes_an_item(files: Seq<FoundFile>, k: int)
    requires
        0 <= k < files.len(),
    ensures
        items_of(files).len() == files.len(),
        items_of(files)[k] == item_of(files[k]),
{
}

/// Strings are ordered by the first code points that differ, and a string stands behind
/// those that it begins with.
pub proof fn code_points_order_strings(a: Seq<char>, b: Seq<char>)
    ensures
        str_le(a, b) <==> a.is_prefix_of(b) || exists|i: int|
            0 <= i < a.len() && i < b.len() && #[trigger] a.take(i) == b.take(i) && a[i] < b[i],
    decreases a.len(),
{
    if a.len() == 0 {
        assert(b.subrange(0, 0) =~= a);
    } else if b.len() > 0 {
        let x = a.skip(1);
        let y = b.skip(1);
        code_points_order_strings(x, y);
        assert(a.take(0) =~= b.take(0));
        if a[0] == b[0] {
            assert(x.is_prefix_of(y) ==> a.is_prefix_of(b)) by {
                if x.is_prefix_of(y) {
                    assert(x =~= y.subrange(0, x.len() as int));
                    assert forall|i: int| 0 <= i < a.len() implies a[i] == b[i] by {
                        if i > 0 {
                            assert(x[i - 1] == y.subrange(0, x.len() as int)[i - 1]);
                        }
                    }
                    assert(a =~= b.subrange(0, a.len() as int));
                }
            }
            assert(a.is_prefix_of(b) ==> x.is_prefix_of(y)) by {
                if a.is_prefix_of(b) {
                    assert forall|i: int| 0 <= i < x.len() implies x[i] == y[i] by {
                        assert(a[i + 1] == b.subrange(0, a.len() as int)[i + 1]);
                    }
                    assert(x =~= y.subrange(0, x.len() as int));
                }
            }
            if exists|i: int|
                0 <= i < x.len() && i < y.len() && #[trigger] x.take(i) == y.take(i) && x[i]
                    < y[i] {
                let i = choose|i: int|
                    0 <= i < x.len() && i < y.len() && #[trigger] x.take(i) == y.take(i) && x[i]
                        < y[i];
                assert(a.take(i + 1) =~= seq![a[0]] + x.take(i));
                assert(b.take(i + 1) =~= seq![b[0]] + y.take(i));
            }
            if exists|i: int|
                0 <= i < a.len() && i < b.len() && #[trigger] a.take(i) == b.take(i) && a[i]
                    < b[i] {
                let i = choose|i: int|
                    0 <= i < a.len() && i < b.len() && #[trigger] a.take(i) == b.take(i) && a[i]
                        < b[i];
                assert(i > 0);
                assert(x.take(i - 1) =~= a.take(i).skip(1));
                assert(y.take(i - 1) =~= b.take(i).skip(1));
            }
        } else {
            if a.is_prefix_of(b) {
                assert(a[0] == b.subrange(0, a.len() as int)[0]);
            }
            if exists|i: int|
                0 <= i < a.len() && i < b.len() && #[trigger] a.take(i) == b.take(i) && a[i]
                    < b[i] {
                let i = choose|i: int|
                    0 <= i < a.len() && i < b.len() && #[trigger] a.take(i) == b.take(i) && a[i]
                        < b[i];
                if i > 0 {
                    assert(a.take(i)[0] == b.take(i)[0]);
                }
            }
        }
    }
}

proof fn lemma_encode_concat(a: Seq<char>, b: Seq<char>)
    ensures
        encode_utf8(a + b) == encode_utf8(a) + encode_utf8(b),
    decreases a.len(),
{
    if a.len() == 0 {
        assert(a + b =~= b);
        assert(encode_utf8(a) + encode_utf8(b) =~= encode_utf8(b));
    } else {
        assert((a + b).drop_first() =~= a.drop_first() + b);
        lemma_encode_concat(a.drop_first(), b);
        assert(encode_utf8(a + b) =~= encode_utf8(a) + encode_utf8(b));
    }
}

proof fn lemma_boundary(a: Seq<char>, b: Seq<char>)
    ensures
        is_char_boundary(encode_utf8(a + b), encode_utf8(a).len() as int),
    decreases a.len(),
{
    let bytes = encode_utf8(a + b);
    encode_utf8_valid_utf8(a + b);
    lemma_encode_concat(a, b);
    if a.len() == 0 {
        is_char_boundary_start_end_of_seq(bytes);
    } else {
        let rest = a.drop_first() + b;
        assert((a + b).drop_first() =~= rest);
        encode_utf8_first_scalar(a + b);
        assert(pop_first_scalar(bytes) =~= encode_utf8(rest));
        lemma_boundary(a.drop_first(), b);
        assert(encode_utf8(a).len() == encode_scalar(a[0] as u32).len() + encode_utf8(
            a.drop_first(),
        ).len());
    }
}

/// The name of a directory is shown whole where it has fifty bytes at most. A longer one
/// is shown by its last forty-seven bytes behind three points, and can be shown exactly
/// where these are whole characters.
pub proof fn long_names_are_cut_in_front(dir: Seq<char>)
    ensures
        encode_utf8(dir).len() <= 50 ==> label_fits(dir) && label(dir) == dir,
        encode_utf8(dir).len() > 50 ==> {
            &&& label_fits(dir) <==> exists|head: Seq<char>, tail: Seq<char>| dir == #[trigger] (
            head + tail) && encode_utf8(tail).len() == 47
            &&& forall|head: Seq<char>, tail: Seq<char>|
                dir == #[trigger] (head + tail) && encode_utf8(tail).len() == 47 ==> label(dir)
                    == "..."@ + tail
        },
{
    let bytes = encode_utf8(dir);
    let n = bytes.len() - 47;
    if bytes.len() > 50 {
        encode_utf8_valid_utf8(dir);
        encode_utf8_decode_utf8(dir);
        if label_fits(dir) {
            let head = decode_utf8(bytes.subrange(0, n));
            let tail = decode_utf8(bytes.subrange(n, bytes.len() as int));
            valid_utf8_split(bytes, n);
            decode_utf8_split(bytes, n);
            decode_utf8_encode_utf8(bytes.subrange(n, bytes.len() as int));
            assert(dir == head + tail);
        }
        assert forall|head: Seq<char>, tail: Seq<char>| dir == #[trigger] (head + tail)
            && encode_utf8(tail).len() == 47 implies label_fits(dir) && label(dir) == "..."@
            + tail by {
            lemma_encode_concat(head, tail);
            lemma_boundary(head, tail);
            assert(bytes.skip(n) =~= encode_utf8(tail));
            encode_utf8_decode_utf8(tail);
        }
    }
}

/// The names of the files under a directory, in the order of the files.
pub open spec fn names_under(items: Seq<FileItem>, dir: Seq<char>) -> Seq<Seq<char>> {
    items.filter(|item: FileItem| item.dir == dir).map_values(|item: FileItem| item.name)
}

/// How many files have an extension.
pub open spec fn files_with(items: Seq<FileItem>, ext: Seq<char>) -> nat {
    items.filter(|item: FileItem| item.ext == ext).len()
}

proof fn lemma_names_under(items: Seq<FileItem>, dir: Seq<char>)
    ensures
        names_in(items, dir) == names_under(items, dir),
    decreases items.len(),
{
    let pred = |item: FileItem| item.dir == dir;
    if items.len() == 0 {
        items.lemma_filter_len(pred);
        assert(names_in(items, dir) =~= names_under(items, dir));
    } else {
        let fewer = items.drop_last();
        lemma_names_under(fewer, dir);
        fewer.lemma_filter_push(items.last(), pred);
        assert(fewer.push(items.last()) =~= items);
        assert(names_in(items, dir) =~= names_under(items, dir));
    }
}

proof fn lemma_files_with(items: Seq<FileItem>, ext: Seq<char>)
    ensures
        ext_count(items, ext) == files_with(items, ext),
    decreases items.len(),
{
    let pred = |item: FileItem| item.ext == ext;
    if items.len() == 0 {
        items.lemma_filter_len(pred);
    } else {
        let fewer = items.drop_last();
        lemma_files_with(fewer, ext);
        fewer.lemma_filter_push(items.last(), pred);
        assert(fewer.push(items.last()) =~= items);
    }
}

/// The names of all files, directory by directory.
pub open spec fn all_names(items: Seq<FileItem>, dirs: Seq<Seq<char>>) -> Seq<Seq<char>> {
    Seq::new(dirs.len(), |k: int| names_under(items, dirs[k])).flatten()
}

/// The lines that show the names `shown` of the first directories.
pub open spec fn name_lines(dirs: Seq<Seq<char>>, shown: Seq<Seq<Seq<char>>>) -> Seq<char> {
    Seq::new(
        shown.len(),
        |k: int| label(dirs[k]) + "/ "@ + text::joined(shown[k], " "@) + "\n"@,
    ).flatten()
}

/// Whether `shown` are the first names, at most `max` of them, directory by directory: all
/// names of each directory but the last, of which there may be only the first.
pub open spec fn are_first_names(
    shown: Seq<Seq<Seq<char>>>,
    items: Seq<FileItem>,
    dirs: Seq<Seq<char>>,
    max: nat,
) -> bool {
    &&& shown.len() <= dirs.len()
    &&& forall|k: int|
        0 <= k < shown.len() ==> (#[trigger] shown[k]).is_prefix_of(names_under(items, dirs[k]))
    &&& forall|k: int|
        0 <= k < shown.len() - 1 ==> #[trigger] shown[k] == names_under(items, dirs[k])
    &&& shown.flatten() == all_names(items, dirs).take(
        if all_names(items, dirs).len() <= max {
            all_names(items, dirs).len() as int
        } else {
            max as int
        },
    )
    &&& all_names(items, dirs).len() <= max ==> shown.len() == dirs.len() && forall|k: int|
        0 <= k < shown.len() ==> #[trigger] shown[k] == names_under(items, dirs[k])
}

/// The names that `listing` shows of each directory.
spec fn names_shown(items: Seq<FileItem>, dirs: Seq<Seq<char>>, budget: nat) -> Seq<
    Seq<Seq<char>>,
>
    decreases dirs.len(),
{
    if dirs.len() == 0 || budget == 0 {
        seq![]
    } else {
        let names = names_under(items, dirs[0]);
        if names.len() <= budget {
            seq![names] + names_shown(items, dirs.skip(1), (budget - names.len()) as nat)
        } else {
            seq![names.take(budget as int)]
        }
    }
}

proof fn lemma_name_lines(items: Seq<FileItem>, dirs: Seq<Seq<char>>, budget: nat)
    ensures
        names_shown(items, dirs, budget).len() <= dirs.len(),
        listing(items, dirs, budget) == name_lines(dirs, names_shown(items, dirs, budget)),
    decreases dirs.len(),
{
    let shown = names_shown(items, dirs, budget);
    let lines = Seq::new(
        shown.len(),
        |k: int| label(dirs[k]) + "/ "@ + text::joined(shown[k], " "@) + "\n"@,
    );
    if dirs.len() > 0 && budget > 0 {
        let names = names_under(items, dirs[0]);
        lemma_names_under(items, dirs[0]);
        if names.len() <= budget {
            let rest = dirs.skip(1);
            let left = (budget - names.len()) as nat;
            lemma_name_lines(items, rest, left);
            let later = names_shown(items, rest, left);
            let later_lines = Seq::new(
                later.len(),
                |k: int| label(rest[k]) + "/ "@ + text::joined(later[k], " "@) + "\n"@,
            );
            assert(lines.drop_first() =~= later_lines);
            assert(lines.first() == dir_line(dirs[0], names));
        } else {
            lines.lemma_flatten_one_element();
        }
    }
}

proof fn lemma_first_names(items: Seq<FileItem>, dirs: Seq<Seq<char>>, budget: nat)
    requires
        forall|k: int| 0 <= k < dirs.len() ==> names_under(items, #[trigger] dirs[k]).len() > 0,
    ensures
        are_first_names(names_shown(items, dirs, budget), items, dirs, budget),
    decreases dirs.len(),
{
    let shown = names_shown(items, dirs, budget);
    let per_dir = Seq::new(dirs.len(), |k: int| names_under(items, dirs[k]));
    let all = all_names(items, dirs);
    if dirs.len() == 0 {
        assert(all.take(0) =~= all);
        assert(shown.flatten() =~= all.take(0));
    } else {
        let names = names_under(items, dirs[0]);
        let rest = dirs.skip(1);
        assert(names.len() > 0);
        assert(per_dir.drop_first() =~= Seq::new(
            rest.len(),
            |k: int| names_under(items, rest[k]),
        ));
        assert(all == names + all_names(items, rest));
        if budget == 0 {
            assert(shown.flatten() =~= all.take(0));
        } else if names.len() <= budget {
            let left = (budget - names.len()) as nat;
            assert forall|k: int| 0 <= k < rest.len() implies names_under(
                items,
                #[trigger] rest[k],
            ).len() > 0 by {
                assert(rest[k] == dirs[k + 1]);
            }
            lemma_first_names(items, rest, left);
            let later = names_shown(items, rest, left);
            assert(shown.drop_first() =~= later);
            assert(shown.flatten() == names + later.flatten());
            let m: int = if all_names(items, rest).len() <= left {
                all_names(items, rest).len() as int
            } else {
                left as int
            };
            assert(all.take(names.len() + m) =~= names + all_names(items, rest).take(m));
            assert forall|k: int| 0 <= k < shown.len() implies (
            #[trigger] shown[k]).is_prefix_of(names_under(items, dirs[k])) by {
                if k > 0 {
                    assert(shown[k] == later[k - 1]);
                    assert(rest[k - 1] == dirs[k]);
                } else {
                    assert(names =~= names.subrange(0, names.len() as int));
                }
            }
            assert forall|k: int| 0 <= k < shown.len() && (k < shown.len() - 1 || all.len()
                <= budget) implies #[trigger] shown[k] == names_under(items, dirs[k]) by {
                if k > 0 {
                    assert(shown[k] == later[k - 1]);
                    assert(rest[k - 1] == dirs[k]);
                }
            }
        } else {
            shown.lemma_flatten_one_element();
            assert(all.take(budget as int) =~= names.take(budget as int));
            assert(names.take(budget as int) =~= names.subrange(0, budget as int));
        }
    }
}

proof fn lemma_all_names_len(items: Seq<FileItem>, dirs: Seq<Seq<char>>)
    ensures
        all_names(items, dirs).len() == name_count(items, dirs),
    decreases dirs.len(),
{
    if dirs.len() > 0 {
        let rest = dirs.skip(1);
        lemma_names_under(items, dirs[0]);
        lemma_all_names_len(items, rest);
        assert(Seq::new(dirs.len(), |k: int| names_under(items, dirs[k])).drop_first() =~= Seq::new(
            rest.len(),
            |k: int| names_under(items, rest[k]),
        ));
    }
}

/// Whether `dirs` are the directories of the files, each once, in ascending order.
pub open spec fn are_directories(dirs: Seq<Seq<char>>, items: Seq<FileItem>) -> bool {
    &&& dirs.no_duplicates()
    &&& forall|j: int, k: int| 0 <= j < k < dirs.len() ==> str_le(#[trigger] dirs[j], #[trigger] dirs[k])
    &&& forall|d: Seq<char>| #[trigger]
        dirs.contains(d) <==> exists|i: int| 0 <= i < items.len() && (#[trigger] items[i]).dir == d
}

/// Whether the extension `a` is shown before `b`: more files have it, or as many and one
/// of them comes before all that have `b`.
pub open spec fn shown_before(items: Seq<FileItem>, a: Seq<char>, b: Seq<char>) -> bool {
    ||| files_with(items, a) > files_with(items, b)
    ||| files_with(items, a) == files_with(items, b) && exists|i: int|
        0 <= i < items.len() && (#[trigger] items[i]).ext == a && forall|m: int|
            0 <= m <= i ==> (#[trigger] items[m]).ext != b
}

/// Whether `exts` are the extensions of the files, each once, the most frequent first.
pub open spec fn are_extensions(exts: Seq<Seq<char>>, items: Seq<FileItem>) -> bool {
    &&& exts.no_duplicates()
    &&& forall|e: Seq<char>| #[trigger]
        exts.contains(e) <==> exists|i: int| 0 <= i < items.len() && (#[trigger] items[i]).ext == e
    &&& forall|j: int, k: int|
        0 <= j < k < exts.len() ==> shown_before(items, #[trigger] exts[j], #[trigger] exts[k])
}

/// The line on the extensions: the first five of two or more, each behind a point and
/// with the number of its files.
pub open spec fn extension_text(exts: Seq<Seq<char>>, items: Seq<FileItem>) -> Seq<char> {
    if exts.len() > 1 {
        "\next: "@ + text::joined(
            Seq::new(
                if exts.len() < 5 {
                    exts.len()
                } else {
                    5
                },
                |k: int|
                    "."@ + exts[k] + "("@ + numbers::decimal(files_with(items, exts[k])) + ")"@,
            ),
            " "@,
        ) + "\n"@
    } else {
        seq![]
    }
}

/// Whether `out` is the report on `items` with these directories, names and extensions.
pub open spec fn is_report_with(
    out: Seq<char>,
    items: Seq<FileItem>,
    max: nat,
    dirs: Seq<Seq<char>>,
    shown: Seq<Seq<Seq<char>>>,
    exts: Seq<Seq<char>>,
) -> bool {
    &&& are_directories(dirs, items)
    &&& are_first_names(shown, items, dirs, max)
    &&& are_extensions(exts, items)
    &&& all_names(items, dirs).len() == items.len()
    &&& out == numbers::decimal(items.len()) + "F "@ + numbers::decimal(dirs.len()) + "D:\n\n"@
        + name_lines(dirs, shown) + (if shown.flatten().len() < items.len() {
        "+"@ + numbers::decimal((items.len() - shown.flatten().len()) as nat) + " more\n"@
    } else {
        seq![]
    }) + extension_text(exts, items)
}

proof fn lemma_extensions(exts: Seq<ExtCount>, items: Seq<FileItem>)
    requires
        is_ranking(exts, items),
    ensures
        are_extensions(ext_names(exts), items),
        ext_line(exts) == extension_text(ext_names(exts), items),
{
    let names = ext_names(exts);
    assert forall|j: int, k: int| 0 <= j < k < names.len() implies names[j] != names[k] by {
        assert(exts[j].ext@ != exts[k].ext@);
    }
    assert forall|e: Seq<char>| #[trigger] names.contains(e) <==> exists|i: int|
        0 <= i < items.len() && (#[trigger] items[i]).ext == e by {
        if names.contains(e) {
            let k = choose|k: int| 0 <= k < names.len() && names[k] == e;
            assert(counts(items, exts[k]));
            assert(items[exts[k].first as int].ext == e);
        }
        if exists|i: int| 0 <= i < items.len() && (#[trigger] items[i]).ext == e {
            let i = choose|i: int| 0 <= i < items.len() && (#[trigger] items[i]).ext == e;
            assert(has_ext(exts, items[i].ext));
            let k = choose|k: int| 0 <= k < exts.len() && (#[trigger] exts[k]).ext@ == e;
            assert(names[k] == e);
        }
    }
    assert forall|k: int| 0 <= k < exts.len() implies (#[trigger] exts[k]).count == files_with(
        items,
        exts[k].ext@,
    ) by {
        assert(counts(items, exts[k]));
        lemma_files_with(items, exts[k].ext@);
    }
    assert forall|j: int, k: int| 0 <= j < k < names.len() implies shown_before(
        items,
        #[trigger] names[j],
        #[trigger] names[k],
    ) by {
        let a = exts[j];
        let b = exts[k];
        assert(ranks_before(a, b));
        assert(counts(items, a) && counts(items, b));
        if a.count == b.count {
            let i = a.first as int;
            assert(items[i].ext == names[j]);
            assert forall|m: int| 0 <= m <= i implies (#[trigger] items[m]).ext != names[k] by {}
        }
    }
    let spelled = Seq::new(
        if names.len() < 5 {
            names.len()
        } else {
            5
        },
        |k: int| "."@ + names[k] + "("@ + numbers::decimal(files_with(items, names[k])) + ")"@,
    );
    let entries = ext_entries(exts);
    assert(entries.len() == spelled.len());
    assert forall|k: int| 0 <= k < entries.len() implies entries[k] == spelled[k] by {
        assert(exts[k].count == files_with(items, exts[k].ext@));
    }
    assert(entries =~= spelled);
}

proof fn lemma_directories(dirs: Seq<Seq<char>>, items: Seq<FileItem>)
    requires
        is_dir_list(dirs, items),
    ensures
        are_directories(dirs, items),
        forall|k: int| 0 <= k < dirs.len() ==> names_under(items, #[trigger] dirs[k]).len() > 0,
{
    assert forall|d: Seq<char>| #[trigger] dirs.contains(d) <==> exists|i: int|
        0 <= i < items.len() && (#[trigger] items[i]).dir == d by {
        if dirs.contains(d) {
            let k = choose|k: int| 0 <= k < dirs.len() && dirs[k] == d;
            assert(holds_a_file(items, dirs[k]));
        }
    }
    assert forall|k: int| 0 <= k < dirs.len() implies names_under(
        items,
        #[trigger] dirs[k],
    ).len() > 0 by {
        assert(holds_a_file(items, dirs[k]));
        let i = choose|i: int| 0 <= i < items.len() && (#[trigger] items[i]).dir == dirs[k];
        let pred = |item: FileItem| item.dir == dirs[k];
        items.lemma_filter_contains(pred, i);
        assert(items.filter(pred).len() > 0);
    }
}

/// What the report says, counted in its text. It gives the number of files and of
/// directories. Then the names are shown, under each directory those of its files, in
/// ascending order of the directories: the first names, at most as many as are allowed,
/// and all where no more are there. Then it gives how many names are missing, if any are,
/// and the most frequent extensions with the number of their files, if there are several.
/// Where nothing was found, it says so.
pub proof fn what_the_report_says(
    out: Seq<char>,
    items: Seq<FileItem>,
    pattern: Seq<char>,
    max: nat,
)
    requires
        is_report(out, items, pattern, max),
    ensures
        items.len() == 0 ==> out == "0 for '"@ + pattern + "'\n"@,
        items.len() > 0 ==> exists|
            dirs: Seq<Seq<char>>,
            shown: Seq<Seq<Seq<char>>>,
            exts: Seq<Seq<char>>,
        | #[trigger]
            is_report_with(out, items, max, dirs, shown, exts),
{
    let (dirs, exts) = choose|dirs: Seq<Seq<char>>, exts: Seq<ExtCount>|
        is_dir_list(dirs, items) && is_ranking(exts, items) && out == #[trigger] report_text(
            items,
            dirs,
            exts,
            pattern,
            max,
        );
    if items.len() > 0 {
        let shown = names_shown(items, dirs, max);
        let names = ext_names(exts);
        lemma_directories(dirs, items);
        lemma_first_names(items, dirs, max);
        lemma_name_lines(items, dirs, max);
        lemma_all_names_len(items, dirs);
        directories_share_out_the_files(items, dirs);
        lemma_extensions(exts, items);
        let rest = if shown.flatten().len() < items.len() {
            "+"@ + numbers::decimal((items.len() - shown.flatten().len()) as nat) + " more\n"@
        } else {
            seq![]
        };
        assert(rest_line(items.len(), max) == rest);
        assert(is_report_with(out, items, max, dirs, shown, names));
    }
}

/// A report comes out exactly where the name of every directory that it shows can be
/// shown. A directory is shown where fewer names than are allowed stand before it.
pub proof fn a_report_comes_out_where_names_can_be_cut(
    items: Seq<FileItem>,
    dirs: Seq<Seq<char>>,
    max: nat,
)
    requires
        are_directories(dirs, items),
    ensures
        report_fits(items, max) <==> forall|k: int|
            0 <= k < dirs.len() && all_names(items, #[trigger] dirs.take(k)).len() < max
                ==> label_fits(dirs[k]),
{
    assert(is_dir_list(dirs, items)) by {
        assert forall|i: int| 0 <= i < items.len() implies dirs.contains(
            (#[trigger] items[i]).dir,
        ) by {}
        assert forall|k: int| 0 <= k < dirs.len() implies holds_a_file(
            items,
            #[trigger] dirs[k],
        ) by {
            assert(dirs.contains(dirs[k]));
        }
    }
    lemma_labels_fit(items, dirs, max);
    assert(report_fits(items, max) ==> labels_fit(items, dirs, max));
    if labels_fit(items, dirs, max) {
        assert forall|other: Seq<Seq<char>>| is_dir_list(other, items) implies #[trigger] labels_fit(
            items,
            other,
            max,
        ) by {
            lemma_dir_list_unique(other, dirs, items);
        }
    }
}

proof fn lemma_labels_fit(items: Seq<FileItem>, dirs: Seq<Seq<char>>, budget: nat)
    ensures
        labels_fit(items, dirs, budget) <==> forall|k: int|
            0 <= k < dirs.len() && all_names(items, #[trigger] dirs.take(k)).len() < budget
                ==> label_fits(dirs[k]),
    decreases dirs.len(),
{
    if dirs.len() > 0 {
        let names = names_under(items, dirs[0]);
        let rest = dirs.skip(1);
        lemma_names_under(items, dirs[0]);
        assert(dirs.take(0) =~= seq![]);
        assert(all_names(items, dirs.take(0)).len() == 0);
        assert forall|k: int| 0 <= k < rest.len() implies all_names(
            items,
            #[trigger] dirs.take(k + 1),
        ).len() == names.len() + all_names(items, rest.take(k)).len() by {
            let more = dirs.take(k + 1);
            let less = rest.take(k);
            assert(Seq::new(more.len(), |j: int| names_under(items, more[j])).drop_first()
                =~= Seq::new(less.len(), |j: int| names_under(items, less[j])));
        }
        if names.len() <= budget {
            let left = (budget - names.len()) as nat;
            lemma_labels_fit(items, rest, left);
            if labels_fit(items, dirs, budget) && budget > 0 {
                assert forall|k: int|
                    0 <= k < dirs.len() && all_names(items, #[trigger] dirs.take(k)).len()
                        < budget implies label_fits(dirs[k]) by {
                    if k > 0 {
                        assert(dirs.take(k - 1 + 1) == dirs.take(k));
                        assert(all_names(items, rest.take(k - 1)).len() < left);
                        assert(rest[k - 1] == dirs[k]);
                    }
                }
            }
            if forall|k: int|
                0 <= k < dirs.len() && all_names(items, #[trigger] dirs.take(k)).len() < budget
                    ==> label_fits(dirs[k]) {
                assert forall|k: int|
                    0 <= k < rest.len() && all_names(items, #[trigger] rest.take(k)).len()
                        < left implies label_fits(rest[k]) by {
                    assert(all_names(items, dirs.take(k + 1)).len() < budget);
                    assert(rest[k] == dirs[k + 1]);
                }
                assert(budget > 0 ==> label_fits(dirs[0]));
            }
        } else {
            assert forall|k: int|
                0 < k < dirs.len() implies all_names(items, #[trigger] dirs.take(k)).len()
                    >= budget by {
                assert(dirs.take(k - 1 + 1) == dirs.take(k));
                assert(all_names(items, rest.take(k - 1)).len() >= 0);
            }
            assert(labels_fit(items, dirs, budget) ==> budget > 0 ==> label_fits(dirs[0]));
        }
    }
}

} // verus!
