//! The parts of a path that is given as text.
//!
//! How a path splits depends on the platform in two points: on Windows `\` separates
//! too, and a path may begin with a drive or with the name of a server. What is stated
//! here holds on every platform, of the paths without these.

use vstd::prelude::*;
use vstd::utf8::*;

use crate::listing::FoundFile;
use crate::text;

verus! {

// ---------------------------------------------------------------------------
// The text of a path
// ---------------------------------------------------------------------------

/// Whether `c` is one of the letters that can name a drive.
pub open spec fn is_letter(c: char) -> bool {
    'a' <= c <= 'z' || 'A' <= c <= 'Z'
}

/// Whether `path` is read alike on every platform: it holds no backslash and begins
/// neither with a drive nor with two slashes.
pub open spec fn portable(path: Seq<char>) -> bool {
    &&& !path.contains('\\')
    &&& !(path.len() > 1 && is_letter(path[0]) && path[1] == ':')
    &&& !(path.len() > 1 && path[0] == '/' && path[1] == '/')
}

/// What stands between the slashes of a path.
pub open spec fn segments(path: Seq<char>) -> Seq<Seq<char>>
    decreases path.len(),
{
    if path.len() == 0 {
        seq![seq![]]
    } else {
        let front = segments(path.drop_last());
        if path.last() == '/' {
            front.push(seq![])
        } else {
            front.drop_last().push(front.last().push(path.last()))
        }
    }
}

/// Whether `parts`, joined by slashes, make `path`, and hold no slash themselves.
pub open spec fn segments_are(path: Seq<char>, parts: Seq<Seq<char>>) -> bool {
    &&& parts.len() > 0
    &&& forall|k: int| 0 <= k < parts.len() ==> !(#[trigger] parts[k]).contains('/')
    &&& path == text::joined(parts, "/"@)
}

/// How a path begins: with a slash, with a point, or with anything else.
pub enum Lead {
    Root,
    Current,
    Relative,
}

/// How the path with the segments `parts` begins.
pub open spec fn lead(parts: Seq<Seq<char>>) -> Lead {
    if parts.len() > 1 && parts[0].len() == 0 {
        Lead::Root
    } else if parts.len() > 0 && parts[0] == "."@ {
        Lead::Current
    } else {
        Lead::Relative
    }
}

/// Whether a segment is a component wherever it stands. An empty one, from repeated
/// or final slashes, never is, and a point only at the beginning.
pub open spec fn is_solid(segment: Seq<char>) -> bool {
    segment.len() > 0 && segment != "."@
}

/// The segments that are components wherever they stand.
pub open spec fn solids(parts: Seq<Seq<char>>) -> Seq<Seq<char>>
    decreases parts.len(),
{
    if parts.len() == 0 {
        seq![]
    } else if is_solid(parts.last()) {
        solids(parts.drop_last()).push(parts.last())
    } else {
        solids(parts.drop_last())
    }
}

/// The segments without those at the end that are no components.
pub open spec fn trim_tail(parts: Seq<Seq<char>>) -> Seq<Seq<char>>
    decreases parts.len(),
{
    if parts.len() == 0 || is_solid(parts.last()) {
        parts
    } else {
        trim_tail(parts.drop_last())
    }
}

/// The segments from the component on that `n` others stand before.
pub open spec fn skip_solids(parts: Seq<Seq<char>>, n: nat) -> Seq<Seq<char>>
    decreases parts.len(),
{
    if parts.len() == 0 {
        seq![]
    } else if !is_solid(parts[0]) {
        skip_solids(parts.skip(1), n)
    } else if n == 0 {
        parts
    } else {
        skip_solids(parts.skip(1), (n - 1) as nat)
    }
}

/// The last component of a path, where that is a name.
pub open spec fn file_name_of(parts: Seq<Seq<char>>) -> Option<Seq<char>> {
    let kept = trim_tail(parts);
    if kept.len() == 0 || kept.last() == ".."@ {
        None
    } else {
        Some(kept.last())
    }
}

/// A path without its last component. The root has no parent, nor has the empty path.
pub open spec fn parent_of(parts: Seq<Seq<char>>) -> Option<Seq<char>> {
    let kept = trim_tail(parts);
    if kept.len() == 0 {
        if lead(parts) is Current {
            Some(seq![])
        } else {
            None
        }
    } else {
        let above = trim_tail(kept.drop_last());
        Some(
            if above.len() > 0 {
                text::joined(above, "/"@)
            } else {
                match lead(parts) {
                    Lead::Root => "/"@,
                    Lead::Current => "."@,
                    Lead::Relative => seq![],
                }
            },
        )
    }
}

/// The last position of `c` in `s`, or -1.
pub open spec fn last_position(s: Seq<char>, c: char) -> int
    decreases s.len(),
{
    if s.len() == 0 {
        -1
    } else if s.last() == c {
        s.len() - 1
    } else {
        last_position(s.drop_last(), c)
    }
}

/// What stands behind the last point of a file name, if the name has a point that
/// is not its first character.
pub open spec fn extension_of(name: Seq<char>) -> Option<Seq<char>> {
    if last_position(name, '.') > 0 {
        Some(name.skip(last_position(name, '.') + 1))
    } else {
        None
    }
}

/// The extension of the last component of a path, where that is a name.
pub open spec fn path_extension_of(parts: Seq<Seq<char>>) -> Option<Seq<char>> {
    match file_name_of(parts) {
        Some(name) => extension_of(name),
        None => None,
    }
}

/// Whether `parts` are the segments of the empty path.
pub open spec fn is_empty_path(parts: Seq<Seq<char>>) -> bool {
    parts.len() == 1 && parts[0].len() == 0
}

/// Whether a path begins with the components of `root`. The empty root has none.
pub open spec fn starts_with_root(parts: Seq<Seq<char>>, root: Seq<Seq<char>>) -> bool {
    is_empty_path(root) || lead(parts) == lead(root) && solids(root).is_prefix_of(solids(parts))
}

/// A path without what stands behind its last component.
pub open spec fn without_tail(parts: Seq<Seq<char>>) -> Seq<char> {
    let kept = trim_tail(parts);
    if kept.len() > 0 {
        text::joined(kept, "/"@)
    } else {
        match lead(parts) {
            Lead::Root => "/"@,
            Lead::Current => "."@,
            Lead::Relative => seq![],
        }
    }
}

/// A path, seen from `root`: what stands behind the components of `root`, if the path
/// begins with them. Seen from the empty root it is whole.
pub open spec fn below(parts: Seq<Seq<char>>, root: Seq<Seq<char>>) -> Option<Seq<char>> {
    if is_empty_path(root) {
        Some(without_tail(parts))
    } else if starts_with_root(parts, root) {
        Some(text::joined(trim_tail(skip_solids(parts, solids(root).len())), "/"@))
    } else {
        None
    }
}

/// How many components a path has: a slash or a point that it begins with is one, and
/// each segment is one that is neither empty nor a point.
pub open spec fn component_total(parts: Seq<Seq<char>>) -> nat {
    solids(parts).len() + if lead(parts) is Relative {
        0nat
    } else {
        1nat
    }
}

/// How many components a path has that is joined to `base`. One that begins with a
/// slash takes the place of `base`.
pub open spec fn joined_total(base: Seq<Seq<char>>, parts: Seq<Seq<char>>) -> nat {
    if lead(parts) is Root {
        component_total(parts)
    } else {
        component_total(base) + solids(parts).len()
    }
}

// ---------------------------------------------------------------------------
// The paths of the standard library, whose contracts are taken as given
// ---------------------------------------------------------------------------

/// `Path::parent`: the path without its last component. What a path counts as that is
/// not portable is left to the platform.
#[verifier::external_body]
fn path_parent(path: &str) -> (parent: Option<String>)
    ensures
        portable(path@) ==> text::opt_view(parent) == parent_of(segments(path@)),
{
    std::path::Path::new(path).parent().map(|p| p.to_string_lossy().to_string())
}

/// `Path::file_name`: the last component of the path, where that is a name. What a path
/// counts as that is not portable is left to the platform.
#[verifier::external_body]
pub(crate) fn path_file_name(path: &str) -> (name: Option<String>)
    ensures
        portable(path@) ==> text::opt_view(name) == file_name_of(segments(path@)),
{
    std::path::Path::new(path).file_name().map(|n| n.to_string_lossy().to_string())
}

/// `Path::extension`: what stands behind the last point of the file name. A name
/// without a point has no extension, nor has one whose only point comes first. What a
/// path counts as that is not portable is left to the platform.
#[verifier::external_body]
fn path_extension(path: &str) -> (extension: Option<String>)
    ensures
        portable(path@) ==> text::opt_view(extension) == path_extension_of(segments(path@)),
{
    std::path::Path::new(path).extension().map(|e| e.to_string_lossy().to_string())
}

/// `Path::strip_prefix`: what is left of the path behind `root`. Whole components are
/// matched, and a path that does not begin with those of `root` leaves nothing. Every
/// path begins with those of the empty root. What a path counts as that is not portable
/// is left to the platform.
#[verifier::external_body]
pub(crate) fn path_strip_prefix(path: &str, root: &str) -> (rest: Option<String>)
    ensures
        portable(path@) && portable(root@) ==> text::opt_view(rest) == below(
            segments(path@),
            segments(root@),
        ),
{
    std::path::Path::new(path).strip_prefix(root).ok().map(|p| p.to_string_lossy().to_string())
}

/// `Path::components`, counted: repeated and final slashes and points make no
/// component, but for a slash or a point at the beginning. What a path counts as that
/// is not portable is left to the platform.
#[verifier::external_body]
pub(crate) fn component_count(path: &str) -> (n: usize)
    ensures
        portable(path@) ==> n == component_total(segments(path@)),
{
    std::path::Path::new(path).components().count()
}

/// `Path::join`, with the components of the joined path counted: those of the base and
/// of the path, without a point that the path begins with. A path that begins with a
/// slash takes the place of the base, which has no drive that would stay. What a path
/// counts as that is not portable is left to the platform.
#[verifier::external_body]
pub(crate) fn joined_component_count(base: &str, path: &str) -> (n: usize)
    ensures
        portable(base@) && portable(path@) && base@.len() > 0 ==> n == joined_total(
            segments(base@),
            segments(path@),
        ),
{
    std::path::Path::new(base).join(path).components().count()
}

/// `Path::is_absolute`: whether the path names a place by itself. One that begins
/// neither with a slash nor with a drive does not; whether one that does begin with a
/// slash names a place depends on the platform.
#[verifier::external_body]
pub(crate) fn is_absolute(path: &str) -> (yes: bool)
    ensures
        portable(path@) && !(lead(segments(path@)) is Root) ==> !yes,
{
    std::path::Path::new(path).is_absolute()
}

/// Whether `f` is its path taken apart.
pub open spec fn is_split(f: FoundFile) -> bool {
    portable(f.path@) ==> {
        let parts = segments(f.path@);
        &&& text::opt_view(f.parent) == parent_of(parts)
        &&& text::opt_view(f.file_name) == file_name_of(parts)
        &&& text::opt_view(f.extension) == path_extension_of(parts)
    }
}

/// Takes the path of a file apart.
pub fn split_path(path: String) -> (file: FoundFile)
    ensures
        file.path == path,
        is_split(file),
{
    let parent: Option<String> = path_parent(path.as_str());
    let file_name: Option<String> = path_file_name(path.as_str());
    let extension: Option<String> = path_extension(path.as_str());
    FoundFile { path, parent, file_name, extension }
}

// ---------------------------------------------------------------------------
// Segments
// ---------------------------------------------------------------------------

/// The segments of a path, joined by slashes, make the path, and hold no slash.
pub proof fn segments_make_the_path(path: Seq<char>)
    ensures
        segments_are(path, segments(path)),
    decreases path.len(),
{
    reveal_strlit("/");
    if path.len() == 0 {
        assert(text::joined(segments(path), "/"@) =~= path);
    } else {
        let front = segments(path.drop_last());
        let now = segments(path);
        segments_make_the_path(path.drop_last());
        assert(path =~= path.drop_last().push(path.last()));
        if path.last() == '/' {
            assert(now.drop_last() =~= front);
            assert(text::joined(now, "/"@) =~= path);
        } else {
            assert(now.drop_last() =~= front.drop_last());
            assert(!front.last().contains('/'));
            assert forall|k: int| 0 <= k < now.len() implies !(#[trigger] now[k]).contains('/') by {
                if k < now.len() - 1 {
                    assert(now[k] == front[k]);
                } else {
                    assert forall|i: int| 0 <= i < now[k].len() implies now[k][i] != '/' by {
                        if i < front.last().len() {
                            assert(now[k][i] == front.last()[i]);
                            assert(front.last().contains(front.last()[i]));
                        }
                    }
                }
            }
            assert(text::joined(now, "/"@) =~= path);
        }
    }
}

/// There is one way only to make a path of segments that hold no slash.
pub proof fn segments_are_unique(path: Seq<char>, parts: Seq<Seq<char>>)
    requires
        segments_are(path, parts),
    ensures
        parts == segments(path),
    decreases path.len(),
{
    reveal_strlit("/");
    let last = parts.last();
    let front = parts.drop_last();
    assert(!last.contains('/')) by {
        assert(parts[parts.len() - 1] == last);
    }
    if path.len() == 0 {
        assert(parts.len() == 1);
        assert(parts[0] =~= seq![]);
        assert(parts =~= seq![Seq::<char>::empty()]);
    } else if last.len() == 0 {
        assert(parts.len() > 1);
        assert(path.drop_last() =~= text::joined(front, "/"@));
        assert(path.last() == '/');
        assert forall|k: int| 0 <= k < front.len() implies !(#[trigger] front[k]).contains('/') by {
            assert(front[k] == parts[k]);
        }
        segments_are_unique(path.drop_last(), front);
        assert(last =~= seq![]);
        assert(parts =~= front.push(last));
    } else {
        let shorter = front.push(last.drop_last());
        assert(path.last() == last.last());
        assert(last.contains(last.last()));
        assert(shorter.drop_last() =~= front);
        assert(text::joined(shorter, "/"@) =~= path.drop_last());
        assert forall|k: int| 0 <= k < shorter.len() implies !(
        #[trigger] shorter[k]).contains('/') by {
            if k < front.len() {
                assert(shorter[k] == parts[k]);
            } else {
                assert forall|i: int| 0 <= i < shorter[k].len() implies shorter[k][i] != '/' by {
                    assert(last.contains(last[i]));
                }
            }
        }
        segments_are_unique(path.drop_last(), shorter);
        assert(last.drop_last().push(last.last()) =~= last);
        assert(parts =~= front.push(last));
    }
}

// ---------------------------------------------------------------------------
// Laws
// ---------------------------------------------------------------------------

proof fn lemma_joined_concat(a: Seq<Seq<char>>, b: Seq<Seq<char>>)
    requires
        a.len() > 0,
        b.len() > 0,
    ensures
        text::joined(a + b, "/"@) == text::joined(a, "/"@) + "/"@ + text::joined(b, "/"@),
    decreases b.len(),
{
    assert((a + b).drop_last() =~= a + b.drop_last());
    assert((a + b).last() == b.last());
    if b.len() == 1 {
        assert(a + b.drop_last() =~= a);
    } else {
        lemma_joined_concat(a, b.drop_last());
        assert(text::joined(a + b, "/"@) =~= text::joined(a, "/"@) + "/"@ + text::joined(b, "/"@));
    }
}

proof fn lemma_solids_concat(a: Seq<Seq<char>>, b: Seq<Seq<char>>)
    ensures
        solids(a + b) == solids(a) + solids(b),
    decreases b.len(),
{
    if b.len() == 0 {
        assert(a + b =~= a);
        assert(solids(a) + solids(b) =~= solids(a));
    } else {
        lemma_solids_concat(a, b.drop_last());
        assert((a + b).drop_last() =~= a + b.drop_last());
        assert(solids(a + b) =~= solids(a) + solids(b));
    }
}

proof fn lemma_solids_first(parts: Seq<Seq<char>>)
    requires
        parts.len() > 0,
    ensures
        solids(parts) == if is_solid(parts[0]) {
            seq![parts[0]] + solids(parts.skip(1))
        } else {
            solids(parts.skip(1))
        },
{
    let first = seq![parts[0]];
    lemma_solids_concat(first, parts.skip(1));
    assert(first + parts.skip(1) =~= parts);
    assert(first.drop_last() =~= seq![]);
    assert(solids(first.drop_last()) =~= seq![]);
    if is_solid(parts[0]) {
        assert(solids(first) =~= first);
    } else {
        assert(solids(first) + solids(parts.skip(1)) =~= solids(parts.skip(1)));
    }
}

proof fn lemma_all_solid(parts: Seq<Seq<char>>)
    requires
        forall|k: int| 0 <= k < parts.len() ==> is_solid(#[trigger] parts[k]),
    ensures
        solids(parts) == parts,
    decreases parts.len(),
{
    if parts.len() == 0 {
        assert(solids(parts) =~= parts);
    } else {
        let fewer = parts.drop_last();
        assert forall|k: int| 0 <= k < fewer.len() implies is_solid(#[trigger] fewer[k]) by {
            assert(fewer[k] == parts[k]);
        }
        lemma_all_solid(fewer);
        assert(is_solid(parts[parts.len() - 1]));
        assert(fewer.push(parts.last()) =~= parts);
    }
}

/// What stands behind the components of `top` in `top + rest`.
proof fn lemma_skip_all(top: Seq<Seq<char>>, rest: Seq<Seq<char>>)
    requires
        rest.len() > 0,
        is_solid(rest[0]),
    ensures
        skip_solids(top + rest, solids(top).len()) == rest,
    decreases top.len(),
{
    let parts = top + rest;
    if top.len() == 0 {
        assert(parts =~= rest);
        assert(solids(top).len() == 0);
    } else {
        lemma_solids_first(top);
        assert(parts.skip(1) =~= top.skip(1) + rest);
        assert(parts[0] == top[0]);
        lemma_skip_all(top.skip(1), rest);
    }
}

/// Whether `path` is `root` and behind it `rest`, with one slash between.
pub open spec fn is_path_below(path: Seq<char>, root: Seq<char>, rest: Seq<Seq<char>>) -> bool {
    ||| path == root + "/"@ + text::joined(rest, "/"@)
    ||| root.len() > 0 && root.last() == '/' && path == root + text::joined(rest, "/"@)
}

/// A path that goes on behind a root with the components `rest` ends in the last of
/// them, and they are what is seen of it from the root.
pub proof fn paths_below_a_root(path: Seq<char>, root: Seq<char>, rest: Seq<Seq<char>>)
    requires
        root.len() > 0,
        rest.len() > 0,
        forall|k: int|
            0 <= k < rest.len() ==> is_solid(#[trigger] rest[k]) && !rest[k].contains('/')
                && rest[k] != ".."@,
        is_path_below(path, root, rest),
    ensures
        below(segments(path), segments(root)) == Some(text::joined(rest, "/"@)),
        file_name_of(segments(path)) == Some(rest.last()),
{
    reveal_strlit("/");
    let all = segments(root);
    segments_make_the_path(root);
    if all.len() == 1 {
        assert(all[0] == root);
        assert(!root.contains('/')) by {
            assert(!all[0].contains('/'));
        }
        if root.last() == '/' {
            assert(root.contains(root.last()));
        }
    }
    let shorter = path != root + "/"@ + text::joined(rest, "/"@);
    let top = if shorter {
        all.drop_last()
    } else {
        all
    };
    if shorter {
        assert(all.last().len() == 0);
        assert(root =~= text::joined(top, "/"@) + "/"@ + all.last());
        assert(root =~= text::joined(top, "/"@) + "/"@);
        assert(all =~= top.push(all.last()));
    }
    assert forall|k: int| 0 <= k < (top + rest).len() implies !(#[trigger] (top
        + rest)[k]).contains('/') by {
        if k < top.len() {
            assert((top + rest)[k] == all[k]);
        } else {
            assert((top + rest)[k] == rest[k - top.len()]);
        }
    }
    lemma_joined_concat(top, rest);
    assert(path =~= text::joined(top + rest, "/"@));
    segments_are_unique(path, top + rest);
    let parts = segments(path);
    assert(is_solid(rest[0]));
    assert(is_solid(rest[rest.len() - 1]));
    lemma_solids_concat(top, rest);
    assert(solids(all) == solids(top));
    assert(solids(top).is_prefix_of(solids(parts)));
    lemma_skip_all(top, rest);
    assert(trim_tail(rest) == rest);
    assert(parts.last() == rest.last());
    assert(parts[0] == all[0]);
    assert(lead(parts) == lead(all));
    assert(rest.last() == rest[rest.len() - 1]);
}

proof fn lemma_skip_solids(parts: Seq<Seq<char>>, n: nat)
    requires
        n <= solids(parts).len(),
    ensures
        solids(skip_solids(parts, n)) == solids(parts).skip(n as int),
        skip_solids(parts, n).len() <= parts.len(),
        forall|k: int|
            0 <= k < skip_solids(parts, n).len() ==> parts.contains(
                #[trigger] skip_solids(parts, n)[k],
            ),
    decreases parts.len(),
{
    if parts.len() == 0 {
        assert(solids(parts).skip(n as int) =~= solids(parts));
    } else {
        let rest = parts.skip(1);
        lemma_solids_first(parts);
        if is_solid(parts[0]) && n == 0 {
            assert(solids(parts).skip(0) =~= solids(parts));
        } else {
            let m = if is_solid(parts[0]) {
                (n - 1) as nat
            } else {
                n
            };
            lemma_skip_solids(rest, m);
            assert(solids(rest).skip(m as int) =~= solids(parts).skip(n as int));
            let left = skip_solids(rest, m);
            assert forall|k: int| 0 <= k < left.len() implies parts.contains(
                #[trigger] left[k],
            ) by {
                let j = choose|j: int| 0 <= j < rest.len() && rest[j] == left[k];
                assert(parts[j + 1] == left[k]);
            }
        }
    }
}

proof fn lemma_trim_tail(parts: Seq<Seq<char>>)
    ensures
        solids(trim_tail(parts)) == solids(parts),
        trim_tail(parts).len() <= parts.len(),
        trim_tail(parts) == parts.take(trim_tail(parts).len() as int),
    decreases parts.len(),
{
    if parts.len() > 0 && !is_solid(parts.last()) {
        lemma_trim_tail(parts.drop_last());
        let n = trim_tail(parts).len() as int;
        assert(parts.drop_last().take(n) =~= parts.take(n));
    } else {
        assert(parts.take(parts.len() as int) =~= parts);
    }
}

/// Segments of a path, joined, are the segments of what they make.
proof fn lemma_joined_segments(path: Seq<char>, rest: Seq<Seq<char>>)
    requires
        rest.len() > 0,
        forall|k: int| 0 <= k < rest.len() ==> segments(path).contains(#[trigger] rest[k]),
    ensures
        segments(text::joined(rest, "/"@)) == rest,
{
    let parts = segments(path);
    segments_make_the_path(path);
    assert forall|k: int| 0 <= k < rest.len() implies !(#[trigger] rest[k]).contains('/') by {
        assert(parts.contains(rest[k]));
        let j = choose|j: int| 0 <= j < parts.len() && parts[j] == rest[k];
        assert(!parts[j].contains('/'));
    }
    segments_are_unique(text::joined(rest, "/"@), rest);
}

/// The segments of the paths that have no name in them.
proof fn lemma_nameless_segments()
    ensures
        segments(Seq::<char>::empty()) == seq![Seq::<char>::empty()],
        segments("."@) == seq!["."@],
        segments("/"@) == seq![Seq::<char>::empty(), Seq::<char>::empty()],
{
    reveal_strlit(".");
    reveal_strlit("/");
    segments_are_unique("."@, seq!["."@]);
    let root = seq![Seq::<char>::empty(), Seq::<char>::empty()];
    assert(root.drop_last() =~= seq![Seq::<char>::empty()]);
    assert(text::joined(root.drop_last(), "/"@) =~= Seq::<char>::empty());
    assert(text::joined(root, "/"@) =~= "/"@);
    segments_are_unique("/"@, root);
}

proof fn lemma_no_solids(parts: Seq<Seq<char>>)
    requires
        forall|k: int| 0 <= k < parts.len() ==> !is_solid(#[trigger] parts[k]),
    ensures
        solids(parts).len() == 0,
    decreases parts.len(),
{
    if parts.len() > 0 {
        let fewer = parts.drop_last();
        assert forall|k: int| 0 <= k < fewer.len() implies !is_solid(#[trigger] fewer[k]) by {
            assert(fewer[k] == parts[k]);
        }
        lemma_no_solids(fewer);
        assert(!is_solid(parts[parts.len() - 1]));
    }
}

/// A path without its tail has the same components.
proof fn lemma_without_tail(path: Seq<char>)
    ensures
        solids(segments(without_tail(segments(path)))) == solids(segments(path)),
        lead(segments(without_tail(segments(path)))) == lead(segments(path)),
{
    let parts = segments(path);
    let kept = trim_tail(parts);
    let whole = without_tail(parts);
    lemma_trim_tail(parts);
    lemma_nameless_segments();
    segments_make_the_path(path);
    if kept.len() > 0 {
        assert forall|k: int| 0 <= k < kept.len() implies parts.contains(#[trigger] kept[k]) by {
            assert(kept[k] == parts[k]);
        }
        lemma_joined_segments(path, kept);
        assert(kept[0] == parts[0]);
        lemma_trimmed_end(parts);
    } else {
        let some = segments(whole);
        assert(solids(kept).len() == 0);
        reveal_strlit(".");
        assert forall|k: int| 0 <= k < some.len() implies !is_solid(#[trigger] some[k]) by {}
        lemma_no_solids(some);
        assert(solids(some) =~= solids(parts));
    }
}

/// The last segment that trimming keeps is a component.
proof fn lemma_trimmed_end(parts: Seq<Seq<char>>)
    ensures
        trim_tail(parts).len() > 0 ==> is_solid(trim_tail(parts).last()) && solids(parts).len() > 0,
        trim_tail(parts).len() == 0 ==> solids(parts).len() == 0,
    decreases parts.len(),
{
    if parts.len() > 0 && !is_solid(parts.last()) {
        lemma_trimmed_end(parts.drop_last());
    }
}

/// Segments that end in a component make a text that is not empty.
proof fn lemma_joined_not_empty(parts: Seq<Seq<char>>)
    requires
        parts.len() > 0,
        is_solid(parts.last()),
    ensures
        text::joined(parts, "/"@).len() > 0,
{
}

/// The components of a root, followed by those of what is seen from it, are those of
/// the path. Nothing is left to see exactly where path and root have the same
/// components.
pub proof fn root_and_rest_make_the_path(path: Seq<char>, root: Seq<char>)
    requires
        below(segments(path), segments(root)) is Some,
    ensures
        ({
            let rel = below(segments(path), segments(root))->0;
            &&& lead(segments(path)) == if root.len() == 0 {
                lead(segments(rel))
            } else {
                lead(segments(root))
            }
            &&& solids(segments(path)) == solids(segments(root)) + solids(segments(rel))
            &&& rel.len() == 0 <==> lead(segments(path)) == lead(segments(root)) && solids(
                segments(path),
            ) == solids(segments(root))
        }),
{
    let parts = segments(path);
    let top = segments(root);
    let rel = below(parts, top)->0;
    let n = solids(top).len();
    segments_make_the_path(root);
    segments_make_the_path(path);
    lemma_nameless_segments();
    lemma_trimmed_end(parts);
    reveal_strlit(".");
    reveal_strlit("/");
    if root.len() == 0 {
        assert(root =~= Seq::<char>::empty());
        assert(is_empty_path(top));
        lemma_no_solids(top);
        lemma_without_tail(path);
        assert(solids(top) + solids(segments(rel)) =~= solids(segments(rel)));
        if trim_tail(parts).len() > 0 {
            lemma_joined_not_empty(trim_tail(parts));
        } else {
            assert(solids(parts) =~= solids(top));
        }
    } else {
        if is_empty_path(top) {
            assert(root.len() == 0);
        }
        let left = skip_solids(parts, n);
        let rest = trim_tail(left);
        lemma_skip_solids(parts, n);
        lemma_trim_tail(left);
        lemma_trimmed_end(left);
        assert(solids(parts) =~= solids(top) + solids(parts).skip(n as int));
        if rest.len() == 0 {
            assert(rel =~= seq![]);
            lemma_no_solids(segments(rel));
            assert(solids(segments(rel)) =~= solids(rest));
            assert(solids(parts) =~= solids(top));
        } else {
            assert forall|k: int| 0 <= k < rest.len() implies parts.contains(
                #[trigger] rest[k],
            ) by {
                assert(rest[k] == left[k]);
            }
            lemma_joined_segments(path, rest);
            lemma_joined_not_empty(rest);
            assert(solids(rest).len() > 0);
        }
    }
}

proof fn lemma_joined_take(parts: Seq<Seq<char>>, n: int)
    requires
        0 < n <= parts.len(),
    ensures
        text::joined(parts.take(n), "/"@).is_prefix_of(text::joined(parts, "/"@)),
    decreases parts.len(),
{
    let whole = text::joined(parts, "/"@);
    if n == parts.len() {
        assert(parts.take(n) =~= parts);
        assert(whole =~= whole.subrange(0, whole.len() as int));
    } else {
        lemma_joined_take(parts.drop_last(), n);
        assert(parts.drop_last().take(n) =~= parts.take(n));
        let part = text::joined(parts.take(n), "/"@);
        assert(whole == text::joined(parts.drop_last(), "/"@) + "/"@ + parts.last());
        assert(part =~= whole.subrange(0, part.len() as int));
    }
}

/// The parent of a path of ASCII characters is made of ASCII characters.
pub proof fn parents_of_ascii_paths(path: Seq<char>)
    requires
        is_ascii_chars(path),
    ensures
        parent_of(segments(path)) is Some ==> is_ascii_chars(parent_of(segments(path))->0),
{
    reveal_strlit("/");
    reveal_strlit(".");
    let parts = segments(path);
    let kept = trim_tail(parts);
    segments_make_the_path(path);
    lemma_trim_tail(parts);
    if kept.len() > 0 {
        let above = trim_tail(kept.drop_last());
        lemma_trim_tail(kept.drop_last());
        if above.len() > 0 {
            let n = above.len() as int;
            assert(above =~= parts.take(n));
            lemma_joined_take(parts, n);
            let parent = text::joined(above, "/"@);
            assert forall|i: int| 0 <= i < parent.len() implies '\0' <= #[trigger] parent[i]
                <= '\u{7f}' by {
                assert(parent[i] == path.subrange(0, parent.len() as int)[i]);
                assert(path[i] == parent[i]);
            }
        }
    }
}

/// Whether `name` names something in a directory.
pub open spec fn is_name(name: Seq<char>) -> bool {
    name.len() > 0 && name != "."@ && name != ".."@ && !name.contains('/')
}

/// The segments of a path with `part` behind it and a slash between.
proof fn lemma_segments_behind(path: Seq<char>, part: Seq<char>)
    ensures
        segments(path + "/"@ + part) == segments(path) + segments(part),
{
    let a = segments(path);
    let b = segments(part);
    segments_make_the_path(path);
    segments_make_the_path(part);
    lemma_joined_concat(a, b);
    assert forall|k: int| 0 <= k < (a + b).len() implies !(#[trigger] (a + b)[k]).contains('/') by {
        if k < a.len() {
            assert((a + b)[k] == a[k]);
        } else {
            assert((a + b)[k] == b[k - a.len()]);
        }
    }
    segments_are_unique(path + "/"@ + part, a + b);
}

proof fn lemma_one_segment(part: Seq<char>)
    requires
        !part.contains('/'),
    ensures
        segments(part) == seq![part],
{
    segments_are_unique(part, seq![part]);
}

/// Whatever stands behind a path that is not empty, the path begins in the same way.
proof fn lemma_lead_stays(path: Seq<char>, part: Seq<char>)
    requires
        path.len() > 0,
    ensures
        lead(segments(path + "/"@ + part)) == lead(segments(path)),
{
    let a = segments(path);
    lemma_segments_behind(path, part);
    segments_make_the_path(path);
    segments_make_the_path(part);
    if a.len() == 1 {
        assert(a[0] == path);
    }
}

/// A name behind a path is one component more, and a slash or a point behind it is none.
/// The root and a point alone are one component, and the empty path is none.
pub proof fn components_are_counted(path: Seq<char>, name: Seq<char>)
    requires
        path.len() > 0,
        name.len() > 0,
        name != "."@,
        !name.contains('/'),
    ensures
        component_total(segments(path + "/"@ + name)) == component_total(segments(path)) + 1,
        component_total(segments(path + "/"@)) == component_total(segments(path)),
        component_total(segments(path + "/"@ + "."@)) == component_total(segments(path)),
        component_total(segments(name)) == 1,
        component_total(segments("/"@)) == 1,
        component_total(segments("."@)) == 1,
        component_total(segments(Seq::<char>::empty())) == 0,
{
    reveal_strlit(".");
    reveal_strlit("/");
    let empty = Seq::<char>::empty();
    lemma_nameless_segments();
    lemma_one_segment(name);
    lemma_one_segment("."@);
    lemma_one_segment(empty);
    lemma_segments_behind(path, name);
    lemma_segments_behind(path, empty);
    lemma_segments_behind(path, "."@);
    assert(path + "/"@ + empty =~= path + "/"@);
    lemma_lead_stays(path, name);
    lemma_lead_stays(path, empty);
    lemma_lead_stays(path, "."@);
    lemma_solids_concat(segments(path), seq![name]);
    lemma_solids_concat(segments(path), seq![empty]);
    lemma_solids_concat(segments(path), seq!["."@]);
    assert forall|k: int| 0 <= k < seq![name].len() implies is_solid(#[trigger] seq![name][k]) by {}
    lemma_all_solid(seq![name]);
    lemma_no_solids(seq![empty]);
    lemma_no_solids(seq!["."@]);
    lemma_no_solids(segments("/"@));
    assert(lead(seq![name]) is Relative);
}

/// A path that is joined to a base counts as the two with a slash between, and one that
/// begins with a slash counts as if there were no base.
pub proof fn joined_paths_are_counted(base: Seq<char>, path: Seq<char>)
    requires
        base.len() > 0,
    ensures
        !(path.len() > 0 && path[0] == '/') ==> joined_total(segments(base), segments(path))
            == component_total(segments(base + "/"@ + path)),
        path.len() > 0 && path[0] == '/' ==> joined_total(segments(base), segments(path))
            == component_total(segments(path)),
{
    reveal_strlit("/");
    let parts = segments(path);
    segments_make_the_path(path);
    lemma_segments_behind(base, path);
    lemma_lead_stays(base, path);
    lemma_solids_concat(segments(base), parts);
    if parts.len() > 1 {
        assert(parts =~= seq![parts[0]] + parts.skip(1));
        lemma_joined_concat(seq![parts[0]], parts.skip(1));
        assert(text::joined(seq![parts[0]], "/"@) == parts[0]);
        assert(path == parts[0] + "/"@ + text::joined(parts.skip(1), "/"@));
        if parts[0].len() > 0 {
            assert(path[0] == parts[0][0]);
            assert(parts[0].contains(parts[0][0]));
        } else {
            assert(path[0] == '/');
        }
    } else {
        assert(path == parts[0]);
        if path.len() > 0 && path[0] == '/' {
            assert(parts[0].contains('/'));
        }
    }
}

/// A path is taken apart at its last slash: a name behind a directory has that as its
/// parent, and a name alone has the empty parent. Slashes and points at the end change
/// nothing, and the root has neither a parent nor a name.
pub proof fn paths_are_cut_at_the_last_slash(dir: Seq<char>, name: Seq<char>)
    requires
        is_name(dir) || exists|above: Seq<char>, last: Seq<char>|
            dir == #[trigger] (above + "/"@ + last) && last.len() > 0 && last != "."@
                && !last.contains('/'),
        is_name(name),
    ensures
        parent_of(segments(dir + "/"@ + name)) == Some(dir),
        file_name_of(segments(dir + "/"@ + name)) == Some(name),
        parent_of(segments(dir + "/"@ + name + "/"@)) == Some(dir),
        file_name_of(segments(dir + "/"@ + name + "/"@)) == Some(name),
        file_name_of(segments(dir + "/"@ + ".."@)) is None,
        parent_of(segments(name)) == Some(Seq::<char>::empty()),
        file_name_of(segments(name)) == Some(name),
        parent_of(segments("/"@ + name)) == Some("/"@),
        file_name_of(segments("/"@ + name)) == Some(name),
        parent_of(segments("/"@)) is None,
        file_name_of(segments("/"@)) is None,
{
    reveal_strlit(".");
    reveal_strlit("..");
    reveal_strlit("/");
    let empty = Seq::<char>::empty();
    let all = segments(dir);
    lemma_nameless_segments();
    lemma_one_segment(name);
    lemma_one_segment(empty);
    lemma_one_segment(".."@);
    segments_make_the_path(dir);
    assert(is_solid(all.last())) by {
        if is_name(dir) {
            lemma_one_segment(dir);
        } else {
            let (above, last) = choose|above: Seq<char>, last: Seq<char>|
                dir == #[trigger] (above + "/"@ + last) && last.len() > 0 && last != "."@
                    && !last.contains('/');
            lemma_segments_behind(above, last);
            lemma_one_segment(last);
        }
    }
    lemma_segments_behind(dir, name);
    lemma_segments_behind(dir + "/"@ + name, empty);
    lemma_segments_behind(dir, ".."@);
    lemma_segments_behind(empty, name);
    assert(empty + "/"@ + name =~= "/"@ + name);
    assert(dir + "/"@ + name + "/"@ + empty =~= dir + "/"@ + name + "/"@);
    let parts = segments(dir + "/"@ + name);
    assert(parts.drop_last() =~= all);
    let longer = segments(dir + "/"@ + name + "/"@);
    assert(longer.drop_last() =~= parts);
    assert(!is_solid(longer.last()));
    assert(trim_tail(longer) == trim_tail(parts));
    assert((all + seq![".."@]).last() == ".."@);
    let alone = seq![name];
    assert(alone.drop_last() =~= seq![]);
    let rooted = segments("/"@ + name);
    assert(rooted =~= seq![empty, name]);
    assert(rooted.drop_last() =~= seq![empty]);
    assert(seq![empty].drop_last() =~= seq![]);
    assert(trim_tail(seq![empty]).len() == 0);
    let root = segments("/"@);
    assert(root.drop_last() =~= seq![empty]);
    assert(trim_tail(root).len() == 0);
}

proof fn lemma_last_position(s: Seq<char>, c: char, k: int)
    requires
        -1 <= k < s.len(),
        k >= 0 ==> s[k] == c,
        forall|i: int| k < i < s.len() ==> s[i] != c,
    ensures
        last_position(s, c) == k,
    decreases s.len(),
{
    if s.len() > 0 && s.last() != c {
        lemma_last_position(s.drop_last(), c, k);
    }
}

/// The extension of a name is what stands behind its last point, where something stands
/// before that. A name without a point has none, nor has one whose only point comes
/// first.
pub proof fn extensions_stand_behind_the_last_point(stem: Seq<char>, ext: Seq<char>)
    requires
        !ext.contains('.'),
    ensures
        extension_of(ext) is None,
        extension_of("."@ + ext) is None,
        stem.len() > 0 ==> extension_of(stem + "."@ + ext) == Some(ext),
{
    reveal_strlit(".");
    assert forall|i: int| 0 <= i < ext.len() implies ext[i] != '.' by {
        assert(ext.contains(ext[i]));
    }
    lemma_last_position(ext, '.', -1);
    lemma_last_position("."@ + ext, '.', 0);
    let name = stem + "."@ + ext;
    lemma_last_position(name, '.', stem.len() as int);
    assert(name.skip(stem.len() as int + 1) =~= ext);
}

/// A file whose path can be read on every platform has the parent, the name and the
/// extension of its path.
pub proof fn files_are_their_paths_taken_apart(f: FoundFile)
    requires
        is_split(f),
        portable(f.path@),
    ensures
        text::opt_view(f.parent) == parent_of(segments(f.path@)),
        text::opt_view(f.file_name) == file_name_of(segments(f.path@)),
        f.file_name is Some ==> text::opt_view(f.extension) == extension_of(f.file_name->0@),
        f.file_name is None ==> f.extension is None,
{
}

/// Every path is read alike on every platform that holds no backslash and begins neither
/// with a letter and a colon nor with two slashes.
pub proof fn most_paths_are_portable(path: Seq<char>)
    ensures
        portable(path) <==> {
            &&& !path.contains('\\')
            &&& !(path.len() > 1 && path[1] == ':' && ('a' <= path[0] <= 'z' || 'A' <= path[0]
                <= 'Z'))
            &&& !(path.len() > 1 && path[0] == '/' && path[1] == '/')
        },
{
}

} // verus!
