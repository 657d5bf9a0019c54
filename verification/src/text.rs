//! Strings as sequences of characters: lines, trimming, joining.
//!
//! Every function here is specified over `Seq<char>`, the view of a string.

use vstd::prelude::*;
use vstd::utf8::*;

verus! {

// ---------------------------------------------------------------------------
// Functions of the standard library, whose contracts are taken as given
// ---------------------------------------------------------------------------

/// `String::push`: appends one character to the end of the string.
pub assume_specification[ String::push ](s: &mut String, c: char)
    ensures
        final(s)@ == old(s)@.push(c),
;

/// Whether a character has the Unicode property `White_Space`.
pub open spec fn white_space(c: char) -> bool {
    let n = c as u32;
    ||| 0x9 <= n <= 0xd
    ||| n == 0x20
    ||| n == 0x85
    ||| n == 0xa0
    ||| n == 0x1680
    ||| 0x2000 <= n <= 0x200a
    ||| n == 0x2028
    ||| n == 0x2029
    ||| n == 0x202f
    ||| n == 0x205f
    ||| n == 0x3000
}

/// `char::is_whitespace`: whether the character has the property `White_Space`, which
/// the Unicode Character Database lists.
pub assume_specification[ char::is_whitespace ](c: char) -> (yes: bool)
    ensures
        yes == white_space(c),
;

/// A text in small letters, by the Unicode property `Lowercase`.
pub uninterp spec fn lowercase(s: Seq<char>) -> Seq<char>;

/// `str::to_lowercase`: the text in small letters. In a text of ASCII characters
/// that replaces each of `A` to `Z` by its small letter and changes nothing else.
pub assume_specification[ str::to_lowercase ](s: &str) -> (lower: String)
    ensures
        lower@ == lowercase(s@),
        is_ascii_chars(s@) ==> lower@ == s@.map_values(|c: char| ascii_lower(c)),
;

/// `c`, or its small letter where `c` is one of `A` to `Z`.
pub open spec fn ascii_lower(c: char) -> char {
    if 'A' <= c && c <= 'Z' {
        (c as u32 + 32) as char
    } else {
        c
    }
}

// ---------------------------------------------------------------------------
// Characters and strings
// ---------------------------------------------------------------------------

/// The views of a sequence of strings.
pub open spec fn views(strings: Seq<String>) -> Seq<Seq<char>> {
    Seq::new(strings.len(), |i: int| strings[i]@)
}

/// The view of an optional string.
pub open spec fn opt_view(s: Option<String>) -> Option<Seq<char>> {
    match s {
        Some(s) => Some(s@),
        None => None,
    }
}

/// The characters of a string.
pub fn chars_of(s: &str) -> (chars: Vec<char>)
    ensures
        chars@ == s@,
{
    let mut chars: Vec<char> = Vec::new();
    for c in it: s.chars()
        invariant
            chars@ == it.seq().take(it.index()),
            it.seq() == s@,
    {
        chars.push(c);
    }
    chars
}

/// The string made of `chars[from..to]`.
pub fn substring(chars: &Vec<char>, from: usize, to: usize) -> (s: String)
    requires
        from <= to <= chars@.len(),
    ensures
        s@ == chars@.subrange(from as int, to as int),
{
    let mut s: String = String::new();
    let mut i: usize = from;
    while i < to
        invariant
            from <= i <= to <= chars@.len(),
            s@ == chars@.subrange(from as int, i as int),
        decreases to - i,
    {
        s.push(chars[i]);
        i += 1;
    }
    s
}

/// Whether two strings hold the same characters.
pub fn str_eq(a: &str, b: &str) -> (same: bool)
    ensures
        same == (a@ == b@),
{
    let x: &[u8] = a.as_bytes();
    let y: &[u8] = b.as_bytes();
    proof {
        encode_utf8_decode_utf8(a@);
        encode_utf8_decode_utf8(b@);
    }
    bytes_eq(x, y)
}

/// Whether two byte strings are equal.
pub fn bytes_eq(x: &[u8], y: &[u8]) -> (same: bool)
    ensures
        same == (x@ == y@),
{
    if x.len() != y.len() {
        return false;
    }
    let mut i: usize = 0;
    while i < x.len()
        invariant
            x@.len() == y@.len(),
            i <= x@.len(),
            forall|j: int| 0 <= j < i ==> x@[j] == y@[j],
        decreases x@.len() - i,
    {
        if x[i] != y[i] {
            return false;
        }
        i += 1;
    }
    assert(x@ =~= y@);
    true
}

/// Whether `s` begins with the characters of `prefix`.
pub fn starts_with(s: &str, prefix: &str) -> (yes: bool)
    ensures
        yes == prefix@.is_prefix_of(s@),
{
    let text: Vec<char> = chars_of(s);
    let start: Vec<char> = chars_of(prefix);
    if start.len() > text.len() {
        return false;
    }
    let mut i: usize = 0;
    while i < start.len()
        invariant
            text@ == s@,
            start@ == prefix@,
            i <= start@.len() <= text@.len(),
            forall|j: int| 0 <= j < i ==> start@[j] == text@[j],
        decreases start@.len() - i,
    {
        if start[i] != text[i] {
            assert(s@.subrange(0, prefix@.len() as int)[i as int] == text@[i as int]);
            return false;
        }
        i += 1;
    }
    assert(prefix@ =~= s@.subrange(0, prefix@.len() as int));
    true
}

/// Whether the first character of `s` is `c`.
pub open spec fn begins_with_char(s: Seq<char>, c: char) -> bool {
    s.len() > 0 && s[0] == c
}

/// Whether the first character of `s` is `c`.
pub fn starts_with_char(s: &str, c: char) -> (yes: bool)
    ensures
        yes == begins_with_char(s@, c),
{
    let text: Vec<char> = chars_of(s);
    text.len() > 0 && text[0] == c
}

/// Whether `c` occurs in `s`.
pub fn contains_char(s: &str, c: char) -> (yes: bool)
    ensures
        yes == s@.contains(c),
{
    let text: Vec<char> = chars_of(s);
    let mut i: usize = 0;
    while i < text.len()
        invariant
            text@ == s@,
            i <= text@.len(),
            forall|j: int| 0 <= j < i ==> text@[j] != c,
        decreases text@.len() - i,
    {
        if text[i] == c {
            return true;
        }
        i += 1;
    }
    false
}

/// Whether `part` occurs in `s` as a run of consecutive characters.
pub open spec fn has_substring(s: Seq<char>, part: Seq<char>) -> bool {
    exists|i: int|
        0 <= i <= s.len() - part.len() && #[trigger] s.subrange(i, i + part.len()) == part
}

/// Whether `part` occurs in `s` as a run of consecutive characters.
pub fn contains_str(s: &str, part: &str) -> (yes: bool)
    ensures
        yes == has_substring(s@, part@),
{
    let text: Vec<char> = chars_of(s);
    let word: Vec<char> = chars_of(part);
    if word.len() > text.len() {
        return false;
    }
    let mut i: usize = 0;
    while i <= text.len() - word.len()
        invariant
            text@ == s@,
            word@ == part@,
            word@.len() <= text@.len(),
            i <= text@.len() - word@.len() + 1,
            forall|k: int| 0 <= k < i ==> #[trigger] s@.subrange(k, k + part@.len()) != part@,
        decreases text@.len() - i,
    {
        let mut j: usize = 0;
        while j < word.len() && word[j] == text[i + j]
            invariant
                text@ == s@,
                word@ == part@,
                i + word.len() <= text.len(),
                j <= word@.len(),
                forall|k: int| 0 <= k < j ==> word@[k] == text@[i + k],
            decreases word@.len() - j,
        {
            j += 1;
        }
        let ghost here = s@.subrange(i as int, i + part@.len());
        if j == word.len() {
            assert(here =~= part@);
            return true;
        }
        assert(here[j as int] == text@[i + j]);
        i += 1;
    }
    false
}

// ---------------------------------------------------------------------------
// Lines
// ---------------------------------------------------------------------------

/// The position of the first newline, or the length where there is none.
pub open spec fn line_end(s: Seq<char>) -> nat
    decreases s.len(),
{
    if s.len() == 0 || s[0] == '\n' {
        0
    } else {
        1 + line_end(s.skip(1))
    }
}

/// `s` without the carriage return at its end, where it has one.
pub open spec fn drop_cr(s: Seq<char>) -> Seq<char> {
    if s.len() > 0 && s.last() == '\r' {
        s.drop_last()
    } else {
        s
    }
}

/// The lines of a text, as `str::lines` gives them: a line ends at `\n` or at
/// `\r\n`, neither of which is part of it, and the last line needs no ending.
pub open spec fn text_lines(s: Seq<char>) -> Seq<Seq<char>>
    decreases s.len(),
{
    if s.len() == 0 {
        seq![]
    } else if line_end(s) >= s.len() {
        seq![s]
    } else {
        seq![drop_cr(s.take(line_end(s) as int))] + text_lines(s.skip(line_end(s) as int + 1))
    }
}

/// The first newline of `s` is the one with no newline before it.
pub proof fn lemma_line_end(s: Seq<char>, n: int)
    requires
        0 <= n <= s.len(),
        n < s.len() ==> s[n] == '\n',
        forall|j: int| 0 <= j < n ==> s[j] != '\n',
    ensures
        line_end(s) == n,
    decreases s.len(),
{
    if n > 0 {
        assert(s[0] != '\n');
        lemma_line_end(s.skip(1), n - 1);
    }
}

/// The lines of a text.
pub fn lines(s: &str) -> (found: Vec<String>)
    ensures
        views(found@) == text_lines(s@),
{
    let text: Vec<char> = chars_of(s);
    let mut found: Vec<String> = Vec::new();
    let mut start: usize = 0;
    let mut i: usize = 0;
    assert(text@.skip(0) =~= s@);
    while i < text.len()
        invariant
            text@ == s@,
            start <= i <= text@.len(),
            forall|j: int| start <= j < i ==> text@[j] != '\n',
            text_lines(s@) == views(found@) + text_lines(s@.skip(start as int)),
        decreases text@.len() - i,
    {
        if text[i] == '\n' {
            let ghost rest = s@.skip(start as int);
            let end: usize = if start < i && text[i - 1] == '\r' {
                i - 1
            } else {
                i
            };
            let line: String = substring(&text, start, end);
            proof {
                lemma_line_end(rest, i - start);
                assert(line@ =~= drop_cr(rest.take(i - start)));
                assert(rest.skip(i - start + 1) =~= s@.skip(i + 1));
                assert(views(found@.push(line)) =~= views(found@) + seq![line@]);
            }
            found.push(line);
            start = i + 1;
            assert(text_lines(s@) =~= views(found@) + text_lines(s@.skip(start as int)));
        }
        i += 1;
    }
    let ghost rest = s@.skip(start as int);
    if start < text.len() {
        let line: String = substring(&text, start, text.len());
        proof {
            lemma_line_end(rest, rest.len() as int);
            assert(line@ =~= rest);
            assert(views(found@.push(line)) =~= views(found@) + seq![line@]);
        }
        found.push(line);
    }
    assert(views(found@) =~= text_lines(s@));
    found
}

// ---------------------------------------------------------------------------
// White space
// ---------------------------------------------------------------------------

/// `s` without the white space at its beginning.
pub open spec fn trim_front(s: Seq<char>) -> Seq<char>
    decreases s.len(),
{
    if s.len() > 0 && white_space(s[0]) {
        trim_front(s.skip(1))
    } else {
        s
    }
}

/// `s` without the white space at its end.
pub open spec fn trim_back(s: Seq<char>) -> Seq<char>
    decreases s.len(),
{
    if s.len() > 0 && white_space(s.last()) {
        trim_back(s.drop_last())
    } else {
        s
    }
}

/// `s` without the white space at either end.
pub open spec fn trimmed(s: Seq<char>) -> Seq<char> {
    trim_back(trim_front(s))
}

/// The string without the white space at its beginning.
pub fn trim_start(s: &str) -> (rest: String)
    ensures
        rest@ == trim_front(s@),
{
    let text: Vec<char> = chars_of(s);
    let mut from: usize = 0;
    assert(text@.skip(0) =~= s@);
    while from < text.len() && text[from].is_whitespace()
        invariant
            text@ == s@,
            from <= text@.len(),
            trim_front(s@) == trim_front(s@.skip(from as int)),
        decreases text@.len() - from,
    {
        assert(s@.skip(from as int).skip(1) =~= s@.skip(from + 1));
        from += 1;
    }
    let rest: String = substring(&text, from, text.len());
    assert(rest@ =~= s@.skip(from as int));
    rest
}

/// The string without the white space at either end.
pub fn trim(s: &str) -> (rest: String)
    ensures
        rest@ == trimmed(s@),
{
    let front: String = trim_start(s);
    let text: Vec<char> = chars_of(front.as_str());
    let mut to: usize = text.len();
    assert(text@.take(to as int) =~= front@);
    while to > 0 && text[to - 1].is_whitespace()
        invariant
            text@ == front@,
            to <= text@.len(),
            trim_back(front@) == trim_back(front@.take(to as int)),
        decreases to,
    {
        assert(front@.take(to as int).drop_last() =~= front@.take(to - 1));
        to -= 1;
    }
    let rest: String = substring(&text, 0, to);
    assert(rest@ =~= front@.take(to as int));
    rest
}

// ---------------------------------------------------------------------------
// Joining
// ---------------------------------------------------------------------------

/// The parts one after the other, with `sep` between each two.
pub open spec fn joined(parts: Seq<Seq<char>>, sep: Seq<char>) -> Seq<char>
    decreases parts.len(),
{
    if parts.len() == 0 {
        seq![]
    } else if parts.len() == 1 {
        parts[0]
    } else {
        joined(parts.drop_last(), sep) + sep + parts.last()
    }
}

/// The strings one after the other, with `sep` between each two.
pub fn join(parts: &Vec<String>, sep: &str) -> (s: String)
    ensures
        s@ == joined(views(parts@), sep@),
{
    let mut s: String = String::new();
    let mut i: usize = 0;
    assert(views(parts@).take(0) =~= seq![]);
    while i < parts.len()
        invariant
            i <= parts@.len(),
            s@ == joined(views(parts@).take(i as int), sep@),
        decreases parts@.len() - i,
    {
        proof {
            assert(views(parts@).take(i + 1).drop_last() =~= views(parts@).take(i as int));
            assert(views(parts@).take(i + 1).last() == parts@[i as int]@);
        }
        if i > 0 {
            s.append(sep);
        } else {
            assert(s@ =~= seq![]);
            assert(seq![] + parts@[0]@ =~= parts@[0]@);
        }
        s.append(parts[i].as_str());
        i += 1;
    }
    assert(views(parts@).take(parts@.len() as int) =~= views(parts@));
    s
}

/// A line holds no newline.
pub proof fn lines_hold_no_newline(s: Seq<char>, k: int)
    requires
        0 <= k < text_lines(s).len(),
    ensures
        !text_lines(s)[k].contains('\n'),
    decreases s.len(),
{
    let n = line_end(s) as int;
    lemma_before_line_end(s);
    if n >= s.len() {
        assert(text_lines(s)[k] == s);
        if s.contains('\n') {
            let j = choose|j: int| 0 <= j < s.len() && s[j] == '\n';
            assert(s[j] != '\n');
        }
    } else if k == 0 {
        let line = text_lines(s)[0];
        if line.contains('\n') {
            let j = choose|j: int| 0 <= j < line.len() && line[j] == '\n';
            assert(s[j] == line[j]);
        }
    } else {
        lines_hold_no_newline(s.skip(n + 1), k - 1);
    }
}

proof fn lemma_before_line_end(s: Seq<char>)
    ensures
        line_end(s) <= s.len(),
        line_end(s) < s.len() ==> s[line_end(s) as int] == '\n',
        forall|j: int| 0 <= j < line_end(s) ==> s[j] != '\n',
    decreases s.len(),
{
    if s.len() > 0 && s[0] != '\n' {
        let rest = s.skip(1);
        lemma_before_line_end(rest);
        assert forall|j: int| 0 <= j < line_end(s) implies s[j] != '\n' by {
            if j > 0 {
                assert(s[j] == rest[j - 1]);
            }
        }
    }
}

/// A joined text begins with its first part.
proof fn lemma_joined_front(parts: Seq<Seq<char>>, sep: Seq<char>)
    requires
        parts.len() > 1,
    ensures
        joined(parts, sep) == parts[0] + sep + joined(parts.skip(1), sep),
    decreases parts.len(),
{
    let rest = parts.skip(1);
    if parts.len() == 2 {
        assert(joined(parts.drop_last(), sep) == parts[0]);
        assert(joined(rest, sep) == parts.last());
    } else {
        lemma_joined_front(parts.drop_last(), sep);
        assert(parts.drop_last().skip(1) =~= rest.drop_last());
        assert(joined(parts, sep) =~= parts[0] + sep + (joined(rest.drop_last(), sep) + sep
            + rest.last()));
    }
}

/// Joining lines by newlines and taking the text apart again gives the lines, where
/// the last is not empty and no other ends with a carriage return.
pub proof fn joined_lines_are_read_back(parts: Seq<Seq<char>>)
    requires
        parts.len() > 0,
        forall|k: int| 0 <= k < parts.len() ==> !(#[trigger] parts[k]).contains('\n'),
        parts.last().len() > 0,
        forall|k: int|
            0 <= k < parts.len() - 1 ==> !((#[trigger] parts[k]).len() > 0 && parts[k].last()
                == '\r'),
    ensures
        text_lines(joined(parts, "\n"@)) == parts,
    decreases parts.len(),
{
    reveal_strlit("\n");
    let s = joined(parts, "\n"@);
    let first = parts[0];
    assert forall|j: int| 0 <= j < first.len() implies first[j] != '\n' by {
        assert(!first.contains('\n'));
    }
    if parts.len() == 1 {
        lemma_line_end(s, s.len() as int);
        assert(parts =~= seq![s]);
    } else {
        let rest = parts.skip(1);
        lemma_joined_front(parts, "\n"@);
        assert(s[first.len() as int] == '\n');
        assert forall|j: int| 0 <= j < first.len() implies s[j] != '\n' by {
            assert(s[j] == first[j]);
        }
        lemma_line_end(s, first.len() as int);
        assert(s.take(first.len() as int) =~= first);
        assert(s.skip(first.len() as int + 1) =~= joined(rest, "\n"@));
        joined_lines_are_read_back(rest);
        assert(parts =~= seq![first] + rest);
    }
}

// ---------------------------------------------------------------------------
// Laws
// ---------------------------------------------------------------------------

/// A text is cut into lines at its newlines: what stands before the first is the first
/// line, without the one carriage return that may end it, and what stands behind is cut
/// in the same way. A text without a newline is one line, unchanged, and the empty text
/// is none.
pub proof fn lines_are_cut_at_newlines(a: Seq<char>, b: Seq<char>)
    requires
        !a.contains('\n'),
    ensures
        text_lines(Seq::<char>::empty()).len() == 0,
        a.len() > 0 ==> text_lines(a) == seq![a],
        text_lines(a + seq!['\n'] + b) == seq![
            if a.len() > 0 && a[a.len() - 1] == '\r' {
                a.take(a.len() - 1)
            } else {
                a
            },
        ] + text_lines(b),
{
    let n = a.len() as int;
    assert forall|j: int| 0 <= j < n implies a[j] != '\n' by {
        assert(a.contains(a[j]));
    }
    lemma_line_end(a, n);
    let s = a + seq!['\n'] + b;
    assert forall|j: int| 0 <= j < n implies s[j] != '\n' by {
        assert(s[j] == a[j]);
    }
    lemma_line_end(s, n);
    assert(s.take(n) =~= a);
    assert(s.skip(n + 1) =~= b);
    assert(a.len() > 0 ==> a.drop_last() =~= a.take(a.len() - 1));
}

/// Trimming takes away white space, and nothing else, from the beginning and from the
/// end, until none is left there.
pub proof fn trimming_takes_white_space_only(s: Seq<char>)
    ensures
        ({
            let front = trim_front(s);
            let both = trimmed(s);
            let cut = s.len() - front.len();
            &&& front.is_suffix_of(s)
            &&& forall|i: int| 0 <= i < cut ==> white_space(#[trigger] s[i])
            &&& front.len() > 0 ==> !white_space(front[0])
            &&& both.is_prefix_of(front)
            &&& forall|i: int| both.len() <= i < front.len() ==> white_space(#[trigger] front[i])
            &&& both.len() > 0 ==> !white_space(both[0]) && !white_space(both[both.len() - 1])
        }),
{
    lemma_trim_front(s);
    lemma_trim_back(trim_front(s));
    let both = trimmed(s);
    if both.len() > 0 {
        assert(both[0] == trim_front(s)[0]);
    }
}

proof fn lemma_trim_front(s: Seq<char>)
    ensures
        trim_front(s).len() <= s.len(),
        trim_front(s) == s.skip(s.len() - trim_front(s).len()),
        trim_front(s).is_suffix_of(s),
        forall|i: int| 0 <= i < s.len() - trim_front(s).len() ==> white_space(#[trigger] s[i]),
        trim_front(s).len() > 0 ==> !white_space(trim_front(s)[0]),
    decreases s.len(),
{
    if s.len() > 0 && white_space(s[0]) {
        let rest = s.skip(1);
        lemma_trim_front(rest);
        let n = s.len() - trim_front(s).len();
        assert(rest.skip(n - 1) =~= s.skip(n));
        assert forall|i: int| 0 <= i < n implies white_space(#[trigger] s[i]) by {
            if i > 0 {
                assert(rest[i - 1] == s[i]);
            }
        }
        assert(s.skip(n) =~= s.subrange(n, s.len() as int));
    } else {
        assert(s.skip(0) =~= s);
        assert(s.subrange(0, s.len() as int) =~= s);
    }
}

proof fn lemma_trim_back(s: Seq<char>)
    ensures
        trim_back(s).len() <= s.len(),
        trim_back(s) == s.take(trim_back(s).len() as int),
        trim_back(s).is_prefix_of(s),
        forall|i: int| trim_back(s).len() <= i < s.len() ==> white_space(#[trigger] s[i]),
        trim_back(s).len() > 0 ==> !white_space(trim_back(s)[trim_back(s).len() - 1]),
    decreases s.len(),
{
    if s.len() > 0 && white_space(s.last()) {
        let rest = s.drop_last();
        lemma_trim_back(rest);
        let n = trim_back(s).len() as int;
        assert(rest.take(n) =~= s.take(n));
        assert forall|i: int| n <= i < s.len() implies white_space(#[trigger] s[i]) by {
            if i < s.len() - 1 {
                assert(rest[i] == s[i]);
            }
        }
        assert(s.take(n) =~= s.subrange(0, n));
    } else {
        assert(s.take(s.len() as int) =~= s);
        assert(s.subrange(0, s.len() as int) =~= s);
    }
}

/// Parts are joined in their order, whole, with one separator between each two and
/// nothing before the first or behind the last.
pub proof fn parts_stand_between_separators(
    parts: Seq<Seq<char>>,
    last: Seq<char>,
    sep: Seq<char>,
)
    ensures
        joined(Seq::<Seq<char>>::empty(), sep) == Seq::<char>::empty(),
        joined(seq![last], sep) == last,
        parts.len() > 0 ==> joined(parts.push(last), sep) == joined(parts, sep) + sep + last,
        parts.len() > 0 ==> joined(seq![last] + parts, sep) == last + sep + joined(parts, sep),
{
    assert(parts.push(last).drop_last() =~= parts);
    if parts.len() > 0 {
        let all = seq![last] + parts;
        lemma_joined_front(all, sep);
        assert(all.skip(1) =~= parts);
    }
}

/// A text occurs in another exactly where that is made of something before it, the text
/// and something behind it.
pub proof fn what_occurs_has_something_around_it(s: Seq<char>, part: Seq<char>)
    ensures
        has_substring(s, part) <==> exists|a: Seq<char>, b: Seq<char>| s == #[trigger] (a + part
            + b),
{
    if has_substring(s, part) {
        let i = choose|i: int|
            0 <= i <= s.len() - part.len() && #[trigger] s.subrange(i, i + part.len()) == part;
        assert(s =~= s.take(i) + part + s.skip(i + part.len()));
    }
    if exists|a: Seq<char>, b: Seq<char>| s == #[trigger] (a + part + b) {
        let (a, b) = choose|a: Seq<char>, b: Seq<char>| s == #[trigger] (a + part + b);
        let i = a.len() as int;
        assert(s.subrange(i, i + part.len()) =~= part);
    }
}

/// The first character alone decides how a text begins.
pub proof fn the_first_character_decides(c: char, rest: Seq<char>, d: char)
    ensures
        begins_with_char(seq![c] + rest, d) == (c == d),
        !begins_with_char(Seq::<char>::empty(), d),
{
}

/// Parts that do not hold the separator can be told apart in the text that they are
/// joined to: there is one way only to cut it.
pub proof fn joined_parts_are_told_apart(a: Seq<Seq<char>>, b: Seq<Seq<char>>, c: char)
    requires
        a.len() > 0,
        b.len() > 0,
        forall|k: int| 0 <= k < a.len() ==> !(#[trigger] a[k]).contains(c),
        forall|k: int| 0 <= k < b.len() ==> !(#[trigger] b[k]).contains(c),
        joined(a, seq![c]) == joined(b, seq![c]),
    ensures
        a == b,
    decreases a.len() + b.len(),
{
    let sep = seq![c];
    let s = joined(a, sep);
    let x = a.last();
    let y = b.last();
    assert(!a[a.len() - 1].contains(c) && !b[b.len() - 1].contains(c));
    if a.len() > 1 {
        assert(s == joined(a.drop_last(), sep) + sep + x);
        assert(s[s.len() - x.len() - 1] == c);
    }
    if b.len() > 1 {
        assert(s == joined(b.drop_last(), sep) + sep + y);
        assert(s[s.len() - y.len() - 1] == c);
    }
    if x.len() < y.len() {
        if a.len() > 1 {
            let i = y.len() - x.len() - 1;
            assert(y[i] == s[s.len() - x.len() - 1]);
            assert(y.contains(c));
        }
    } else if y.len() < x.len() {
        if b.len() > 1 {
            let i = x.len() - y.len() - 1;
            assert(x[i] == s[s.len() - y.len() - 1]);
            assert(x.contains(c));
        }
    }
    assert(x.len() == y.len());
    assert forall|i: int| 0 <= i < x.len() implies x[i] == y[i] by {
        assert(x[i] == s[s.len() - x.len() + i]);
        assert(y[i] == s[s.len() - y.len() + i]);
    }
    assert(x =~= y);
    assert(a.len() == 1 <==> b.len() == 1) by {
        if a.len() == 1 {
            assert(s == x);
        }
        if b.len() == 1 {
            assert(s == y);
        }
    }
    if a.len() > 1 {
        let p = a.drop_last();
        let q = b.drop_last();
        let n = s.len() - x.len() - 1;
        assert(joined(p, sep) =~= s.take(n));
        assert(joined(q, sep) =~= s.take(n));
        assert forall|k: int| 0 <= k < p.len() implies !(#[trigger] p[k]).contains(c) by {
            assert(p[k] == a[k]);
        }
        assert forall|k: int| 0 <= k < q.len() implies !(#[trigger] q[k]).contains(c) by {
            assert(q[k] == b[k]);
        }
        joined_parts_are_told_apart(p, q, c);
        assert(a =~= p.push(x));
        assert(b =~= q.push(y));
    } else {
        assert(a =~= seq![x]);
        assert(b =~= seq![y]);
    }
}

} // verus!
