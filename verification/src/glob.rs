//! File name patterns with `*` and `?`, matched byte by byte.

use vstd::prelude::*;
use vstd::utf8::*;

verus! {

/// `*`, which stands for any number of bytes.
pub const STAR: u8 = 42;

/// `?`, which stands for one byte.
pub const QUESTION: u8 = 63;

/// Whether the bytes of `name` match the pattern `pat`. In the pattern `*` stands
/// for zero or more bytes, `?` for one byte, and any other byte for itself.
pub open spec fn glob_matches(pat: Seq<u8>, name: Seq<u8>) -> bool
    decreases pat.len(),
{
    if pat.len() == 0 {
        name.len() == 0
    } else if pat[0] == STAR {
        exists|k: int| 0 <= k <= name.len() && glob_matches(pat.skip(1), #[trigger] name.skip(k))
    } else {
        &&& name.len() > 0
        &&& pat[0] == QUESTION || pat[0] == name[0]
        &&& glob_matches(pat.skip(1), name.skip(1))
    }
}

/// A leading `*` takes nothing, or it takes the first byte and stays.
proof fn lemma_star_step(pat: Seq<u8>, name: Seq<u8>)
    requires
        pat.len() > 0,
        pat[0] == STAR,
    ensures
        glob_matches(pat, name) == (glob_matches(pat.skip(1), name) || (name.len() > 0
            && glob_matches(pat, name.skip(1)))),
{
    let rest = pat.skip(1);
    assert(name.skip(0) =~= name);
    if glob_matches(pat, name) && !glob_matches(rest, name) {
        let k = choose|k: int|
            0 <= k <= name.len() && glob_matches(rest, #[trigger] name.skip(k));
        assert(name.skip(1).skip(k - 1) =~= name.skip(k));
    }
    if name.len() > 0 && glob_matches(pat, name.skip(1)) {
        let k = choose|k: int|
            0 <= k <= name.skip(1).len() && glob_matches(rest, #[trigger] name.skip(1).skip(k));
        assert(name.skip(1).skip(k) =~= name.skip(k + 1));
    }
}

/// Matches the bytes of a name against the bytes of a pattern.
pub fn glob_match_inner(pat: &[u8], name: &[u8]) -> (yes: bool)
    ensures
        yes == glob_matches(pat@, name@),
    decreases pat@.len(), name@.len(),
{
    if pat.len() == 0 {
        return name.len() == 0;
    }
    let rest: &[u8] = vstd::slice::slice_subrange(pat, 1, pat.len());
    assert(rest@ =~= pat@.skip(1));
    if pat[0] == STAR {
        proof {
            lemma_star_step(pat@, name@);
        }
        if glob_match_inner(rest, name) {
            return true;
        }
        if name.len() == 0 {
            return false;
        }
        let tail: &[u8] = vstd::slice::slice_subrange(name, 1, name.len());
        assert(tail@ =~= name@.skip(1));
        return glob_match_inner(pat, tail);
    }
    if name.len() == 0 {
        return false;
    }
    let tail: &[u8] = vstd::slice::slice_subrange(name, 1, name.len());
    assert(tail@ =~= name@.skip(1));
    (pat[0] == QUESTION || pat[0] == name[0]) && glob_match_inner(rest, tail)
}

/// Matches a file name against a pattern, over the UTF-8 bytes of both.
pub fn glob_match(pattern: &str, name: &str) -> (yes: bool)
    ensures
        yes == glob_matches(encode_utf8(pattern@), encode_utf8(name@)),
{
    glob_match_inner(pattern.as_bytes(), name.as_bytes())
}

// ---------------------------------------------------------------------------
// Laws
// ---------------------------------------------------------------------------

/// Whether a pattern holds neither `*` nor `?`.
pub open spec fn is_literal(pat: Seq<u8>) -> bool {
    forall|i: int| 0 <= i < pat.len() ==> #[trigger] pat[i] != STAR && pat[i] != QUESTION
}

/// `*` alone matches every name.
pub proof fn star_matches_every_name(name: Seq<u8>)
    ensures
        glob_matches(seq![STAR], name),
{
    assert(seq![STAR].skip(1) =~= seq![]);
    assert(name.skip(name.len() as int) =~= seq![]);
    assert(glob_matches(seq![STAR].skip(1), name.skip(name.len() as int)));
}

/// A pattern without wildcards matches the name that is equal to it, and no other.
pub proof fn literal_matches_itself_only(pat: Seq<u8>, name: Seq<u8>)
    requires
        is_literal(pat),
    ensures
        glob_matches(pat, name) == (pat == name),
    decreases pat.len(),
{
    if pat.len() > 0 {
        assert(pat[0] != STAR);
        if name.len() > 0 {
            literal_matches_itself_only(pat.skip(1), name.skip(1));
            if pat.skip(1) == name.skip(1) && pat[0] == name[0] {
                assert(pat =~= seq![pat[0]] + pat.skip(1));
                assert(name =~= seq![name[0]] + name.skip(1));
            }
        }
    } else {
        assert(name.len() == 0 ==> pat =~= name);
    }
}

/// `*` before plain text matches the names that end with that text.
pub proof fn star_then_text_matches_suffix(text: Seq<u8>, name: Seq<u8>)
    requires
        is_literal(text),
    ensures
        glob_matches(seq![STAR] + text, name) == text.is_suffix_of(name),
{
    let pat = seq![STAR] + text;
    assert(pat.skip(1) =~= text);
    if glob_matches(pat, name) {
        let k = choose|k: int|
            0 <= k <= name.len() && glob_matches(pat.skip(1), #[trigger] name.skip(k));
        literal_matches_itself_only(text, name.skip(k));
        assert(name.skip(k) =~= name.subrange(name.len() - text.len(), name.len() as int));
    }
    if text.is_suffix_of(name) {
        let k = name.len() - text.len();
        assert(name.skip(k) =~= text);
        literal_matches_itself_only(text, name.skip(k));
        assert(glob_matches(pat.skip(1), name.skip(k)));
    }
}

/// Plain text before `*` matches the names that begin with that text.
pub proof fn text_then_star_matches_prefix(text: Seq<u8>, name: Seq<u8>)
    requires
        is_literal(text),
    ensures
        glob_matches(text + seq![STAR], name) == text.is_prefix_of(name),
    decreases text.len(),
{
    let pat = text + seq![STAR];
    if text.len() == 0 {
        assert(pat =~= seq![STAR]);
        star_matches_every_name(name);
        assert(text =~= name.subrange(0, 0));
    } else {
        assert(pat[0] == text[0]);
        assert(pat.skip(1) =~= text.skip(1) + seq![STAR]);
        if name.len() > 0 {
            text_then_star_matches_prefix(text.skip(1), name.skip(1));
            if text.is_prefix_of(name) {
                assert(text[0] == name.subrange(0, text.len() as int)[0]);
                assert(text.skip(1) =~= name.skip(1).subrange(0, text.len() - 1));
            }
            if text[0] == name[0] && text.skip(1).is_prefix_of(name.skip(1)) {
                assert forall|i: int| 0 <= i < text.len() implies text[i] == name[i] by {
                    if i > 0 {
                        assert(text[i] == text.skip(1)[i - 1]);
                        assert(name.skip(1).subrange(0, text.len() - 1)[i - 1] == name[i]);
                    }
                }
                assert(text =~= name.subrange(0, text.len() as int));
            }
        }
    }
}

/// `?` stands for exactly one byte: a pattern of question marks matches the names
/// with that many bytes.
pub proof fn question_marks_count_bytes(pat: Seq<u8>, name: Seq<u8>)
    requires
        forall|i: int| 0 <= i < pat.len() ==> pat[i] == QUESTION,
    ensures
        glob_matches(pat, name) == (pat.len() == name.len()),
    decreases pat.len(),
{
    if pat.len() > 0 && name.len() > 0 {
        assert(pat[0] == QUESTION);
        question_marks_count_bytes(pat.skip(1), name.skip(1));
    } else if pat.len() > 0 {
        assert(pat[0] == QUESTION);
    }
}

/// A pattern is read byte by byte: the empty pattern matches the empty name only, `?`
/// takes any byte, `*` takes nothing or a byte and stays, and any other byte takes
/// itself.
pub proof fn patterns_are_read_byte_by_byte(c: u8, pat: Seq<u8>, name: Seq<u8>)
    ensures
        glob_matches(Seq::<u8>::empty(), name) == (name.len() == 0),
        c != 42 ==> glob_matches(seq![c] + pat, name) == (name.len() > 0 && (c == 63 || c == name[0])
            && glob_matches(pat, name.skip(1))),
        glob_matches(seq![42u8] + pat, name) == (glob_matches(pat, name) || (name.len() > 0
            && glob_matches(seq![42u8] + pat, name.skip(1)))),
{
    assert((seq![c] + pat).skip(1) =~= pat);
    assert((seq![42u8] + pat).skip(1) =~= pat);
    lemma_star_step(seq![42u8] + pat, name);
}

/// Two patterns, one behind the other, match two names that they match, one behind the
/// other.
pub proof fn matches_can_be_put_together(
    p: Seq<u8>,
    q: Seq<u8>,
    a: Seq<u8>,
    b: Seq<u8>,
)
    requires
        glob_matches(p, a),
        glob_matches(q, b),
    ensures
        glob_matches(p + q, a + b),
    decreases p.len(),
{
    if p.len() == 0 {
        assert(p + q =~= q);
        assert(a + b =~= b);
    } else {
        assert((p + q).skip(1) =~= p.skip(1) + q);
        if p[0] == STAR {
            let k = choose|k: int|
                0 <= k <= a.len() && glob_matches(p.skip(1), #[trigger] a.skip(k));
            matches_can_be_put_together(p.skip(1), q, a.skip(k), b);
            assert((a + b).skip(k) =~= a.skip(k) + b);
        } else {
            matches_can_be_put_together(p.skip(1), q, a.skip(1), b);
            assert((a + b).skip(1) =~= a.skip(1) + b);
        }
    }
}

} // verus!
