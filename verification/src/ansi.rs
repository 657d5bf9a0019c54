//! Text without the sequences that set colours on a terminal.

use vstd::prelude::*;

use crate::text;

verus! {

/// The character that starts a sequence.
pub const ESCAPE: char = '\u{1b}';

/// Whether `c` can stand among the parameters of a sequence.
pub open spec fn is_parameter(c: char) -> bool {
    '0' <= c <= '9' || c == ';'
}

/// Whether `c` can end a sequence.
pub open spec fn is_final(c: char) -> bool {
    'a' <= c <= 'z' || 'A' <= c <= 'Z'
}

/// Whether `s` begins with a sequence of `n` characters: an escape, a bracket,
/// parameters and a letter.
pub open spec fn begins_with_sequence(s: Seq<char>, n: int) -> bool {
    &&& 3 <= n <= s.len()
    &&& s[0] == ESCAPE
    &&& s[1] == '['
    &&& forall|i: int| 2 <= i < n - 1 ==> is_parameter(#[trigger] s[i])
    &&& is_final(s[n - 1])
}

/// The text without its sequences.
pub open spec fn stripped(s: Seq<char>) -> Seq<char>
    decreases s.len(),
{
    if s.len() == 0 {
        seq![]
    } else if exists|n: int| begins_with_sequence(s, n) {
        stripped(s.skip(choose|n: int| begins_with_sequence(s, n)))
    } else {
        seq![s[0]] + stripped(s.skip(1))
    }
}

/// A text begins with one sequence at most.
proof fn lemma_one_sequence(s: Seq<char>, m: int, n: int)
    requires
        begins_with_sequence(s, m),
        begins_with_sequence(s, n),
    ensures
        m == n,
{
    if m < n {
        assert(is_parameter(s[m - 1]));
    } else if n < m {
        assert(is_parameter(s[n - 1]));
    }
}

/// The end of the sequence that stands at `from`, or `from` where none does.
fn sequence_end(chars: &Vec<char>, from: usize) -> (to: usize)
    requires
        from < chars@.len(),
    ensures
        from <= to <= chars@.len(),
        to > from ==> begins_with_sequence(chars@.skip(from as int), to - from),
        to == from ==> forall|n: int| !begins_with_sequence(chars@.skip(from as int), n),
{
    let ghost s = chars@.skip(from as int);
    if chars[from] != ESCAPE {
        return from;
    }
    if chars.len() - from < 3 {
        return from;
    }
    if chars[from + 1] != '[' {
        return from;
    }
    let mut k: usize = from + 2;
    while k < chars.len() && ('0' <= chars[k] && chars[k] <= '9' || chars[k] == ';')
        invariant
            from + 2 <= k <= chars.len(),
            s == chars@.skip(from as int),
            forall|i: int| 2 <= i < k - from ==> is_parameter(#[trigger] s[i]),
        decreases chars.len() - k,
    {
        assert(s[k - from] == chars@[k as int]);
        k += 1;
    }
    if k < chars.len() && ('a' <= chars[k] && chars[k] <= 'z' || 'A' <= chars[k] && chars[k]
        <= 'Z') {
        assert(s[k - from] == chars@[k as int]);
        return k + 1;
    }
    proof {
        assert forall|n: int| !begins_with_sequence(s, n) by {
            if begins_with_sequence(s, n) {
                if n - 1 < k - from {
                    assert(is_parameter(s[n - 1]));
                } else if n - 1 > k - from {
                    assert(is_parameter(s[k - from]));
                    assert(s[k - from] == chars@[k as int]);
                } else {
                    assert(s[k - from] == chars@[k as int]);
                }
            }
        }
    }
    from
}

/// The text without its sequences.
pub fn strip_ansi(s: &str) -> (clean: String)
    ensures
        clean@ == stripped(s@),
{
    let chars: Vec<char> = text::chars_of(s);
    let mut clean: String = String::new();
    let mut i: usize = 0;
    assert(s@.skip(0) =~= s@);
    assert(clean@ + stripped(s@) =~= stripped(s@));
    while i < chars.len()
        invariant
            chars@ == s@,
            i <= chars.len(),
            clean@ + stripped(s@.skip(i as int)) == stripped(s@),
        decreases chars.len() - i,
    {
        let to: usize = sequence_end(&chars, i);
        let ghost rest = s@.skip(i as int);
        if to > i {
            proof {
                let n = choose|n: int| begins_with_sequence(rest, n);
                lemma_one_sequence(rest, n, to - i);
                assert(rest.skip(n) =~= s@.skip(to as int));
            }
            i = to;
        } else {
            proof {
                assert(rest.skip(1) =~= s@.skip(i + 1));
                assert(clean@.push(rest[0]) + stripped(s@.skip(i + 1)) =~= clean@ + (seq![rest[0]]
                    + stripped(s@.skip(i + 1))));
            }
            clean.push(chars[i]);
            i += 1;
        }
    }
    assert(clean@ + stripped(s@.skip(i as int)) =~= clean@);
    clean
}

// ---------------------------------------------------------------------------
// Laws
// ---------------------------------------------------------------------------

/// Text that holds no escape stays as it is.
pub proof fn plain_text_is_kept(s: Seq<char>)
    requires
        !s.contains(ESCAPE),
    ensures
        stripped(s) == s,
    decreases s.len(),
{
    if s.len() > 0 {
        assert(s[0] != ESCAPE);
        assert forall|n: int| !begins_with_sequence(s, n) by {}
        let rest = s.skip(1);
        assert forall|i: int| 0 <= i < rest.len() implies rest[i] != ESCAPE by {
            assert(rest[i] == s[i + 1]);
        }
        plain_text_is_kept(rest);
        assert(seq![s[0]] + rest =~= s);
    }
}

/// A sequence in front of a text leaves no trace.
pub proof fn sequences_leave_no_trace(sequence: Seq<char>, s: Seq<char>)
    requires
        begins_with_sequence(sequence, sequence.len() as int),
    ensures
        stripped(sequence + s) == stripped(s),
{
    let whole = sequence + s;
    let n = sequence.len() as int;
    assert forall|i: int| 2 <= i < n - 1 implies is_parameter(#[trigger] whole[i]) by {
        assert(whole[i] == sequence[i]);
    }
    assert(begins_with_sequence(whole, n));
    let m = choose|m: int| begins_with_sequence(whole, m);
    lemma_one_sequence(whole, m, n);
    assert(whole.skip(n) =~= s);
}

/// A character that is no escape is kept in its place.
pub proof fn other_characters_are_kept(c: char, s: Seq<char>)
    requires
        c != '\u{1b}',
    ensures
        stripped(Seq::<char>::empty()).len() == 0,
        stripped(seq![c] + s) == seq![c] + stripped(s),
{
    let whole = seq![c] + s;
    assert forall|n: int| !begins_with_sequence(whole, n) by {}
    assert(whole.skip(1) =~= s);
}

/// An escape, a bracket, any number of digits and semicolons, and a letter are taken out
/// together.
pub proof fn colours_are_taken_out(parameters: Seq<char>, letter: char, s: Seq<char>)
    requires
        forall|i: int|
            0 <= i < parameters.len() ==> '0' <= #[trigger] parameters[i] <= '9' || parameters[i]
                == ';',
        'a' <= letter <= 'z' || 'A' <= letter <= 'Z',
    ensures
        stripped(seq!['\u{1b}', '['] + parameters + seq![letter] + s) == stripped(s),
{
    let sequence = seq!['\u{1b}', '['] + parameters + seq![letter];
    let n = sequence.len() as int;
    assert forall|i: int| 2 <= i < n - 1 implies is_parameter(#[trigger] sequence[i]) by {
        assert(sequence[i] == parameters[i - 2]);
    }
    assert(sequence[n - 1] == letter);
    assert(begins_with_sequence(sequence, n));
    sequences_leave_no_trace(sequence, s);
}

/// An escape is kept where no bracket follows it, or where behind the bracket and its
/// digits and semicolons comes anything but a letter.
pub proof fn broken_sequences_are_kept(s: Seq<char>, k: int)
    requires
        s.len() > 0,
        s[0] == '\u{1b}',
        s.len() > 1 && s[1] == '[' ==> {
            &&& 2 <= k <= s.len()
            &&& forall|i: int| 2 <= i < k ==> '0' <= #[trigger] s[i] <= '9' || s[i] == ';'
            &&& k < s.len() ==> !('0' <= s[k] <= '9' || s[k] == ';') && !('a' <= s[k] <= 'z' || 'A'
                <= s[k] <= 'Z')
        },
    ensures
        stripped(s) == seq![s[0]] + stripped(s.skip(1)),
{
    assert forall|n: int| !begins_with_sequence(s, n) by {
        if begins_with_sequence(s, n) {
            assert(s[1] == '[');
            if n - 1 < k {
                assert('0' <= s[n - 1] <= '9' || s[n - 1] == ';');
            } else if n - 1 > k {
                assert(is_parameter(s[k]));
            }
        }
    }
}

} // verus!
