//! Moving between Rust strings and sequences of Unicode scalar values.

use vstd::prelude::*;

verus! {

// Strings and their characters.

/// `String::push` appends one scalar value at the end of the string and
/// leaves what was there untouched.
pub assume_specification[ String::push ](s: &mut String, ch: char)
    ensures
        final(s)@ == old(s)@.push(ch),
;

/// The scalar values of `s`, in order.
pub fn chars_of(s: &str) -> (v: Vec<char>)
    ensures
        v@ == s@,
{
    let mut v: Vec<char> = Vec::new();
    for c in it: s.chars()
        invariant
            v@ == it.seq().take(it.index() as int),
            it.seq() == s@,
    {
        v.push(c);
    }
    v
}

/// The string whose scalar values are those of `v`, in order.
pub fn string_of(v: &Vec<char>) -> (s: String)
    ensures
        s@ == v@,
{
    let mut s = String::new();
    let mut i: usize = 0;
    while i < v.len()
        invariant
            i <= v.len(),
            s@ == v@.take(i as int),
        decreases v.len() - i,
    {
        s.push(v[i]);
        i += 1;
    }
    s
}

// Blanks at the end.

/// `text` without the blanks at its end.
pub open spec fn trim_blanks(text: Seq<char>) -> Seq<char>
    decreases text.len(),
{
    if text.len() > 0 && text.last() == ' ' {
        trim_blanks(text.drop_last())
    } else {
        text
    }
}

/// `count` blanks.
pub open spec fn blanks(count: int) -> Seq<char> {
    Seq::new(if count >= 0 { count as nat } else { 0 }, |i: int| ' ')
}

/// Removes the blanks at the end of `text`.
pub fn trim_end_blanks(text: &mut Vec<char>)
    ensures
        final(text)@ == trim_blanks(old(text)@),
{
    let mut n: usize = text.len();
    assert(text@.take(n as int) =~= text@);
    while n > 0 && text[n - 1] == ' '
        invariant
            n <= text.len(),
            *text == *old(text),
            trim_blanks(text@) == trim_blanks(text@.take(n as int)),
        decreases n,
    {
        assert(text@.take(n as int).drop_last() =~= text@.take(n - 1));
        n -= 1;
    }
    text.truncate(n);
    assert(text@ =~= old(text)@.take(n as int));
}

/// What `trim_blanks` leaves: the longest beginning of the text that does
/// not end in a blank.
pub proof fn lemma_trim_blanks(text: Seq<char>)
    ensures
        trim_blanks(text).len() <= text.len(),
        trim_blanks(text) == text.take(trim_blanks(text).len() as int),
        trim_blanks(text).len() == 0 || trim_blanks(text).last() != ' ',
        forall|i: int| trim_blanks(text).len() <= i < text.len() ==> text[i] == ' ',
    decreases text.len(),
{
    if text.len() > 0 && text.last() == ' ' {
        let shorter = text.drop_last();
        lemma_trim_blanks(shorter);
        let kept = trim_blanks(shorter);
        assert(kept =~= text.take(kept.len() as int));
        assert forall|i: int| kept.len() <= i < text.len() implies text[i] == ' ' by {
            if i < shorter.len() {
                assert(shorter[i] == ' ');
            }
        }
    } else {
        assert(text =~= text.take(text.len() as int));
    }
}

/// Blanks added at the end of a text are trimmed away again.
pub proof fn lemma_trim_blanks_padded(text: Seq<char>, count: int)
    ensures
        trim_blanks(text + blanks(count)) == trim_blanks(text),
    decreases count,
{
    if count <= 0 {
        assert(text + blanks(count) =~= text);
    } else {
        let padded = text + blanks(count);
        assert(padded.last() == ' ');
        assert(padded.drop_last() =~= text + blanks(count - 1));
        lemma_trim_blanks_padded(text, count - 1);
    }
}

} // verus!
