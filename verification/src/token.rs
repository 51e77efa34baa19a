//! Tokenization: from a text to the sequence of normalized words it holds.
//!
//! A text is cut at runs of whitespace into fragments. Each fragment loses the
//! punctuation at its start and at its end; what is left is a word if it is
//! not empty and holds letters only. A word with an uppercase letter is
//! recorded by its lowercase equivalent, any other word as it stands.

use vstd::prelude::*;
use vstd::slice::{slice_subrange, slice_to_vec};
use crate::text::{chars_of, string_of};
use crate::unicode::{
    unicode_alphabetic, unicode_lowercase, unicode_uppercase, unicode_whitespace,
};

verus! {

/// The characters that are removed from the start and the end of a fragment.
pub open spec fn punctuation(c: char) -> bool {
    c == '!' || c == '.' || c == ',' || c == '?' || c == '/' || c == ';' || c == ':' || c == '\''
}

/// The length of the longest prefix of `s` that holds no whitespace.
pub open spec fn fragment_len(s: Seq<char>) -> nat
    decreases s.len(),
{
    if s.len() == 0 || unicode_whitespace(s[0]) {
        0
    } else {
        1 + fragment_len(s.skip(1))
    }
}

/// The maximal runs of characters other than whitespace in `s`, in order.
pub open spec fn fragments(s: Seq<char>) -> Seq<Seq<char>>
    decreases s.len(),
    via fragments_decreases
{
    if s.len() == 0 {
        Seq::empty()
    } else if unicode_whitespace(s[0]) {
        fragments(s.skip(1))
    } else {
        seq![s.take(fragment_len(s) as int)] + fragments(s.skip(fragment_len(s) as int))
    }
}

#[via_fn]
proof fn fragments_decreases(s: Seq<char>) {
    lemma_fragment_len_bound(s);
}

/// The number of punctuation characters at the start of `s`.
pub open spec fn leading_punctuation(s: Seq<char>) -> nat
    decreases s.len(),
{
    if s.len() > 0 && punctuation(s[0]) {
        1 + leading_punctuation(s.skip(1))
    } else {
        0
    }
}

/// The number of punctuation characters at the end of `s`.
pub open spec fn trailing_punctuation(s: Seq<char>) -> nat
    decreases s.len(),
{
    if s.len() > 0 && punctuation(s.last()) {
        1 + trailing_punctuation(s.drop_last())
    } else {
        0
    }
}

/// `s` without the punctuation at its start and, after that, without the
/// punctuation at its end. Punctuation inside `s` stays.
pub open spec fn strip(s: Seq<char>) -> Seq<char> {
    let t = s.skip(leading_punctuation(s) as int);
    t.take(t.len() - trailing_punctuation(t))
}

/// `w` is a word: it is not empty and each of its characters is a letter.
pub open spec fn qualifies(w: Seq<char>) -> bool {
    w.len() > 0 && forall|i: int| 0 <= i < w.len() ==> unicode_alphabetic(#[trigger] w[i])
}

/// `w` holds an uppercase letter.
pub open spec fn holds_uppercase(w: Seq<char>) -> bool {
    exists|i: int| 0 <= i < w.len() && unicode_uppercase(#[trigger] w[i])
}

/// The form under which the word `w` is recorded.
pub open spec fn canonical(w: Seq<char>) -> Seq<char> {
    if holds_uppercase(w) {
        unicode_lowercase(w)
    } else {
        w
    }
}

/// `k` is the recorded form of some word.
pub open spec fn is_key(k: Seq<char>) -> bool {
    exists|w: Seq<char>| qualifies(w) && k == canonical(w)
}

/// The fragment `f` holds a word: what is left of it without the punctuation
/// at its ends is a word.
pub open spec fn holds_word(f: Seq<char>) -> bool {
    qualifies(strip(f))
}

/// The form under which the word of the fragment `f` is recorded.
pub open spec fn key_of(f: Seq<char>) -> Seq<char> {
    canonical(strip(f))
}

/// The recorded forms of those fragments among `fs` that hold a word.
pub open spec fn tokens_of(fs: Seq<Seq<char>>) -> Seq<Seq<char>> {
    fs.filter(|f: Seq<char>| holds_word(f)).map_values(|f: Seq<char>| key_of(f))
}

/// The normalized words of `text`, in the order in which they occur, each as
/// often as it occurs.
pub open spec fn tokens(text: Seq<char>) -> Seq<Seq<char>> {
    tokens_of(fragments(text))
}

/// The character sequences that a vector of words holds.
pub open spec fn views(ws: Seq<Vec<char>>) -> Seq<Seq<char>> {
    Seq::new(ws.len(), |i: int| ws[i]@)
}

/// A fragment is no longer than the text it starts.
pub proof fn lemma_fragment_len_bound(s: Seq<char>)
    ensures
        fragment_len(s) <= s.len(),
        s.len() > 0 && !unicode_whitespace(s[0]) ==> fragment_len(s) >= 1,
    decreases s.len(),
{
    if s.len() > 0 && !unicode_whitespace(s[0]) {
        lemma_fragment_len_bound(s.skip(1));
    }
}

/// A prefix without whitespace that ends the text or stands before a
/// whitespace character is the first fragment.
proof fn lemma_fragment_len_is(s: Seq<char>, n: int)
    requires
        0 <= n <= s.len(),
        forall|j: int| 0 <= j < n ==> !unicode_whitespace(#[trigger] s[j]),
        n == s.len() || unicode_whitespace(s[n]),
    ensures
        fragment_len(s) == n,
    decreases n,
{
    if n > 0 {
        let t = s.skip(1);
        assert forall|j: int| 0 <= j < n - 1 implies !unicode_whitespace(#[trigger] t[j]) by {
            assert(t[j] == s[j + 1]);
        }
        lemma_fragment_len_is(t, n - 1);
    }
}

/// A prefix of punctuation that ends the fragment or stands before another
/// character is all the punctuation at its start.
proof fn lemma_leading_is(s: Seq<char>, n: int)
    requires
        0 <= n <= s.len(),
        forall|j: int| 0 <= j < n ==> punctuation(#[trigger] s[j]),
        n == s.len() || !punctuation(s[n]),
    ensures
        leading_punctuation(s) == n,
    decreases n,
{
    if n > 0 {
        let t = s.skip(1);
        assert forall|j: int| 0 <= j < n - 1 implies punctuation(#[trigger] t[j]) by {
            assert(t[j] == s[j + 1]);
        }
        lemma_leading_is(t, n - 1);
    }
}

/// A suffix of punctuation that is the whole fragment or stands behind
/// another character is all the punctuation at its end.
proof fn lemma_trailing_is(s: Seq<char>, n: int)
    requires
        0 <= n <= s.len(),
        forall|j: int| s.len() - n <= j < s.len() ==> punctuation(#[trigger] s[j]),
        n == s.len() || !punctuation(s[s.len() - n - 1]),
    ensures
        trailing_punctuation(s) == n,
    decreases n,
{
    if n > 0 {
        let t = s.drop_last();
        assert forall|j: int| t.len() - (n - 1) <= j < t.len() implies punctuation(
            #[trigger] t[j],
        ) by {
            assert(t[j] == s[j]);
        }
        lemma_trailing_is(t, n - 1);
    }
}

/// A text has no more fragments than characters, and no more normalized
/// words than fragments.
pub proof fn lemma_tokens_len_bound(text: Seq<char>)
    ensures
        tokens(text).len() <= fragments(text).len() <= text.len(),
    decreases text.len(),
{
    fragments(text).lemma_filter_len(|f: Seq<char>| holds_word(f));
    if text.len() > 0 {
        if unicode_whitespace(text[0]) {
            lemma_tokens_len_bound(text.skip(1));
        } else {
            lemma_fragment_len_bound(text);
            lemma_tokens_len_bound(text.skip(fragment_len(text) as int));
        }
    }
}

/// No character of the first fragment is whitespace.
pub proof fn lemma_fragment_holds_no_whitespace(s: Seq<char>, j: int)
    requires
        0 <= j < fragment_len(s),
    ensures
        j < s.len(),
        !unicode_whitespace(s[j]),
    decreases s.len(),
{
    if j > 0 {
        lemma_fragment_holds_no_whitespace(s.skip(1), j - 1);
    }
}

/// A text that holds nothing but whitespace and punctuation holds no word.
/// The empty text is such a text.
pub proof fn lemma_no_letters_no_words(text: Seq<char>)
    requires
        forall|i: int|
            0 <= i < text.len() ==> unicode_whitespace(#[trigger] text[i]) || punctuation(text[i]),
    ensures
        tokens(text) == Seq::<Seq<char>>::empty(),
    decreases text.len(),
{
    if text.len() == 0 {
        lemma_tokens_of_first(text, Seq::empty());
    } else if unicode_whitespace(text[0]) {
        let t = text.skip(1);
        assert forall|i: int| 0 <= i < t.len() implies unicode_whitespace(#[trigger] t[i])
            || punctuation(t[i]) by {
            assert(t[i] == text[i + 1]);
        }
        lemma_no_letters_no_words(t);
    } else {
        let n = fragment_len(text) as int;
        lemma_fragment_len_bound(text);
        let f = text.take(n);
        let t = text.skip(n);
        assert forall|j: int| 0 <= j < n implies punctuation(#[trigger] f[j]) by {
            lemma_fragment_holds_no_whitespace(text, j);
            assert(f[j] == text[j]);
        }
        lemma_leading_is(f, n);
        assert(strip(f).len() == 0);
        assert forall|i: int| 0 <= i < t.len() implies unicode_whitespace(#[trigger] t[i])
            || punctuation(t[i]) by {
            assert(t[i] == text[i + n]);
        }
        lemma_no_letters_no_words(t);
        lemma_tokens_of_first(f, fragments(t));
    }
}

/// Each normalized word of a text is the recorded form of a word: of a
/// sequence of letters that is not empty.
pub proof fn lemma_tokens_are_words(text: Seq<char>, i: int)
    requires
        0 <= i < tokens(text).len(),
    ensures
        is_key(tokens(text)[i]),
{
    let pred = |f: Seq<char>| holds_word(f);
    let held = fragments(text).filter(pred);
    fragments(text).lemma_filter_pred(pred, i);
    assert(qualifies(strip(held[i])) && tokens(text)[i] == canonical(strip(held[i])));
}

/// Words that hold an uppercase letter and have the same lowercase
/// equivalent are recorded under one key, and so is a word without an
/// uppercase letter that is that lowercase equivalent.
pub proof fn lemma_case_collapses(a: Seq<char>, b: Seq<char>)
    requires
        holds_uppercase(a),
    ensures
        holds_uppercase(b) && unicode_lowercase(a) == unicode_lowercase(b) ==> canonical(a)
            == canonical(b),
        !holds_uppercase(b) ==> (canonical(a) == canonical(b) <==> b == unicode_lowercase(a)),
{
}

/// What a first fragment adds to the normalized words of those after it.
proof fn lemma_tokens_of_first(f: Seq<char>, rest: Seq<Seq<char>>)
    ensures
        tokens_of(seq![f] + rest) == if holds_word(f) {
            seq![key_of(f)] + tokens_of(rest)
        } else {
            tokens_of(rest)
        },
        tokens_of(Seq::empty()) == Seq::<Seq<char>>::empty(),
{
    let pred = |f: Seq<char>| holds_word(f);
    let one = seq![f];
    reveal_with_fuel(Seq::filter, 2);
    assert(one.drop_last() =~= Seq::empty());
    assert(one.filter(pred) =~= if holds_word(f) { one } else { Seq::empty() });
    Seq::filter_distributes_over_add(one, rest, pred);
    assert(tokens_of(seq![f] + rest) =~= if holds_word(f) {
        seq![key_of(f)] + tokens_of(rest)
    } else {
        tokens_of(rest)
    });
    assert(tokens_of(Seq::empty()) =~= Seq::<Seq<char>>::empty());
}

/// Whether `c` is one of the punctuation characters.
pub fn is_punctuation(c: char) -> (b: bool)
    ensures
        b == punctuation(c),
{
    c == '!' || c == '.' || c == ',' || c == '?' || c == '/' || c == ';' || c == ':' || c == '\''
}

/// Removes the punctuation at the start and at the end of a fragment.
pub fn trim(f: &[char]) -> (w: &[char])
    ensures
        w@ == strip(f@),
{
    let mut a: usize = 0;
    while a < f.len() && is_punctuation(f[a])
        invariant
            a <= f.len(),
            forall|j: int| 0 <= j < a ==> punctuation(#[trigger] f@[j]),
        decreases f.len() - a,
    {
        a += 1;
    }
    let mut b: usize = f.len();
    while b > a && is_punctuation(f[b - 1])
        invariant
            a <= b <= f.len(),
            forall|j: int| b <= j < f.len() ==> punctuation(#[trigger] f@[j]),
        decreases b,
    {
        b -= 1;
    }
    proof {
        lemma_leading_is(f@, a as int);
        let t = f@.skip(a as int);
        assert forall|j: int| t.len() - (f.len() - b) <= j < t.len() implies punctuation(
            #[trigger] t[j],
        ) by {
            assert(t[j] == f@[j + a]);
        }
        lemma_trailing_is(t, f.len() - b);
        assert(f@.subrange(a as int, b as int) =~= t.take(t.len() - (f.len() - b)));
    }
    slice_subrange(f, a, b)
}

/// Whether `w` is a word: not empty, and letters only.
pub fn is_word(w: &[char]) -> (b: bool)
    ensures
        b == qualifies(w@),
{
    if w.len() == 0 {
        return false;
    }
    let mut i: usize = 0;
    while i < w.len()
        invariant
            i <= w.len(),
            forall|j: int| 0 <= j < i ==> unicode_alphabetic(#[trigger] w@[j]),
        decreases w.len() - i,
    {
        if !w[i].is_alphabetic() {
            return false;
        }
        i += 1;
    }
    true
}

/// Whether `w` holds an uppercase letter.
pub fn has_uppercase(w: &[char]) -> (b: bool)
    ensures
        b == holds_uppercase(w@),
{
    let mut i: usize = 0;
    while i < w.len()
        invariant
            i <= w.len(),
            forall|j: int| 0 <= j < i ==> !unicode_uppercase(#[trigger] w@[j]),
        decreases w.len() - i,
    {
        if w[i].is_uppercase() {
            return true;
        }
        i += 1;
    }
    false
}

/// The form under which the word `w` is recorded: its lowercase equivalent
/// if it holds an uppercase letter, else `w` itself.
pub fn normalize(w: &[char]) -> (key: Vec<char>)
    ensures
        key@ == canonical(w@),
{
    if has_uppercase(w) {
        let lower = string_of(w).as_str().to_lowercase();
        chars_of(lower.as_str())
    } else {
        slice_to_vec(w)
    }
}

/// The index at which the fragment that starts at `start` ends.
fn fragment_end(s: &[char], start: usize) -> (end: usize)
    requires
        start < s.len(),
        !unicode_whitespace(s@[start as int]),
    ensures
        start < end <= s.len(),
        end - start == fragment_len(s@.skip(start as int)),
{
    let mut end: usize = start + 1;
    while end < s.len() && !s[end].is_whitespace()
        invariant
            start < end <= s.len(),
            forall|j: int| start <= j < end ==> !unicode_whitespace(#[trigger] s@[j]),
        decreases s.len() - end,
    {
        end += 1;
    }
    proof {
        let t = s@.skip(start as int);
        assert forall|j: int| 0 <= j < end - start implies !unicode_whitespace(#[trigger] t[j]) by {
            assert(t[j] == s@[j + start]);
        }
        lemma_fragment_len_is(t, end - start);
    }
    end
}

/// The normalized words of `text`, in the order in which they occur.
pub fn tokenize(text: &str) -> (ts: Vec<Vec<char>>)
    ensures
        views(ts@) == tokens(text@),
{
    let chars = chars_of(text);
    let s = chars.as_slice();
    let mut ts: Vec<Vec<char>> = Vec::new();
    let mut pos: usize = 0;
    proof {
        assert(s@.skip(0) =~= s@);
        assert(views(ts@) + tokens(text@) =~= tokens(text@));
    }
    while pos < s.len()
        invariant
            pos <= s.len(),
            s@ == text@,
            tokens(text@) == views(ts@) + tokens_of(fragments(s@.skip(pos as int))),
        decreases s.len() - pos,
    {
        let ghost rest = s@.skip(pos as int);
        if s[pos].is_whitespace() {
            proof {
                assert(rest.skip(1) =~= s@.skip(pos + 1));
            }
            pos += 1;
        } else {
            let end = fragment_end(s, pos);
            let word = trim(slice_subrange(s, pos, end));
            proof {
                let f = rest.take(end - pos);
                let after = fragments(s@.skip(end as int));
                assert(f =~= s@.subrange(pos as int, end as int));
                assert(rest.skip(end - pos) =~= s@.skip(end as int));
                assert(fragments(rest) == seq![f] + after);
                lemma_tokens_of_first(f, after);
            }
            if is_word(word) {
                let key = normalize(word);
                proof {
                    assert(views(ts@.push(key)) =~= views(ts@).push(key@));
                    assert(views(ts@).push(key@) + tokens_of(fragments(s@.skip(end as int)))
                        =~= views(ts@) + (seq![key@] + tokens_of(fragments(s@.skip(end as int)))));
                }
                ts.push(key);
            }
            pos = end;
        }
    }
    proof {
        lemma_tokens_of_first(s@, Seq::empty());
        assert(views(ts@) + tokens_of(fragments(s@.skip(pos as int))) =~= views(ts@));
    }
    ts
}

} // verus!
