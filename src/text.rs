//! Basic counters over a text blob, and the whitespace tokenizer they share
//! with the frequency tables.

use vstd::prelude::*;
use vstd::string::StrSliceExecFns;

verus! {

/// The number of occurrences of `c` in `s`.
pub open spec fn occurrences(s: Seq<char>, c: char) -> nat
    decreases s.len(),
{
    if s.len() == 0 {
        0
    } else {
        occurrences(s.drop_last(), c) + if s.last() == c { 1nat } else { 0nat }
    }
}

/// The whitespace that separates words: space, tab, newline, carriage
/// return, form feed and vertical tab.
pub open spec fn is_blank(c: char) -> bool {
    c == ' ' || c == '\t' || c == '\n' || c == '\r' || c == '\x0C' || c == '\x0B'
}

/// The words of `s`: its maximal runs of non-blank characters, in order.
pub open spec fn words(s: Seq<char>) -> Seq<Seq<char>>
    decreases s.len(),
{
    if s.len() == 0 {
        Seq::empty()
    } else {
        let prev = words(s.drop_last());
        if is_blank(s.last()) {
            prev
        } else if s.len() > 1 && !is_blank(s[s.len() - 2]) {
            prev.update(prev.len() - 1, prev.last().push(s.last()))
        } else {
            prev.push(seq![s.last()])
        }
    }
}

/// A text that ends inside a word has at least one word.
proof fn lemma_words_nonempty(s: Seq<char>)
    requires
        s.len() > 0,
        !is_blank(s.last()),
    ensures
        words(s).len() > 0,
    decreases s.len(),
{
    if s.len() > 1 && !is_blank(s[s.len() - 2]) {
        lemma_words_nonempty(s.drop_last());
    }
}

/// Every word is non-empty and holds no blank.
proof fn lemma_words_shape(s: Seq<char>)
    ensures
        forall|i: int| 0 <= i < words(s).len() ==> (#[trigger] words(s)[i]).len() > 0
            && forall|j: int| 0 <= j < words(s)[i].len() ==> !is_blank(words(s)[i][j]),
    decreases s.len(),
{
    if s.len() > 0 {
        lemma_words_shape(s.drop_last());
        if !is_blank(s.last()) && s.len() > 1 && !is_blank(s[s.len() - 2]) {
            lemma_words_nonempty(s.drop_last());
        }
    }
}

/// A non-empty run of non-blank characters is one word.
proof fn lemma_words_of_word(w: Seq<char>)
    requires
        w.len() > 0,
        forall|j: int| 0 <= j < w.len() ==> !is_blank(w[j]),
    ensures
        words(w) == seq![w],
    decreases w.len(),
{
    let prev = w.drop_last();
    if w.len() == 1 {
        assert(prev =~= Seq::<char>::empty());
        assert(words(prev) =~= Seq::<Seq<char>>::empty());
        assert(seq![w.last()] =~= w);
        assert(words(w) =~= seq![w]);
    } else {
        lemma_words_of_word(prev);
        assert(prev.push(w.last()) =~= w);
        assert(!is_blank(w[w.len() - 2]));
        assert(!is_blank(w.last()));
        assert(seq![prev].update(0, prev.push(w.last())) =~= seq![w]);
    }
}

/// Tokenizing is idempotent: each word of a text, tokenized again, gives
/// back that word alone.
pub proof fn lemma_words_idempotent(s: Seq<char>)
    ensures
        forall|i: int| 0 <= i < words(s).len() ==> words(#[trigger] words(s)[i]) == seq![words(s)[i]],
{
    lemma_words_shape(s);
    assert forall|i: int| 0 <= i < words(s).len() implies words(#[trigger] words(s)[i]) == seq![words(s)[i]] by {
        lemma_words_of_word(words(s)[i]);
    }
}

/// Relies on `String::push`: appends one character at the end.
#[verifier::external_body]
pub(crate) fn push_char(s: &mut String, c: char)
    ensures
        final(s)@ == old(s)@.push(c),
{
    s.push(c);
}

/// Whether `c` separates words.
fn is_blank_char(c: char) -> (r: bool)
    ensures
        r == is_blank(c),
{
    c == ' ' || c == '\t' || c == '\n' || c == '\r' || c == '\x0C' || c == '\x0B'
}

/// The characters of `s`, one by one.
pub(crate) fn chars_of(s: &str) -> (v: Vec<char>)
    ensures
        v@ == s@,
{
    let mut v: Vec<char> = Vec::new();
    for c in it: s.chars()
        invariant
            it.seq() == s@,
            v@ == s@.take(it.index() as int),
    {
        v.push(c);
        proof {
            assert(v@ =~= s@.take(it.index() + 1));
        }
    }
    proof {
        assert(s@.take(s@.len() as int) =~= s@);
    }
    v
}

/// Returns the number of newline characters in `content`.
pub fn count_lines_in_content(content: &str) -> (r: usize)
    ensures
        r == occurrences(content@, '\n'),
{
    let chars = chars_of(content);
    let mut n: usize = 0;
    let mut i: usize = 0;
    while i < chars.len()
        invariant
            chars@ == content@,
            i <= chars.len(),
            n <= i,
            n == occurrences(content@.take(i as int), '\n'),
        decreases chars.len() - i,
    {
        proof {
            assert(content@.take(i + 1).drop_last() =~= content@.take(i as int));
        }
        if chars[i] == '\n' {
            n = n + 1;
        }
        i = i + 1;
    }
    proof {
        assert(content@.take(i as int) =~= content@);
    }
    n
}

/// Returns the number of characters (Unicode scalar values) in `content`.
pub fn count_characters_in_content(content: &str) -> (r: usize)
    ensures
        r == content@.len(),
{
    content.unicode_len()
}

/// Returns the number of words in `content`.
pub fn count_words_in_content(content: &str) -> (r: usize)
    ensures
        r == words(content@).len(),
{
    let chars = chars_of(content);
    let mut n: usize = 0;
    let mut in_word = false;
    let mut i: usize = 0;
    while i < chars.len()
        invariant
            chars@ == content@,
            i <= chars.len(),
            n <= i,
            n == words(content@.take(i as int)).len(),
            in_word == (i > 0 && !is_blank(content@[i - 1])),
        decreases chars.len() - i,
    {
        let ghost prefix = content@.take(i + 1);
        proof {
            assert(prefix.drop_last() =~= content@.take(i as int));
            assert(prefix.last() == content@[i as int]);
            if i > 0 {
                assert(prefix[i - 1] == content@[i - 1]);
            }
            if in_word {
                lemma_words_nonempty(content@.take(i as int));
            }
        }
        if is_blank_char(chars[i]) {
            in_word = false;
        } else {
            if !in_word {
                n = n + 1;
            }
            in_word = true;
        }
        i = i + 1;
    }
    proof {
        assert(content@.take(i as int) =~= content@);
    }
    n
}

/// Splits `content` into its words, in order.
pub fn split_words(content: &str) -> (r: Vec<String>)
    ensures
        r.deep_view() == words(content@),
{
    let chars = chars_of(content);
    let mut out: Vec<String> = Vec::new();
    let mut cur = String::new();
    let mut i: usize = 0;
    while i < chars.len()
        invariant
            chars@ == content@,
            i <= chars.len(),
            cur@.len() > 0 <==> (i > 0 && !is_blank(content@[i - 1])),
            cur@.len() > 0 ==> words(content@.take(i as int)) == out.deep_view().push(cur@),
            cur@.len() == 0 ==> words(content@.take(i as int)) == out.deep_view(),
        decreases chars.len() - i,
    {
        let ghost prefix = content@.take(i + 1);
        let ghost before = out.deep_view();
        proof {
            assert(prefix.drop_last() =~= content@.take(i as int));
        }
        let c = chars[i];
        if is_blank_char(c) {
            if !cur.as_str().is_empty() {
                let done = cur;
                out.push(done);
                cur = String::new();
                assert(out.deep_view() =~= before.push(done@));
            }
        } else {
            if cur.as_str().is_empty() {
                assert(seq![c] =~= cur@.push(c));
            } else {
                assert(before.push(cur@).update(before.len() as int, cur@.push(c))
                    =~= before.push(cur@.push(c)));
            }
            push_char(&mut cur, c);
        }
        i = i + 1;
    }
    proof {
        assert(content@.take(i as int) =~= content@);
    }
    if !cur.as_str().is_empty() {
        let ghost before = out.deep_view();
        let done = cur;
        out.push(done);
        assert(out.deep_view() =~= before.push(done@));
    }
    out
}

} // verus!
