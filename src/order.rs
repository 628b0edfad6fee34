//! The order in which ranked words are listed: higher counts first, and
//! among equal counts the lexicographically smaller word first.

use vstd::prelude::*;
use crate::text::chars_of;

verus! {

/// `a` comes strictly before `b` in lexicographic order of code points.
pub open spec fn seq_lt(a: Seq<char>, b: Seq<char>) -> bool
    decreases a.len(),
{
    if a.len() == 0 {
        b.len() > 0
    } else if b.len() == 0 {
        false
    } else if a[0] != b[0] {
        a[0] < b[0]
    } else {
        seq_lt(a.drop_first(), b.drop_first())
    }
}

/// No word comes before itself.
pub proof fn lemma_seq_lt_irreflexive(a: Seq<char>)
    ensures
        !seq_lt(a, a),
    decreases a.len(),
{
    if a.len() > 0 {
        lemma_seq_lt_irreflexive(a.drop_first());
    }
}

/// Of two words, at most one comes before the other.
pub proof fn lemma_seq_lt_asymmetric(a: Seq<char>, b: Seq<char>)
    ensures
        !(seq_lt(a, b) && seq_lt(b, a)),
    decreases a.len(),
{
    if a.len() > 0 && b.len() > 0 && a[0] == b[0] {
        lemma_seq_lt_asymmetric(a.drop_first(), b.drop_first());
    }
}

/// The lexicographic order is transitive.
pub proof fn lemma_seq_lt_transitive(a: Seq<char>, b: Seq<char>, c: Seq<char>)
    requires
        seq_lt(a, b),
        seq_lt(b, c),
    ensures
        seq_lt(a, c),
    decreases a.len(),
{
    if a.len() > 0 && b.len() > 0 && c.len() > 0 && a[0] == b[0] && b[0] == c[0] {
        lemma_seq_lt_transitive(a.drop_first(), b.drop_first(), c.drop_first());
    }
}

/// Of two different words, one comes before the other.
pub proof fn lemma_seq_lt_total(a: Seq<char>, b: Seq<char>)
    requires
        a != b,
    ensures
        seq_lt(a, b) || seq_lt(b, a),
    decreases a.len(),
{
    if a.len() > 0 && b.len() > 0 {
        if a[0] == b[0] {
            if a.drop_first() == b.drop_first() {
                assert(a =~= seq![a[0]] + a.drop_first());
                assert(b =~= seq![b[0]] + b.drop_first());
            }
            lemma_seq_lt_total(a.drop_first(), b.drop_first());
        }
    } else if a.len() == 0 && b.len() == 0 {
        assert(a =~= b);
    }
}

/// The entry (`wa`, `ca`) is listed before the entry (`wb`, `cb`): it has
/// the higher count, or the same count and the smaller word.
pub open spec fn ranks_before(wa: Seq<char>, ca: int, wb: Seq<char>, cb: int) -> bool {
    ca > cb || (ca == cb && seq_lt(wa, wb))
}

/// The order of entries is transitive.
pub proof fn lemma_ranks_before_transitive(
    wa: Seq<char>,
    ca: int,
    wb: Seq<char>,
    cb: int,
    wc: Seq<char>,
    cc: int,
)
    requires
        ranks_before(wa, ca, wb, cb),
        ranks_before(wb, cb, wc, cc),
    ensures
        ranks_before(wa, ca, wc, cc),
{
    if ca == cb && cb == cc {
        lemma_seq_lt_transitive(wa, wb, wc);
    }
}

/// Of two entries with different words, one is listed before the other.
pub proof fn lemma_ranks_before_total(wa: Seq<char>, ca: int, wb: Seq<char>, cb: int)
    requires
        wa != wb,
    ensures
        ranks_before(wa, ca, wb, cb) || ranks_before(wb, cb, wa, ca),
{
    lemma_seq_lt_total(wa, wb);
}

/// Of two entries, at most one is listed before the other, and no entry is
/// listed before itself.
pub proof fn lemma_ranks_before_asymmetric(wa: Seq<char>, ca: int, wb: Seq<char>, cb: int)
    ensures
        !(ranks_before(wa, ca, wb, cb) && ranks_before(wb, cb, wa, ca)),
        !ranks_before(wa, ca, wa, ca),
{
    lemma_seq_lt_asymmetric(wa, wb);
    lemma_seq_lt_irreflexive(wa);
}

/// Whether `a` comes strictly before `b` in lexicographic order.
fn chars_lt(a: &Vec<char>, b: &Vec<char>) -> (r: bool)
    ensures
        r == seq_lt(a@, b@),
{
    let mut i: usize = 0;
    proof {
        assert(a@.skip(0) =~= a@);
        assert(b@.skip(0) =~= b@);
    }
    while i < a.len() && i < b.len()
        invariant
            i <= a.len(),
            i <= b.len(),
            seq_lt(a@, b@) == seq_lt(a@.skip(i as int), b@.skip(i as int)),
        decreases a.len() - i,
    {
        if a[i] != b[i] {
            return a[i] < b[i];
        }
        proof {
            assert(a@.skip(i as int).drop_first() =~= a@.skip(i + 1));
            assert(b@.skip(i as int).drop_first() =~= b@.skip(i + 1));
        }
        i = i + 1;
    }
    i < b.len()
}

/// Whether the entry `a` is listed before the entry `b`.
pub fn entry_ranks_before(a: &(String, usize), b: &(String, usize)) -> (r: bool)
    ensures
        r == ranks_before(a.0@, a.1 as int, b.0@, b.1 as int),
{
    if a.1 != b.1 {
        a.1 > b.1
    } else {
        let ca = chars_of(a.0.as_str());
        let cb = chars_of(b.0.as_str());
        chars_lt(&ca, &cb)
    }
}

} // verus!
