//! Word-frequency tables: counting the words of a text, merging the tables
//! of several texts, and ranking their entries.

use vstd::prelude::*;
use vstd::set_lib::lemma_subset_equality;
use crate::order::{
    entry_ranks_before, lemma_ranks_before_asymmetric, lemma_ranks_before_total,
    lemma_ranks_before_transitive, ranks_before,
};
use crate::text::{push_char, split_words, words};
use vstd::string::StringExecFns;

verus! {

/// How often `w` was counted in `m`; zero where `m` has no entry for it.
pub open spec fn count_of(m: Map<Seq<char>, nat>, w: Seq<char>) -> nat {
    if m.contains_key(w) {
        m[w]
    } else {
        0
    }
}

/// `m` with one more occurrence of `w`.
pub open spec fn bump(m: Map<Seq<char>, nat>, w: Seq<char>) -> Map<Seq<char>, nat> {
    m.insert(w, count_of(m, w) + 1)
}

/// `m` after counting each word of `ws`, in order.
pub open spec fn add_words(m: Map<Seq<char>, nat>, ws: Seq<Seq<char>>) -> Map<Seq<char>, nat>
    decreases ws.len(),
{
    if ws.len() == 0 {
        m
    } else {
        bump(add_words(m, ws.drop_last()), ws.last())
    }
}

/// The frequency table of the words `ws`.
pub open spec fn tally(ws: Seq<Seq<char>>) -> Map<Seq<char>, nat> {
    add_words(Map::empty(), ws)
}

/// The number of times `w` occurs in `ws`.
pub open spec fn times(ws: Seq<Seq<char>>, w: Seq<char>) -> nat
    decreases ws.len(),
{
    if ws.len() == 0 {
        0
    } else {
        times(ws.drop_last(), w) + if ws.last() == w { 1nat } else { 0nat }
    }
}

/// The table whose count for each word is the sum of its counts in `a` and `b`.
pub open spec fn merged(a: Map<Seq<char>, nat>, b: Map<Seq<char>, nat>) -> Map<Seq<char>, nat> {
    Map::new(|w: Seq<char>| a.contains_key(w) || b.contains_key(w), |w: Seq<char>| count_of(a, w) + count_of(b, w))
}

/// Counting the words `ws` onto `m` adds to each word's count the number of
/// times it occurs in `ws`.
pub proof fn lemma_add_words_count(m: Map<Seq<char>, nat>, ws: Seq<Seq<char>>, w: Seq<char>)
    ensures
        count_of(add_words(m, ws), w) == count_of(m, w) + times(ws, w),
    decreases ws.len(),
{
    if ws.len() > 0 {
        lemma_add_words_count(m, ws.drop_last(), w);
    }
}

/// The count of each word in the table of a text is the number of times
/// the word occurs in it.
pub proof fn lemma_tally_counts(ws: Seq<Seq<char>>, w: Seq<char>)
    ensures
        count_of(tally(ws), w) == times(ws, w),
{
    lemma_add_words_count(Map::empty(), ws, w);
}

/// A word occurs at most as often as there are words.
proof fn lemma_times_le_len(ws: Seq<Seq<char>>, w: Seq<char>)
    ensures
        times(ws, w) <= ws.len(),
    decreases ws.len(),
{
    if ws.len() > 0 {
        lemma_times_le_len(ws.drop_last(), w);
    }
}

/// A word occurs in a prefix at most as often as in the whole.
proof fn lemma_times_prefix(ws: Seq<Seq<char>>, i: int, w: Seq<char>)
    requires
        0 <= i <= ws.len(),
    ensures
        times(ws.take(i), w) <= times(ws, w),
    decreases ws.len(),
{
    if i == ws.len() {
        assert(ws.take(i) =~= ws);
    } else {
        assert(ws.drop_last().take(i) =~= ws.take(i));
        lemma_times_prefix(ws.drop_last(), i, w);
    }
}

/// A table of word counts. Its view maps each word seen to its count.
pub struct FrequencyTable {
    entries: Vec<(String, usize)>,
    counts: Ghost<Map<Seq<char>, nat>>,
}

impl View for FrequencyTable {
    type V = Map<Seq<char>, nat>;

    closed spec fn view(&self) -> Map<Seq<char>, nat> {
        self.counts@
    }
}

impl FrequencyTable {
    /// The entries list each word of the view once, with its count.
    pub closed spec fn wf(&self) -> bool {
        &&& forall|i: int, j: int|
            0 <= i < j < self.entries@.len() ==> self.entries@[i].0@ != self.entries@[j].0@
        &&& forall|i: int|
            0 <= i < self.entries@.len() ==> {
                &&& #[trigger] self.counts@.contains_key(self.entries@[i].0@)
                &&& self.counts@[self.entries@[i].0@] == self.entries@[i].1
            }
        &&& forall|w: Seq<char>|
            #[trigger] self.counts@.contains_key(w) ==> exists|i: int|
                0 <= i < self.entries@.len() && self.entries@[i].0@ == w
        &&& self.counts@.dom().finite()
        &&& self.counts@.dom().len() == self.entries@.len()
    }

    /// An empty table.
    pub fn new() -> (r: FrequencyTable)
        ensures
            r.wf(),
            r@ == Map::<Seq<char>, nat>::empty(),
    {
        FrequencyTable { entries: Vec::new(), counts: Ghost(Map::empty()) }
    }

    /// A well-formed table has finitely many words.
    pub proof fn lemma_view_finite(&self)
        requires
            self.wf(),
        ensures
            self@.dom().finite(),
    {
    }

    /// The number of distinct words in the table.
    pub fn len(&self) -> (r: usize)
        requires
            self.wf(),
        ensures
            r == self@.dom().len(),
    {
        self.entries.len()
    }

    /// The position of `word` among the entries, if it has one.
    fn index_of(&self, word: &String) -> (r: Option<usize>)
        requires
            self.wf(),
        ensures
            match r {
                Some(i) => i < self.entries@.len() && self.entries@[i as int].0@ == word@,
                None => !self@.contains_key(word@),
            },
    {
        let mut i: usize = 0;
        while i < self.entries.len()
            invariant
                self.wf(),
                i <= self.entries@.len(),
                forall|j: int| 0 <= j < i ==> self.entries@[j].0@ != word@,
            decreases self.entries@.len() - i,
        {
            if self.entries[i].0 == *word {
                return Some(i);
            }
            i = i + 1;
        }
        None
    }

    /// The count of `word`, or `None` where the table has no entry for it.
    pub fn get(&self, word: &str) -> (r: Option<usize>)
        requires
            self.wf(),
        ensures
            r == (if self@.contains_key(word@) { Some(self@[word@] as usize) } else { None::<usize> }),
    {
        let key = word.to_owned();
        match self.index_of(&key) {
            Some(i) => Some(self.entries[i].1),
            None => None,
        }
    }

    /// Adds `n` to the count of `word`, giving it an entry if it has none.
    pub fn add_count(&mut self, word: String, n: usize)
        requires
            old(self).wf(),
            count_of(old(self)@, word@) + n <= usize::MAX,
        ensures
            final(self).wf(),
            final(self)@ == old(self)@.insert(word@, (count_of(old(self)@, word@) + n) as nat),
    {
        let ghost w = word@;
        let ghost target = self@.insert(w, (count_of(self@, w) + n) as nat);
        let ghost old_entries = self.entries@;
        let ghost mut idx: int = 0;
        match self.index_of(&word) {
            Some(i) => {
                let c = self.entries[i].1;
                self.entries.set(i, (word, c + n));
                proof {
                    idx = i as int;
                    assert(target.dom() =~= old(self)@.dom());
                }
            },
            None => {
                self.entries.push((word, n));
                proof {
                    idx = old_entries.len() as int;
                    assert(target.dom() =~= old(self)@.dom().insert(w));
                }
            },
        }
        self.counts = Ghost(target);
        proof {
            let e = self.entries@;
            assert(e[idx].0@ == w);
            assert(e[idx].1 == count_of(old(self)@, w) + n);
            assert forall|j: int| 0 <= j < e.len() && j != idx implies e[j] == old_entries[j]
                && e[j].0@ != w by {
                assert(old(self)@.contains_key(old_entries[j].0@));
            }
            assert forall|i: int, j: int| 0 <= i < j < e.len() implies e[i].0@ != e[j].0@ by {
                if i != idx && j != idx {
                    assert(old_entries[i].0@ != old_entries[j].0@);
                }
            }
            assert forall|j: int| 0 <= j < e.len() implies #[trigger] target.contains_key(e[j].0@)
                && target[e[j].0@] == e[j].1 by {
                if j != idx {
                    assert(old(self)@.contains_key(old_entries[j].0@));
                }
            }
            assert(target.dom().finite());
            assert(target.dom().len() == e.len());
            assert forall|v: Seq<char>| #[trigger] target.contains_key(v) implies exists|i: int|
                0 <= i < e.len() && e[i].0@ == v by {
                if v != w {
                    let j = choose|j: int| 0 <= j < old_entries.len() && old_entries[j].0@ == v;
                    assert(e[j] == old_entries[j]);
                }
            }
        }
    }

    /// Counts one more occurrence of `word`.
    pub fn record(&mut self, word: String)
        requires
            old(self).wf(),
            count_of(old(self)@, word@) < usize::MAX,
        ensures
            final(self).wf(),
            final(self)@ == bump(old(self)@, word@),
    {
        self.add_count(word, 1);
    }
}

/// Counts the words `ws` onto `table`, in order.
fn add_all(table: &mut FrequencyTable, ws: &Vec<String>)
    requires
        old(table).wf(),
        forall|w: Seq<char>| #[trigger] count_of(old(table)@, w) + times(ws.deep_view(), w) <= usize::MAX,
    ensures
        final(table).wf(),
        final(table)@ == add_words(old(table)@, ws.deep_view()),
{
    let ghost dv = ws.deep_view();
    let mut i: usize = 0;
    proof {
        assert(dv.take(0) =~= Seq::<Seq<char>>::empty());
    }
    while i < ws.len()
        invariant
            dv == ws.deep_view(),
            i <= ws.len(),
            table.wf(),
            table@ == add_words(old(table)@, dv.take(i as int)),
            forall|w: Seq<char>| #[trigger] count_of(old(table)@, w) + times(dv, w) <= usize::MAX,
        decreases ws.len() - i,
    {
        let word = ws[i].clone();
        proof {
            let w = dv[i as int];
            assert(dv.take(i + 1).drop_last() =~= dv.take(i as int));
            assert(word@ == w);
            lemma_add_words_count(old(table)@, dv.take(i as int), w);
            lemma_add_words_count(old(table)@, dv.take(i + 1), w);
            lemma_times_prefix(dv, i + 1, w);
            assert(count_of(old(table)@, w) + times(dv, w) <= usize::MAX);
        }
        table.record(word);
        i = i + 1;
    }
    proof {
        assert(dv.take(i as int) =~= dv);
    }
}

/// Counts the words of `content` onto `table`.
pub fn update_word_freq(content: &str, table: &mut FrequencyTable)
    requires
        old(table).wf(),
        forall|w: Seq<char>| #[trigger] count_of(old(table)@, w) + times(words(content@), w) <= usize::MAX,
    ensures
        final(table).wf(),
        final(table)@ == add_words(old(table)@, words(content@)),
{
    let ws = split_words(content);
    add_all(table, &ws);
}

/// The frequency table of the words of `content`.
pub fn tokenize_words_in_content(content: &str) -> (r: FrequencyTable)
    ensures
        r.wf(),
        r@ == tally(words(content@)),
{
    let ws = split_words(content);
    let mut table = FrequencyTable::new();
    proof {
        assert forall|w: Seq<char>| #[trigger] count_of(table@, w) + times(ws.deep_view(), w) <= usize::MAX by {
            lemma_times_le_len(ws.deep_view(), w);
        }
    }
    add_all(&mut table, &ws);
    table
}

/// The words of the first `i` entries of `e`.
spec fn prefix_keys(e: Seq<(String, usize)>, i: int) -> Set<Seq<char>> {
    Set::new(|w: Seq<char>| exists|j: int| 0 <= j < i && e[j].0@ == w)
}

/// Whether the counts of `map1` and `map2` can be added word by word
/// without leaving the range of `usize`.
pub open spec fn can_merge(map1: Map<Seq<char>, nat>, map2: Map<Seq<char>, nat>) -> bool {
    forall|w: Seq<char>| #[trigger] count_of(map1, w) + count_of(map2, w) <= usize::MAX
}

/// The table whose count for each word is the sum of its counts in `map1`
/// and `map2`.
pub fn combine_hashmaps(map1: FrequencyTable, map2: FrequencyTable) -> (r: FrequencyTable)
    requires
        map1.wf(),
        map2.wf(),
        can_merge(map1@, map2@),
    ensures
        r.wf(),
        r@ == merged(map1@, map2@),
{
    let ghost m1 = map1@;
    let ghost m2 = map2@;
    let ghost e2 = map2.entries@;
    let mut combined = map1;
    let mut i: usize = 0;
    proof {
        assert(merged(m1, m2.restrict(prefix_keys(e2, 0))) =~= m1);
    }
    while i < map2.entries.len()
        invariant
            map2.wf(),
            m2 == map2@,
            e2 == map2.entries@,
            i <= e2.len(),
            can_merge(m1, m2),
            combined.wf(),
            combined@ == merged(m1, m2.restrict(prefix_keys(e2, i as int))),
        decreases e2.len() - i,
    {
        let word = map2.entries[i].0.clone();
        let n = map2.entries[i].1;
        proof {
            let k = e2[i as int].0@;
            let before = m2.restrict(prefix_keys(e2, i as int));
            let after = m2.restrict(prefix_keys(e2, i + 1));
            assert(!prefix_keys(e2, i as int).contains(k));
            assert(prefix_keys(e2, i + 1) =~= prefix_keys(e2, i as int).insert(k));
            assert(m2.contains_key(k) && m2[k] == n);
            assert(after =~= before.insert(k, n as nat));
            assert(count_of(m1, k) + count_of(m2, k) <= usize::MAX);
            assert(merged(m1, after) =~= combined@.insert(k, (count_of(combined@, k) + n) as nat));
        }
        combined.add_count(word, n);
        i = i + 1;
    }
    proof {
        assert forall|w: Seq<char>| m2.contains_key(w) implies prefix_keys(e2, i as int).contains(w) by {
            let j = choose|j: int| 0 <= j < e2.len() && e2[j].0@ == w;
        }
        assert(m2.restrict(prefix_keys(e2, i as int)) =~= m2);
    }
    combined
}

/// Merging is commutative and associative, word by word, so tables can be
/// merged in any order.
pub proof fn lemma_merge_commutative_associative(
    a: Map<Seq<char>, nat>,
    b: Map<Seq<char>, nat>,
    c: Map<Seq<char>, nat>,
)
    ensures
        merged(a, b) == merged(b, a),
        merged(merged(a, b), c) == merged(a, merged(b, c)),
{
    assert(merged(a, b) =~= merged(b, a));
    assert(merged(merged(a, b), c) =~= merged(a, merged(b, c)));
}

/// A word has an entry after counting `ws` onto `m` exactly where it had one
/// in `m` or occurs in `ws`.
proof fn lemma_add_words_has_entry(m: Map<Seq<char>, nat>, ws: Seq<Seq<char>>, w: Seq<char>)
    ensures
        add_words(m, ws).contains_key(w) <==> (m.contains_key(w) || times(ws, w) > 0),
    decreases ws.len(),
{
    if ws.len() > 0 {
        lemma_add_words_has_entry(m, ws.drop_last(), w);
    }
}

/// The occurrences of a word in two texts add up.
proof fn lemma_times_concat(a: Seq<Seq<char>>, b: Seq<Seq<char>>, w: Seq<char>)
    ensures
        times(a + b, w) == times(a, w) + times(b, w),
    decreases b.len(),
{
    if b.len() > 0 {
        assert((a + b).drop_last() =~= a + b.drop_last());
        lemma_times_concat(a, b.drop_last(), w);
    } else {
        assert(a + b =~= a);
    }
}

/// Merging the tables of two texts gives the table of the two texts taken
/// one after the other.
pub proof fn lemma_tally_concat(a: Seq<Seq<char>>, b: Seq<Seq<char>>)
    ensures
        tally(a + b) == merged(tally(a), tally(b)),
{
    assert forall|w: Seq<char>| #[trigger] tally(a + b).contains_key(w) == merged(tally(a), tally(b)).contains_key(w)
        && (tally(a + b).contains_key(w) ==> tally(a + b)[w] == merged(tally(a), tally(b))[w]) by {
        lemma_times_concat(a, b, w);
        lemma_tally_counts(a + b, w);
        lemma_tally_counts(a, w);
        lemma_tally_counts(b, w);
        lemma_add_words_has_entry(Map::empty(), a + b, w);
        lemma_add_words_has_entry(Map::empty(), a, w);
        lemma_add_words_has_entry(Map::empty(), b, w);
    }
    assert(tally(a + b) =~= merged(tally(a), tally(b)));
}

/// Whether `map1` and `map2` can be merged without a count leaving the range
/// of `usize`.
pub fn can_combine(map1: &FrequencyTable, map2: &FrequencyTable) -> (r: bool)
    requires
        map1.wf(),
        map2.wf(),
    ensures
        r == can_merge(map1@, map2@),
{
    let mut i: usize = 0;
    while i < map2.entries.len()
        invariant
            map1.wf(),
            map2.wf(),
            i <= map2.entries@.len(),
            forall|j: int| 0 <= j < i ==> #[trigger] count_of(map1@, map2.entries@[j].0@) + map2.entries@[j].1 <= usize::MAX,
        decreases map2.entries@.len() - i,
    {
        let c1 = match map1.index_of(&map2.entries[i].0) {
            Some(j) => map1.entries[j].1,
            None => 0,
        };
        if c1 > usize::MAX - map2.entries[i].1 {
            proof {
                let w = map2.entries@[i as int].0@;
                assert(count_of(map1@, w) + count_of(map2@, w) > usize::MAX);
            }
            return false;
        }
        i = i + 1;
    }
    proof {
        assert forall|w: Seq<char>| #[trigger] count_of(map1@, w) + count_of(map2@, w) <= usize::MAX by {
            if map2@.contains_key(w) {
                let j = choose|j: int| 0 <= j < map2.entries@.len() && map2.entries@[j].0@ == w;
                assert(count_of(map1@, map2.entries@[j].0@) + map2.entries@[j].1 <= usize::MAX);
            } else if map1@.contains_key(w) {
                let j = choose|j: int| 0 <= j < map1.entries@.len() && map1.entries@[j].0@ == w;
            }
        }
    }
    true
}

/// `r` lists the `k` first entries of `m` (all of them where `m` has fewer),
/// each word with its count, in the order of `ranks_before`: higher counts
/// first, equal counts by ascending word.
pub open spec fn is_top_ranking(m: Map<Seq<char>, nat>, k: nat, r: Seq<(Seq<char>, usize)>) -> bool {
    &&& r.len() == (if k < m.dom().len() { k } else { m.dom().len() })
    &&& forall|i: int| 0 <= i < r.len() ==> #[trigger] m.contains_key(r[i].0) && m[r[i].0] == r[i].1
    &&& forall|i: int, j: int|
        0 <= i < j < r.len() ==> ranks_before(r[i].0, r[i].1 as int, r[j].0, r[j].1 as int)
    &&& forall|w: Seq<char>|
        #[trigger] m.contains_key(w) && (forall|i: int| 0 <= i < r.len() ==> r[i].0 != w) ==> forall|i: int|
            0 <= i < r.len() ==> ranks_before(r[i].0, r[i].1 as int, w, m[w] as int)
}

/// The position in `v` of the entry listed first.
fn position_of_first(v: &Vec<(String, usize)>) -> (r: usize)
    requires
        v@.len() > 0,
        forall|i: int, j: int| 0 <= i < j < v@.len() ==> v@[i].0@ != v@[j].0@,
    ensures
        r < v@.len(),
        forall|t: int|
            0 <= t < v@.len() && t != r ==> ranks_before(v@[r as int].0@, v@[r as int].1 as int, v@[t].0@, v@[t].1 as int),
{
    let mut best: usize = 0;
    let mut j: usize = 1;
    while j < v.len()
        invariant
            0 < j <= v@.len(),
            best < j,
            forall|i: int, t: int| 0 <= i < t < v@.len() ==> v@[i].0@ != v@[t].0@,
            forall|t: int|
                0 <= t < j && t != best ==> ranks_before(v@[best as int].0@, v@[best as int].1 as int, v@[t].0@, v@[t].1 as int),
        decreases v@.len() - j,
    {
        let ghost b = v@[best as int];
        let ghost c = v@[j as int];
        if entry_ranks_before(&v[j], &v[best]) {
            proof {
                assert forall|t: int| 0 <= t < j + 1 && t != j implies ranks_before(c.0@, c.1 as int, v@[t].0@, v@[t].1 as int) by {
                    if t != best {
                        lemma_ranks_before_transitive(c.0@, c.1 as int, b.0@, b.1 as int, v@[t].0@, v@[t].1 as int);
                    }
                }
            }
            best = j;
        } else {
            proof {
                lemma_ranks_before_total(c.0@, c.1 as int, b.0@, b.1 as int);
            }
        }
        j = j + 1;
    }
    best
}

/// The `k` first entries of `table` in ranking order: higher counts first,
/// equal counts by ascending word. The order does not depend on how the
/// table was filled.
pub fn select_top(table: &FrequencyTable, k: usize) -> (r: Vec<(String, usize)>)
    requires
        table.wf(),
    ensures
        is_top_ranking(table@, k as nat, r.deep_view()),
{
    let ghost m = table@;
    let n = table.entries.len();
    let mut rest: Vec<(String, usize)> = Vec::new();
    let mut i: usize = 0;
    while i < n
        invariant
            table.wf(),
            n == table.entries@.len(),
            i <= n,
            rest@ == table.entries@.take(i as int),
        decreases n - i,
    {
        let e = (table.entries[i].0.clone(), table.entries[i].1);
        rest.push(e);
        proof {
            assert(rest@ =~= table.entries@.take(i + 1));
        }
        i = i + 1;
    }
    proof {
        assert(rest@ =~= table.entries@);
    }
    let target = if k < n { k } else { n };
    let mut out: Vec<(String, usize)> = Vec::new();
    while out.len() < target
        invariant
            table.wf(),
            m == table@,
            n == m.dom().len(),
            target <= n,
            target == (if k < n { k } else { n }),
            out@.len() <= target,
            out@.len() + rest@.len() == n,
            forall|i: int| 0 <= i < out@.len() ==> #[trigger] m.contains_key(out@[i].0@) && m[out@[i].0@] == out@[i].1,
            forall|i: int| 0 <= i < rest@.len() ==> #[trigger] m.contains_key(rest@[i].0@) && m[rest@[i].0@] == rest@[i].1,
            forall|i: int, j: int| 0 <= i < j < rest@.len() ==> rest@[i].0@ != rest@[j].0@,
            forall|w: Seq<char>| #[trigger] m.contains_key(w) ==>
                (exists|i: int| 0 <= i < out@.len() && out@[i].0@ == w)
                || (exists|j: int| 0 <= j < rest@.len() && rest@[j].0@ == w),
            forall|i: int, j: int| 0 <= i < j < out@.len() ==>
                ranks_before(out@[i].0@, out@[i].1 as int, out@[j].0@, out@[j].1 as int),
            forall|i: int, j: int| 0 <= i < out@.len() && 0 <= j < rest@.len() ==>
                ranks_before(out@[i].0@, out@[i].1 as int, rest@[j].0@, rest@[j].1 as int),
        decreases target - out@.len(),
    {
        let best = position_of_first(&rest);
        let ghost old_rest = rest@;
        let ghost old_out = out@;
        let e = rest.remove(best);
        out.push(e);
        proof {
            assert forall|w: Seq<char>| #[trigger] m.contains_key(w) implies
                (exists|i: int| 0 <= i < out@.len() && out@[i].0@ == w)
                || (exists|j: int| 0 <= j < rest@.len() && rest@[j].0@ == w) by {
                if exists|i: int| 0 <= i < old_out.len() && old_out[i].0@ == w {
                    let i = choose|i: int| 0 <= i < old_out.len() && old_out[i].0@ == w;
                    assert(out@[i] == old_out[i]);
                } else {
                    let j = choose|j: int| 0 <= j < old_rest.len() && old_rest[j].0@ == w;
                    if j == best {
                        assert(out@[old_out.len() as int] == e);
                    } else if j < best {
                        assert(rest@[j] == old_rest[j]);
                    } else {
                        assert(rest@[j - 1] == old_rest[j]);
                    }
                }
            }
        }
    }
    proof {
        let r = out.deep_view();
        assert forall|w: Seq<char>|
            #[trigger] m.contains_key(w) && (forall|i: int| 0 <= i < r.len() ==> r[i].0 != w) implies forall|i: int|
            0 <= i < r.len() ==> ranks_before(r[i].0, r[i].1 as int, w, m[w] as int) by {
            if exists|i: int| 0 <= i < out@.len() && out@[i].0@ == w {
                let i = choose|i: int| 0 <= i < out@.len() && out@[i].0@ == w;
                assert(r[i].0 == w);
            }
        }
    }
    out
}

/// Where two rankings of one table agree before position `i`, the entry of
/// the first at `i` is not listed before the entry of the second at `i`.
proof fn lemma_rankings_agree_at(
    m: Map<Seq<char>, nat>,
    k: nat,
    r1: Seq<(Seq<char>, usize)>,
    r2: Seq<(Seq<char>, usize)>,
    i: int,
)
    requires
        is_top_ranking(m, k, r1),
        is_top_ranking(m, k, r2),
        0 <= i < r1.len(),
        r1.len() == r2.len(),
        forall|j: int| 0 <= j < i ==> r1[j] == r2[j],
    ensures
        !ranks_before(r1[i].0, r1[i].1 as int, r2[i].0, r2[i].1 as int),
{
    let x = r1[i];
    let y = r2[i];
    if ranks_before(x.0, x.1 as int, y.0, y.1 as int) {
        assert(m.contains_key(x.0) && m[x.0] == x.1);
        assert(m.contains_key(y.0) && m[y.0] == y.1);
        lemma_ranks_before_asymmetric(x.0, x.1 as int, y.0, y.1 as int);
        if exists|j: int| 0 <= j < r2.len() && r2[j].0 == x.0 {
            let j = choose|j: int| 0 <= j < r2.len() && r2[j].0 == x.0;
            assert(m.contains_key(r2[j].0));
            if j < i {
                assert(r1[j] == r2[j]);
                assert(ranks_before(r1[j].0, r1[j].1 as int, r1[i].0, r1[i].1 as int));
                lemma_ranks_before_asymmetric(x.0, x.1 as int, x.0, x.1 as int);
            } else if j > i {
                assert(ranks_before(r2[i].0, r2[i].1 as int, r2[j].0, r2[j].1 as int));
            }
        } else {
            assert(forall|j: int| 0 <= j < r2.len() ==> r2[j].0 != x.0);
            assert(ranks_before(r2[i].0, r2[i].1 as int, x.0, m[x.0] as int));
        }
    }
}

/// A table has exactly one ranking of its `k` first entries: the result of
/// `select_top` depends on the counts alone, not on the order in which the
/// table was filled, and ties always come in ascending order of words.
pub proof fn lemma_top_ranking_unique(
    m: Map<Seq<char>, nat>,
    k: nat,
    r1: Seq<(Seq<char>, usize)>,
    r2: Seq<(Seq<char>, usize)>,
)
    requires
        is_top_ranking(m, k, r1),
        is_top_ranking(m, k, r2),
    ensures
        r1 == r2,
{
    lemma_rankings_equal_up_to(m, k, r1, r2, r1.len() as int);
    assert(r1 =~= r2);
}

/// Two rankings of one table agree on their first `n` entries.
proof fn lemma_rankings_equal_up_to(
    m: Map<Seq<char>, nat>,
    k: nat,
    r1: Seq<(Seq<char>, usize)>,
    r2: Seq<(Seq<char>, usize)>,
    n: int,
)
    requires
        is_top_ranking(m, k, r1),
        is_top_ranking(m, k, r2),
        0 <= n <= r1.len(),
    ensures
        forall|j: int| 0 <= j < n ==> r1[j] == r2[j],
    decreases n,
{
    if n > 0 {
        let i = n - 1;
        lemma_rankings_equal_up_to(m, k, r1, r2, i);
        lemma_rankings_agree_at(m, k, r1, r2, i);
        lemma_rankings_agree_at(m, k, r2, r1, i);
        let x = r1[i];
        let y = r2[i];
        assert(m.contains_key(x.0) && m[x.0] == x.1);
        assert(m.contains_key(y.0) && m[y.0] == y.1);
        if x.0 != y.0 {
            lemma_ranks_before_total(x.0, x.1 as int, y.0, y.1 as int);
        }
    }
}

/// How many entries a ranking lists when no other number is asked for.
pub const DEFAULT_TOP_K: usize = 10;

/// The `DEFAULT_TOP_K` first entries of `map` in ranking order.
pub fn arrange_hashmap(map: FrequencyTable) -> (r: Vec<(String, usize)>)
    requires
        map.wf(),
    ensures
        is_top_ranking(map@, DEFAULT_TOP_K as nat, r.deep_view()),
{
    select_top(&map, DEFAULT_TOP_K)
}

/// The character of the decimal digit `d`.
pub open spec fn digit_char(d: nat) -> char {
    ((48 + d) as u8) as char
}

/// The decimal notation of `n`, without leading zeros.
pub open spec fn decimal(n: nat) -> Seq<char>
    decreases n,
{
    if n < 10 {
        seq![digit_char(n)]
    } else {
        decimal(n / 10).push(digit_char(n % 10))
    }
}

/// One line of a rendered ranking: the count, a space, the word, a newline.
pub open spec fn render_line(w: Seq<char>, c: nat) -> Seq<char> {
    decimal(c) + seq![' '] + w + seq!['\n']
}

/// The lines of the entries of `r`, in order.
pub open spec fn render(r: Seq<(Seq<char>, usize)>) -> Seq<char>
    decreases r.len(),
{
    if r.len() == 0 {
        Seq::empty()
    } else {
        render(r.drop_last()) + render_line(r.last().0, r.last().1 as nat)
    }
}

/// Appends the decimal notation of `n` to `s`.
fn push_decimal(s: &mut String, n: usize)
    ensures
        final(s)@ == old(s)@ + decimal(n as nat),
    decreases n,
{
    if n >= 10 {
        push_decimal(s, n / 10);
    }
    let d = (n % 10) as u8;
    push_char(s, (48u8 + d) as char);
    proof {
        assert(final(s)@ =~= old(s)@ + decimal(n as nat));
    }
}

/// One line per entry of `ranked`: its count, a space, its word.
pub fn render_ranking(ranked: &Vec<(String, usize)>) -> (r: String)
    ensures
        r@ == render(ranked.deep_view()),
{
    let mut out = String::new();
    let mut i: usize = 0;
    proof {
        assert(ranked.deep_view().take(0) =~= Seq::<(Seq<char>, usize)>::empty());
    }
    while i < ranked.len()
        invariant
            i <= ranked@.len(),
            out@ == render(ranked.deep_view().take(i as int)),
        decreases ranked@.len() - i,
    {
        let ghost before = out@;
        push_decimal(&mut out, ranked[i].1);
        push_char(&mut out, ' ');
        out.append(ranked[i].0.as_str());
        push_char(&mut out, '\n');
        proof {
            let dv = ranked.deep_view();
            assert(dv.take(i + 1).drop_last() =~= dv.take(i as int));
            assert(out@ =~= before + render_line(dv[i as int].0, dv[i as int].1 as nat));
        }
        i = i + 1;
    }
    proof {
        assert(ranked.deep_view().take(i as int) =~= ranked.deep_view());
    }
    out
}

/// The `DEFAULT_TOP_K` first entries of `word_freq`, rendered one per line
/// as count, space, word.
pub fn frequency_of_words_to_string(word_freq: &FrequencyTable) -> (r: String)
    requires
        word_freq.wf(),
    ensures
        exists|ranked: Seq<(Seq<char>, usize)>|
            is_top_ranking(word_freq@, DEFAULT_TOP_K as nat, ranked) && r@ == render(ranked),
{
    let ranked = select_top(word_freq, DEFAULT_TOP_K);
    render_ranking(&ranked)
}

/// The frequency table of the words of `content`, with its rendered ranking.
pub fn count_frequency_of_words_in_content(content: &str) -> (r: (String, FrequencyTable))
    ensures
        r.1.wf(),
        r.1@ == tally(words(content@)),
        exists|ranked: Seq<(Seq<char>, usize)>|
            is_top_ranking(r.1@, DEFAULT_TOP_K as nat, ranked) && r.0@ == render(ranked),
{
    let word_freq = tokenize_words_in_content(content);
    (frequency_of_words_to_string(&word_freq), word_freq)
}

/// The boundaries of a ranking: it is empty where the table is empty or no
/// entry is asked for, and where more entries are asked for than the table
/// has, it lists every entry of the table, in ranking order.
pub proof fn lemma_top_ranking_bounds(m: Map<Seq<char>, nat>, k: nat, r: Seq<(Seq<char>, usize)>)
    requires
        m.dom().finite(),
        is_top_ranking(m, k, r),
    ensures
        m.dom().len() == 0 ==> r.len() == 0,
        k == 0 ==> r.len() == 0,
        k >= m.dom().len() ==> r.len() == m.dom().len()
            && forall|w: Seq<char>| #[trigger] m.contains_key(w) ==> exists|i: int| 0 <= i < r.len() && r[i].0 == w,
{
    if k >= m.dom().len() {
        let keys = r.map_values(|e: (Seq<char>, usize)| e.0);
        assert forall|i: int, j: int| 0 <= i < keys.len() && 0 <= j < keys.len() && i != j implies keys[i] != keys[j] by {
            let (a, b) = if i < j { (i, j) } else { (j, i) };
            assert(m.contains_key(r[a].0) && m.contains_key(r[b].0));
            lemma_ranks_before_asymmetric(r[a].0, r[a].1 as int, r[b].0, r[b].1 as int);
        }
        keys.unique_seq_to_set();
        assert forall|w: Seq<char>| keys.to_set().contains(w) implies m.dom().contains(w) by {
            let i = choose|i: int| 0 <= i < keys.len() && keys[i] == w;
            assert(m.contains_key(r[i].0));
        }
        lemma_subset_equality(keys.to_set(), m.dom());
        assert forall|w: Seq<char>| #[trigger] m.contains_key(w) implies exists|i: int| 0 <= i < r.len() && r[i].0 == w by {
            assert(keys.to_set().contains(w));
            let i = choose|i: int| 0 <= i < keys.len() && keys[i] == w;
            assert(r[i].0 == w);
        }
    }
}

} // verus!
