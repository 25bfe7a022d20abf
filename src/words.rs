//! Case-insensitive word-frequency tables over whitespace-separated text.
use vstd::prelude::*;

verus! {

/// The whitespace-separated words of `s`, in order, as `str::split_whitespace`
/// yields them.
pub uninterp spec fn words_of(s: Seq<char>) -> Seq<Seq<char>>;

/// The lowercase form of `s`, as `str::to_lowercase` gives it.
pub uninterp spec fn lower_of(s: Seq<char>) -> Seq<char>;

/// Relies on std's `str::split_whitespace`: the words of `text`, in order.
#[verifier::external_body]
fn split_words(text: &str) -> (r: Vec<String>)
    ensures
        r@.map_values(|w: String| w@) == words_of(text@),
{
    text.split_whitespace().map(|w| w.to_string()).collect()
}

/// Relies on std's `str::to_lowercase`: the lowercase form of `w`.
#[verifier::external_body]
fn lowercase(w: &str) -> (r: String)
    ensures
        r@ == lower_of(w@),
{
    w.to_lowercase()
}

/// How many words of `ws` have `k` as their lowercase form.
pub open spec fn occurrences(ws: Seq<Seq<char>>, k: Seq<char>) -> nat
    decreases ws.len(),
{
    if ws.len() == 0 {
        0
    } else {
        occurrences(ws.drop_last(), k) + if lower_of(ws.last()) == k {
            1nat
        } else {
            0nat
        }
    }
}

/// The frequency table of `ws`: each lowercase form that occurs, with the
/// number of words that have it.
pub open spec fn word_counts(ws: Seq<Seq<char>>) -> Map<Seq<char>, nat> {
    Map::new(|k: Seq<char>| occurrences(ws, k) > 0, |k: Seq<char>| occurrences(ws, k))
}

/// The count of `k` in `m`; zero for a key that is absent.
pub open spec fn count_in(m: Map<Seq<char>, nat>, k: Seq<char>) -> nat {
    if m.contains_key(k) {
        m[k]
    } else {
        0
    }
}

/// `m` with `n` added to the count of `k`.
pub open spec fn bumped(m: Map<Seq<char>, nat>, k: Seq<char>, n: nat) -> Map<Seq<char>, nat> {
    m.insert(k, count_in(m, k) + n)
}

/// The text of each string of `v`.
pub open spec fn views_of(v: Seq<String>) -> Seq<Seq<char>> {
    v.map_values(|w: String| w@)
}

/// Key-wise sum of two tables: the combine step of the parallel count.
pub open spec fn merged(a: Map<Seq<char>, nat>, b: Map<Seq<char>, nat>) -> Map<Seq<char>, nat> {
    Map::new(
        |k: Seq<char>| a.contains_key(k) || b.contains_key(k),
        |k: Seq<char>| count_in(a, k) + count_in(b, k),
    )
}

/// Counting the words of a concatenation is counting each part and adding the
/// counts key by key.
pub proof fn lemma_occurrences_concat(s1: Seq<Seq<char>>, s2: Seq<Seq<char>>, k: Seq<char>)
    ensures
        occurrences(s1 + s2, k) == occurrences(s1, k) + occurrences(s2, k),
    decreases s2.len(),
{
    if s2.len() == 0 {
        assert(s1 + s2 =~= s1);
    } else {
        assert((s1 + s2).drop_last() =~= s1 + s2.drop_last());
        lemma_occurrences_concat(s1, s2.drop_last(), k);
    }
}

/// No key is counted more often than there are words.
pub proof fn lemma_occurrences_bound(ws: Seq<Seq<char>>, k: Seq<char>)
    ensures
        occurrences(ws, k) <= ws.len(),
    decreases ws.len(),
{
    if ws.len() > 0 {
        lemma_occurrences_bound(ws.drop_last(), k);
    }
}

/// The table of a concatenation is the merge of the tables of its parts: a
/// text may be cut anywhere, its parts counted independently, and the partial
/// tables combined.
pub proof fn lemma_word_counts_split(s1: Seq<Seq<char>>, s2: Seq<Seq<char>>)
    ensures
        word_counts(s1 + s2) == merged(word_counts(s1), word_counts(s2)),
{
    assert forall|k: Seq<char>| true implies occurrences(s1 + s2, k) == occurrences(s1, k)
        + occurrences(s2, k) by {
        lemma_occurrences_concat(s1, s2, k);
    }
    assert(word_counts(s1 + s2) =~= merged(word_counts(s1), word_counts(s2)));
}

/// Merging is a commutative monoid with the empty table as identity, so the
/// partial tables may be combined in any order and any tree shape.
pub proof fn lemma_merge_monoid(
    a: Map<Seq<char>, nat>,
    b: Map<Seq<char>, nat>,
    c: Map<Seq<char>, nat>,
)
    ensures
        merged(a, Map::empty()) == a,
        merged(a, b) == merged(b, a),
        merged(merged(a, b), c) == merged(a, merged(b, c)),
{
    assert(merged(a, Map::empty()) =~= a);
    assert(merged(a, b) =~= merged(b, a));
    assert(merged(merged(a, b), c) =~= merged(a, merged(b, c)));
}

proof fn lemma_word_counts_push(s: Seq<Seq<char>>, w: Seq<char>)
    ensures
        word_counts(s.push(w)) == bumped(word_counts(s), lower_of(w), 1),
{
    assert forall|k: Seq<char>| true implies occurrences(s.push(w), k) == occurrences(s, k) + if lower_of(w) == k {
        1nat
    } else {
        0nat
    } by {
        assert(s.push(w).drop_last() =~= s);
    }
    assert(word_counts(s.push(w)) =~= bumped(word_counts(s), lower_of(w), 1));
}

proof fn lemma_merged_insert(
    a: Map<Seq<char>, nat>,
    p: Map<Seq<char>, nat>,
    k: Seq<char>,
    v: nat,
)
    requires
        !p.contains_key(k),
    ensures
        merged(a, p.insert(k, v)) == bumped(merged(a, p), k, v),
{
    assert(merged(a, p.insert(k, v)) =~= bumped(merged(a, p), k, v));
}

/// A word-frequency table: distinct keys, each with a positive count.
pub struct WordTable {
    keys: Vec<String>,
    counts: Vec<usize>,
}

impl View for WordTable {
    type V = Map<Seq<char>, nat>;

    closed spec fn view(&self) -> Map<Seq<char>, nat> {
        Map::new(
            |k: Seq<char>| exists|i: int| self.key_at(i, k),
            |k: Seq<char>| self.counts@[choose|i: int| self.key_at(i, k)] as nat,
        )
    }
}

impl WordTable {
    /// Entry `i` holds key `k`.
    spec fn key_at(&self, i: int, k: Seq<char>) -> bool {
        0 <= i < self.keys@.len() && self.keys@[i]@ == k
    }

    /// One count per key, no key twice, no count of zero.
    pub closed spec fn wf(&self) -> bool {
        &&& self.keys@.len() == self.counts@.len()
        &&& forall|i: int, j: int|
            0 <= i < j < self.keys@.len() ==> self.keys@[i]@ != self.keys@[j]@
        &&& forall|i: int| 0 <= i < self.counts@.len() ==> self.counts@[i] > 0
    }

    /// The table made of the first `n` entries.
    spec fn prefix_view(&self, n: int) -> Map<Seq<char>, nat> {
        Map::new(
            |k: Seq<char>| exists|i: int| 0 <= i < n && self.key_at(i, k),
            |k: Seq<char>| self.counts@[choose|i: int| self.key_at(i, k)] as nat,
        )
    }

    proof fn lemma_prefix_step(&self, n: int)
        requires
            self.wf(),
            0 <= n < self.keys@.len(),
        ensures
            !self.prefix_view(n).contains_key(self.keys@[n]@),
            self.prefix_view(n + 1) == self.prefix_view(n).insert(
                self.keys@[n]@,
                self.counts@[n] as nat,
            ),
    {
        let k = self.keys@[n]@;
        if self.prefix_view(n).contains_key(k) {
            let i = choose|i: int| 0 <= i < n && self.key_at(i, k);
            assert(self.keys@[i]@ != self.keys@[n]@);
        }
        self.lemma_entry(n);
        assert forall|q: Seq<char>| #[trigger] self.prefix_view(n + 1).contains_key(q)
            == self.prefix_view(n).insert(k, self.counts@[n] as nat).contains_key(q) by {
            if self.prefix_view(n + 1).contains_key(q) && q != k {
                let i = choose|i: int| 0 <= i < n + 1 && self.key_at(i, q);
                assert(0 <= i < n && self.key_at(i, q));
            }
            if q == k {
                assert(0 <= n < n + 1 && self.key_at(n, q));
            }
        }
        assert(self.prefix_view(n + 1) =~= self.prefix_view(n).insert(k, self.counts@[n] as nat));
    }

    proof fn lemma_prefix_full(&self)
        ensures
            self.prefix_view(self.keys@.len() as int) == self@,
    {
        assert(self.prefix_view(self.keys@.len() as int) =~= self@);
    }

    proof fn lemma_entry(&self, i: int)
        requires
            self.wf(),
            0 <= i < self.keys@.len(),
        ensures
            self@.contains_key(self.keys@[i]@),
            self@[self.keys@[i]@] == self.counts@[i] as nat,
    {
        let k = self.keys@[i]@;
        assert(self.key_at(i, k));
        let j = choose|j: int| self.key_at(j, k);
        assert(j == i);
    }

    /// An empty table.
    pub fn new() -> (r: WordTable)
        ensures
            r.wf(),
            r@ == Map::<Seq<char>, nat>::empty(),
    {
        let r = WordTable { keys: Vec::new(), counts: Vec::new() };
        assert(r@ =~= Map::<Seq<char>, nat>::empty());
        r
    }

    /// The number of distinct keys.
    pub fn len(&self) -> (r: usize)
        requires
            self.wf(),
        ensures
            r == self@.dom().len(),
    {
        proof {
            let ks = self.keys@.map_values(|w: String| w@);
            assert(ks.no_duplicates());
            ks.unique_seq_to_set();
            assert forall|k: Seq<char>| self@.contains_key(k) <==> ks.to_set().contains(k) by {
                if self@.contains_key(k) {
                    let i = choose|i: int| self.key_at(i, k);
                    assert(ks[i] == k);
                }
                if ks.to_set().contains(k) {
                    let i = choose|i: int| 0 <= i < ks.len() && ks[i] == k;
                    assert(self.key_at(i, k));
                }
            }
            assert(self@.dom() =~= ks.to_set());
        }
        self.keys.len()
    }

    fn find(&self, key: &String) -> (r: Option<usize>)
        requires
            self.wf(),
        ensures
            match r {
                Some(i) => self.key_at(i as int, key@),
                None => !self@.contains_key(key@),
            },
    {
        let mut i: usize = 0;
        while i < self.keys.len()
            invariant
                self.wf(),
                i <= self.keys@.len(),
                forall|j: int| 0 <= j < i ==> self.keys@[j]@ != key@,
            decreases self.keys@.len() - i,
        {
            if self.keys[i] == *key {
                return Some(i);
            }
            i = i + 1;
        }
        None
    }

    /// How often `key` was counted; zero for a key that is absent.
    pub fn get(&self, key: &str) -> (r: usize)
        requires
            self.wf(),
        ensures
            r == count_in(self@, key@),
    {
        let owned = key.to_owned();
        match self.find(&owned) {
            Some(i) => {
                proof {
                    self.lemma_entry(i as int);
                }
                self.counts[i]
            },
            None => 0,
        }
    }

    /// Adds `n` to the count of `key`, inserting the key if it is new.
    pub fn add(&mut self, key: String, n: usize)
        requires
            old(self).wf(),
            n > 0,
            count_in(old(self)@, key@) + n <= usize::MAX,
        ensures
            final(self).wf(),
            final(self)@ == bumped(old(self)@, key@, n as nat),
    {
        let ghost pre = *self;
        let ghost k = key@;
        match self.find(&key) {
            Some(i) => {
                proof {
                    pre.lemma_entry(i as int);
                }
                let c = self.counts[i];
                self.counts.set(i, c + n);
                proof {
                    assert(self.wf());
                    assert forall|q: Seq<char>| #[trigger] self@.contains_key(q) == bumped(pre@, k, n as nat).contains_key(q) by {
                        if pre@.contains_key(q) {
                            let j = choose|j: int| pre.key_at(j, q);
                            assert(self.key_at(j, q));
                        }
                        if self@.contains_key(q) {
                            let j = choose|j: int| self.key_at(j, q);
                            assert(pre.key_at(j, q));
                        }
                    }
                    assert forall|q: Seq<char>| #[trigger] self@.contains_key(q) implies self@[q] == bumped(pre@, k, n as nat)[q] by {
                        let j = choose|j: int| self.key_at(j, q);
                        self.lemma_entry(j);
                        pre.lemma_entry(j);
                        if j != i {
                            assert(q != k);
                        }
                    }
                    assert(self@ =~= bumped(pre@, k, n as nat));
                }
            },
            None => {
                self.keys.push(key);
                self.counts.push(n);
                proof {
                    let last = pre.keys@.len() as int;
                    assert forall|j: int| 0 <= j < last implies pre.keys@[j]@ != k by {
                        if pre.keys@[j]@ == k {
                            assert(pre.key_at(j, k));
                        }
                    }
                    assert(self.keys@[last]@ == k);
                    assert(self.wf());
                    assert forall|q: Seq<char>| #[trigger] self@.contains_key(q) == bumped(pre@, k, n as nat).contains_key(q) by {
                        if pre@.contains_key(q) {
                            let j = choose|j: int| pre.key_at(j, q);
                            assert(self.key_at(j, q));
                        }
                        if q == k {
                            assert(self.key_at(last, q));
                        }
                        if self@.contains_key(q) {
                            let j = choose|j: int| self.key_at(j, q);
                            if j < last {
                                assert(pre.key_at(j, q));
                            }
                        }
                    }
                    assert forall|q: Seq<char>| #[trigger] self@.contains_key(q) implies self@[q] == bumped(pre@, k, n as nat)[q] by {
                        let j = choose|j: int| self.key_at(j, q);
                        self.lemma_entry(j);
                        if j < last {
                            pre.lemma_entry(j);
                            assert(pre.key_at(j, q));
                        }
                    }
                    assert(self@ =~= bumped(pre@, k, n as nat));
                }
            },
        }
    }

    /// Whether the two tables hold the same keys with the same counts.
    pub fn same_counts(&self, other: &WordTable) -> (r: bool)
        requires
            self.wf(),
            other.wf(),
        ensures
            r == (self@ == other@),
    {
        let mut i: usize = 0;
        while i < self.keys.len()
            invariant
                self.wf(),
                other.wf(),
                i <= self.keys@.len(),
                forall|j: int| 0 <= j < i ==> count_in(other@, #[trigger] self.keys@[j]@) == self.counts@[j],
            decreases self.keys@.len() - i,
        {
            if other.get(self.keys[i].as_str()) != self.counts[i] {
                proof {
                    self.lemma_entry(i as int);
                }
                return false;
            }
            i = i + 1;
        }
        let mut i: usize = 0;
        while i < other.keys.len()
            invariant
                self.wf(),
                other.wf(),
                i <= other.keys@.len(),
                forall|j: int| 0 <= j < self.keys@.len() ==> count_in(other@, #[trigger] self.keys@[j]@) == self.counts@[j],
                forall|j: int| 0 <= j < i ==> count_in(self@, #[trigger] other.keys@[j]@) == other.counts@[j],
            decreases other.keys@.len() - i,
        {
            if self.get(other.keys[i].as_str()) != other.counts[i] {
                proof {
                    other.lemma_entry(i as int);
                }
                return false;
            }
            i = i + 1;
        }
        proof {
            assert forall|k: Seq<char>| #[trigger] self@.contains_key(k) implies other@.contains_key(k)
                && other@[k] == self@[k] by {
                let j = choose|j: int| self.key_at(j, k);
                self.lemma_entry(j);
            }
            assert forall|k: Seq<char>| #[trigger] other@.contains_key(k) implies self@.contains_key(k) by {
                let j = choose|j: int| other.key_at(j, k);
                other.lemma_entry(j);
            }
            assert(self@ =~= other@);
        }
        true
    }
}

/// Adds the counts of `b` into `a`, key by key.
pub fn merge(a: WordTable, b: &WordTable) -> (r: WordTable)
    requires
        a.wf(),
        b.wf(),
        forall|k: Seq<char>| count_in(a@, k) + count_in(b@, k) <= usize::MAX,
    ensures
        r.wf(),
        r@ == merged(a@, b@),
{
    let ghost a0 = a@;
    let mut acc = a;
    let mut i: usize = 0;
    proof {
        assert(b.prefix_view(0) =~= Map::<Seq<char>, nat>::empty());
        lemma_merge_monoid(a0, Map::empty(), Map::empty());
    }
    while i < b.keys.len()
        invariant
            acc.wf(),
            b.wf(),
            i <= b.keys@.len(),
            acc@ == merged(a0, b.prefix_view(i as int)),
            forall|k: Seq<char>| count_in(a0, k) + count_in(b@, k) <= usize::MAX,
        decreases b.keys@.len() - i,
    {
        proof {
            b.lemma_prefix_step(i as int);
            b.lemma_entry(i as int);
            lemma_merged_insert(a0, b.prefix_view(i as int), b.keys@[i as int]@, b.counts@[i as int] as nat);
            assert(count_in(a0, b.keys@[i as int]@) + count_in(b@, b.keys@[i as int]@) <= usize::MAX);
        }
        acc.add(b.keys[i].clone(), b.counts[i]);
        i = i + 1;
    }
    proof {
        b.lemma_prefix_full();
    }
    acc
}

/// Words per task of the parallel count.
pub const WORDS_PER_TASK: usize = 4096;

/// Counts the lowercase forms of `words[lo..hi]` on the calling thread.
pub fn count_slice(words: &Vec<String>, lo: usize, hi: usize) -> (r: WordTable)
    requires
        lo <= hi <= words@.len(),
    ensures
        r.wf(),
        r@ == word_counts(views_of(words@).subrange(lo as int, hi as int)),
{
    let ghost ws = views_of(words@);
    let mut table = WordTable::new();
    let mut i: usize = lo;
    proof {
        assert(ws.subrange(lo as int, lo as int) =~= Seq::<Seq<char>>::empty());
        assert(word_counts(Seq::<Seq<char>>::empty()) =~= Map::<Seq<char>, nat>::empty());
    }
    while i < hi
        invariant
            lo <= i <= hi,
            hi <= words@.len(),
            ws == views_of(words@),
            table.wf(),
            table@ == word_counts(ws.subrange(lo as int, i as int)),
        decreases hi - i,
    {
        let key = lowercase(words[i].as_str());
        proof {
            let s = ws.subrange(lo as int, i as int);
            assert(ws.subrange(lo as int, i + 1) =~= s.push(ws[i as int]));
            lemma_word_counts_push(s, ws[i as int]);
            lemma_occurrences_bound(s, key@);
        }
        table.add(key, 1);
        i = i + 1;
    }
    table
}

/// The frequency table of `text`, counted one word after another on the
/// calling thread.
pub fn count_words_sequential(text: &str) -> (r: WordTable)
    ensures
        r.wf(),
        r@ == word_counts(words_of(text@)),
{
    let words = split_words(text);
    let r = count_slice(&words, 0, words.len());
    proof {
        assert(views_of(words@).subrange(0, words@.len() as int) =~= views_of(words@));
    }
    r
}

/// The frequency table of `text`, counted on the thread pool: the words are
/// cut into runs of `WORDS_PER_TASK`, each run is counted by its own task,
/// and the partial tables are merged. The result is the same table as the
/// sequential count.
pub fn count_words_parallel(text: &str) -> (r: WordTable)
    ensures
        r.wf(),
        r@ == word_counts(words_of(text@)),
{
    let words = split_words(text);
    let ghost ws = views_of(words@);
    let n = words.len();
    let mut bounds: Vec<usize> = Vec::new();
    bounds.push(0);
    let mut b: usize = 0;
    while b < n
        invariant
            b <= n,
            bounds@.len() >= 1,
            bounds@[0] == 0,
            bounds@.last() == b,
            forall|j: int| 0 <= j < bounds@.len() - 1 ==> bounds@[j] <= #[trigger] bounds@[j + 1],
            forall|j: int| 0 <= j < bounds@.len() ==> #[trigger] bounds@[j] <= b,
        decreases n - b,
    {
        b = if n - b > WORDS_PER_TASK {
            b + WORDS_PER_TASK
        } else {
            n
        };
        bounds.push(b);
    }
    let tasks = bounds.len() - 1;
    let task = (|c: usize| -> (r: WordTable)
        requires
            c < tasks,
            tasks + 1 == bounds@.len(),
            forall|j: int| 0 <= j < bounds@.len() - 1 ==> bounds@[j] <= #[trigger] bounds@[j + 1],
            forall|j: int| 0 <= j < bounds@.len() ==> #[trigger] bounds@[j] <= words@.len(),
        ensures
            r.wf(),
            r@ == word_counts(views_of(words@).subrange(bounds@[c as int] as int, bounds@[c + 1] as int)),
        { count_slice(&words, bounds[c], bounds[c + 1]) });
    let tables = crate::parallel::par_map_range(0, tasks, task);
    proof {
        assert forall|j: int| 0 <= j < tasks implies #[trigger] tables@[j].wf() && tables@[j]@
            == word_counts(ws.subrange(bounds@[j] as int, bounds@[j + 1] as int)) by {
            assert(task.ensures(((0 + j) as usize,), tables@[j]));
        }
        assert(forall|j: int| 0 <= j < tasks ==> #[trigger] tables@[j].wf() && tables@[j]@
                == word_counts(ws.subrange(bounds@[j] as int, bounds@[j + 1] as int)));
    }
    let mut acc = WordTable::new();
    let mut c: usize = 0;
    proof {
        assert(ws.subrange(0, 0) =~= Seq::<Seq<char>>::empty());
        assert(word_counts(Seq::<Seq<char>>::empty()) =~= Map::<Seq<char>, nat>::empty());
    }
    while c < tasks
        invariant
            c <= tasks,
            tasks + 1 == bounds@.len(),
            ws == views_of(words@),
            n == words@.len(),
            bounds@[tasks as int] == n,
            tables@.len() == tasks,
            forall|j: int| 0 <= j < bounds@.len() - 1 ==> bounds@[j] <= #[trigger] bounds@[j + 1],
            forall|j: int| 0 <= j < bounds@.len() ==> #[trigger] bounds@[j] <= n,
            forall|j: int| 0 <= j < tasks ==> #[trigger] tables@[j].wf() && tables@[j]@
                == word_counts(ws.subrange(bounds@[j] as int, bounds@[j + 1] as int)),
            acc.wf(),
            acc@ == word_counts(ws.subrange(0, bounds@[c as int] as int)),
        decreases tasks - c,
    {
        proof {
            let lo = bounds@[c as int] as int;
            let hi = bounds@[c + 1] as int;
            assert(tables@[c as int].wf());
            let s1 = ws.subrange(0, lo);
            let s2 = ws.subrange(lo, hi);
            assert(s1 + s2 =~= ws.subrange(0, hi));
            lemma_word_counts_split(s1, s2);
            assert forall|k: Seq<char>| count_in(acc@, k) + count_in(tables@[c as int]@, k) <= usize::MAX by {
                lemma_occurrences_concat(s1, s2, k);
                lemma_occurrences_bound(s1 + s2, k);
            }
        }
        acc = merge(acc, &tables[c]);
        c = c + 1;
    }
    proof {
        assert(ws.subrange(0, n as int) =~= ws);
    }
    acc
}

} // verus!
