use rand::Rng;
use vstd::prelude::*;

verus! {

/// Keys a frequency table can hold: compared and duplicated through their view.
pub trait Hashable: View + Sized {
    fn key_eq(&self, other: &Self) -> (r: bool)
        ensures
            r == (self@ == other@),
    ;

    fn key_clone(&self) -> (r: Self)
        ensures
            r@ == self@,
    ;
}

impl Hashable for u64 {
    fn key_eq(&self, other: &Self) -> (r: bool) {
        *self == *other
    }

    fn key_clone(&self) -> (r: Self) {
        *self
    }
}

impl Hashable for char {
    fn key_eq(&self, other: &Self) -> (r: bool) {
        *self == *other
    }

    fn key_clone(&self) -> (r: Self) {
        *self
    }
}

impl Hashable for String {
    fn key_eq(&self, other: &Self) -> (r: bool) {
        *self == *other
    }

    fn key_clone(&self) -> (r: Self) {
        self.clone()
    }
}

/// The count stored for `k` in a table view: the sum over the entries whose key is `k`.
pub open spec fn count_in<V>(s: Seq<(V, nat)>, k: V) -> nat
    decreases s.len(),
{
    if s.len() == 0 {
        0
    } else {
        count_in(s.drop_last(), k) + if s.last().0 == k {
            s.last().1
        } else {
            0
        }
    }
}

/// The sum of all counts of a table view.
pub open spec fn total_in<V>(s: Seq<(V, nat)>) -> nat
    decreases s.len(),
{
    if s.len() == 0 {
        0
    } else {
        total_in(s.drop_last()) + s.last().1
    }
}

/// Every key appears once and has a count of at least one.
pub open spec fn table_wf<V>(s: Seq<(V, nat)>) -> bool {
    &&& forall|i: int| 0 <= i < s.len() ==> s[i].1 >= 1
    &&& forall|i: int, j: int| 0 <= i < j < s.len() ==> s[i].0 != s[j].0
    &&& total_in(s) <= usize::MAX
}

/// `after` is `before` with one more occurrence of `key`.
pub open spec fn incr_step<V>(before: Seq<(V, nat)>, after: Seq<(V, nat)>, key: V) -> bool {
    &&& forall|k: V|
        #[trigger] count_in(after, k) == count_in(before, k) + if k == key {
            1nat
        } else {
            0nat
        }
    &&& total_in(after) == total_in(before) + 1
}

/// The number of times `k` occurs in `ks`.
pub open spec fn occurrences<V>(ks: Seq<V>, k: V) -> nat
    decreases ks.len(),
{
    if ks.len() == 0 {
        0
    } else {
        occurrences(ks.drop_last(), k) + if ks.last() == k {
            1nat
        } else {
            0nat
        }
    }
}

/// Counting is exact: after a run of increments on an empty table, the total is the number
/// of increments, and the count of each key is the number of increments made with it.
pub proof fn lemma_counting<V>(tables: Seq<Seq<(V, nat)>>, keys: Seq<V>)
    requires
        tables.len() == keys.len() + 1,
        tables[0].len() == 0,
        forall|j: int| 0 <= j < keys.len() ==> incr_step(tables[j], tables[j + 1], keys[j]),
    ensures
        forall|k: V| count_in(tables.last(), k) == occurrences(keys, k),
        total_in(tables.last()) == keys.len(),
    decreases keys.len(),
{
    if keys.len() > 0 {
        let n = keys.len() - 1;
        lemma_counting(tables.drop_last(), keys.drop_last());
        assert(tables.drop_last().last() == tables[n]);
        assert(incr_step(tables[n], tables[n + 1], keys[n]));
        assert forall|k: V| count_in(tables.last(), k) == occurrences(keys, k) by {
            assert(count_in(tables[n + 1], k) == count_in(tables[n], k) + if k == keys[n] {
                1nat
            } else {
                0nat
            });
            assert(count_in(tables[n], k) == occurrences(keys.drop_last(), k));
            assert(tables.last() == tables[n + 1]);
            assert(keys.last() == keys[n]);
        }
    }
}

/// Draw `draw` selects entry `i`: the running sum of the counts first reaches `draw` there.
pub open spec fn selects<V>(s: Seq<(V, nat)>, draw: int, i: int) -> bool {
    0 <= i < s.len() && total_in(s.take(i)) < draw <= total_in(s.take(i + 1))
}

pub proof fn lemma_concat<V>(a: Seq<(V, nat)>, b: Seq<(V, nat)>, k: V)
    ensures
        count_in(a + b, k) == count_in(a, k) + count_in(b, k),
        total_in(a + b) == total_in(a) + total_in(b),
    decreases b.len(),
{
    if b.len() == 0 {
        assert(a + b =~= a);
    } else {
        assert((a + b).drop_last() =~= a + b.drop_last());
        lemma_concat(a, b.drop_last(), k);
    }
}

proof fn lemma_single<V>(e: (V, nat), k: V)
    ensures
        count_in(seq![e], k) == if e.0 == k {
            e.1
        } else {
            0
        },
        total_in(seq![e]) == e.1,
{
    let s = seq![e];
    assert(s.drop_last() =~= Seq::<(V, nat)>::empty());
    assert(count_in(s.drop_last(), k) == 0);
    assert(total_in(s.drop_last()) == 0);
    assert(s.last() == e);
}

proof fn lemma_absent<V>(s: Seq<(V, nat)>, k: V)
    requires
        forall|i: int| 0 <= i < s.len() ==> s[i].0 != k,
    ensures
        count_in(s, k) == 0,
    decreases s.len(),
{
    if s.len() > 0 {
        lemma_absent(s.drop_last(), k);
    }
}

pub proof fn lemma_count_le_total<V>(s: Seq<(V, nat)>, k: V)
    ensures
        count_in(s, k) <= total_in(s),
    decreases s.len(),
{
    if s.len() > 0 {
        lemma_count_le_total(s.drop_last(), k);
    }
}

/// Splits a view at `i` into what comes before, the entry, and what comes after.
proof fn lemma_split<V>(s: Seq<(V, nat)>, i: int, k: V)
    requires
        0 <= i < s.len(),
    ensures
        count_in(s, k) == count_in(s.take(i), k) + (if s[i].0 == k {
            s[i].1
        } else {
            0
        }) + count_in(s.skip(i + 1), k),
        total_in(s) == total_in(s.take(i)) + s[i].1 + total_in(s.skip(i + 1)),
{
    assert(s =~= s.take(i) + seq![s[i]] + s.skip(i + 1));
    lemma_concat(s.take(i) + seq![s[i]], s.skip(i + 1), k);
    lemma_concat(s.take(i), seq![s[i]], k);
    lemma_single(s[i], k);
}

/// In a well-formed view, the count of the key at `i` is the count stored there.
pub proof fn lemma_at<V>(s: Seq<(V, nat)>, i: int)
    requires
        table_wf(s),
        0 <= i < s.len(),
    ensures
        count_in(s, s[i].0) == s[i].1,
        s[i].1 >= 1,
{
    lemma_split(s, i, s[i].0);
    lemma_absent(s.take(i), s[i].0);
    lemma_absent(s.skip(i + 1), s[i].0);
}

pub proof fn lemma_positive<V>(s: Seq<(V, nat)>, k: V)
    requires
        table_wf(s),
    ensures
        count_in(s, k) > 0 <==> exists|i: int| 0 <= i < s.len() && s[i].0 == k,
{
    if exists|i: int| 0 <= i < s.len() && s[i].0 == k {
        let i = choose|i: int| 0 <= i < s.len() && s[i].0 == k;
        lemma_at(s, i);
    } else {
        lemma_absent(s, k);
    }
}

proof fn lemma_update<V>(s: Seq<(V, nat)>, i: int, e: (V, nat), k: V)
    requires
        0 <= i < s.len(),
    ensures
        count_in(s.update(i, e), k) + (if s[i].0 == k {
            s[i].1
        } else {
            0
        }) == count_in(s, k) + (if e.0 == k {
            e.1
        } else {
            0
        }),
        total_in(s.update(i, e)) + s[i].1 == total_in(s) + e.1,
{
    let u = s.update(i, e);
    lemma_split(s, i, k);
    lemma_split(u, i, k);
    assert(u.take(i) =~= s.take(i));
    assert(u.skip(i + 1) =~= s.skip(i + 1));
}

proof fn lemma_push<V>(s: Seq<(V, nat)>, e: (V, nat), k: V)
    ensures
        count_in(s.push(e), k) == count_in(s, k) + (if e.0 == k {
            e.1
        } else {
            0
        }),
        total_in(s.push(e)) == total_in(s) + e.1,
{
    assert(s.push(e).drop_last() =~= s);
}

proof fn lemma_remove<V>(s: Seq<(V, nat)>, i: int, k: V)
    requires
        0 <= i < s.len(),
    ensures
        count_in(s.remove(i), k) + (if s[i].0 == k {
            s[i].1
        } else {
            0
        }) == count_in(s, k),
        total_in(s.remove(i)) + s[i].1 == total_in(s),
{
    lemma_split(s, i, k);
    assert(s.remove(i) =~= s.take(i) + s.skip(i + 1));
    lemma_concat(s.take(i), s.skip(i + 1), k);
}

/// The running sum grows by the count of each entry in turn.
proof fn lemma_prefix<V>(s: Seq<(V, nat)>, i: int)
    requires
        0 <= i < s.len(),
    ensures
        total_in(s.take(i + 1)) == total_in(s.take(i)) + s[i].1,
        total_in(s.take(i + 1)) <= total_in(s),
{
    assert(s.take(i + 1).drop_last() =~= s.take(i));
    lemma_split(s, i, s[i].0);
}

proof fn lemma_prefix_mono<V>(s: Seq<(V, nat)>, i: int, j: int)
    requires
        0 <= i <= j <= s.len(),
    ensures
        total_in(s.take(i)) <= total_in(s.take(j)),
    decreases j - i,
{
    if i < j {
        lemma_prefix_mono(s, i, j - 1);
        lemma_prefix(s, j - 1);
    }
}

/// Draws are weighted by count: entry `i` is selected by exactly the draws in the stretch of
/// the running sum that its own count spans, `count_i` draws in all, and no draw selects two
/// entries.
pub proof fn lemma_weighted_draw<V>(s: Seq<(V, nat)>, d: int, i: int, j: int)
    requires
        table_wf(s),
        0 <= i < s.len(),
    ensures
        selects(s, d, i) <==> total_in(s.take(i)) < d <= total_in(s.take(i)) + s[i].1,
        selects(s, d, i) && selects(s, d, j) ==> i == j,
{
    lemma_prefix(s, i);
    if selects(s, d, i) && selects(s, d, j) && i != j {
        if i < j {
            lemma_prefix_mono(s, i + 1, j);
        } else {
            lemma_prefix_mono(s, j + 1, i);
        }
    }
}

#[derive(Debug, PartialEq, Eq, Structural, Clone, Copy)]
pub enum MapRandomError {
    EmptyMap,
    Unknown,
}

/// A multiset of keys: each key present is stored once, with the number of its occurrences.
pub struct FrequencyMap<K> {
    entries: Vec<(K, usize)>,
    total: usize,
}

impl<K: View> View for FrequencyMap<K> {
    type V = Seq<(K::V, nat)>;

    closed spec fn view(&self) -> Seq<(K::V, nat)> {
        self.entries@.map_values(|e: (K, usize)| (e.0@, e.1 as nat))
    }
}

/// Relies on rand::thread_rng and Rng::gen_range (rand 0.7): a value in `[low, high)`;
/// gen_range panics unless `low < high`.
#[verifier::external_body]
fn random_in(low: usize, high: usize) -> (r: usize)
    requires
        low < high,
    ensures
        low <= r < high,
{
    rand::thread_rng().gen_range(low, high)
}

impl<K: Hashable> FrequencyMap<K> {
    pub closed spec fn wf(&self) -> bool {
        &&& table_wf(self@)
        &&& self.total as nat == total_in(self@)
    }

    pub proof fn lemma_wf(&self)
        requires
            self.wf(),
        ensures
            table_wf(self@),
    {
    }

    pub fn new() -> (r: Self)
        ensures
            r.wf(),
            r@ == Seq::<(K::V, nat)>::empty(),
    {
        let r = FrequencyMap { entries: Vec::new(), total: 0 };
        assert(r@ =~= Seq::<(K::V, nat)>::empty());
        r
    }

    /// The number of distinct keys.
    pub fn len(&self) -> (r: usize)
        ensures
            r == self@.len(),
    {
        self.entries.len()
    }

    /// The sum of all counts.
    pub fn count(&self) -> (r: usize)
        requires
            self.wf(),
        ensures
            r == total_in(self@),
    {
        self.total
    }

    fn find(&self, key: &K) -> (r: Option<usize>)
        requires
            self.wf(),
        ensures
            match r {
                Some(i) => i < self@.len() && self@[i as int].0 == key@,
                None => forall|i: int| 0 <= i < self@.len() ==> self@[i].0 != key@,
            },
    {
        let mut i: usize = 0;
        while i < self.entries.len()
            invariant
                i <= self.entries@.len(),
                self@.len() == self.entries@.len(),
                forall|j: int| 0 <= j < i ==> self@[j].0 != key@,
            decreases self.entries@.len() - i,
        {
            if self.entries[i].0.key_eq(key) {
                return Some(i);
            }
            i = i + 1;
        }
        None
    }

    /// The count of `key`, if it is present.
    pub fn get(&self, key: &K) -> (r: Option<usize>)
        requires
            self.wf(),
        ensures
            count_in(self@, key@) <= usize::MAX,
            r == if count_in(self@, key@) > 0 {
                Some(count_in(self@, key@) as usize)
            } else {
                None::<usize>
            },
    {
        proof {
            lemma_positive(self@, key@);
            lemma_count_le_total(self@, key@);
        }
        match self.find(key) {
            Some(i) => {
                proof {
                    lemma_at(self@, i as int);
                }
                Some(self.entries[i].1)
            },
            None => None,
        }
    }

    pub fn contains_key(&self, key: &K) -> (r: bool)
        requires
            self.wf(),
        ensures
            r == (count_in(self@, key@) > 0),
    {
        proof {
            lemma_positive(self@, key@);
        }
        self.find(key).is_some()
    }

    /// Adds one occurrence of `key`: a new key starts at one.
    pub fn incr(&mut self, key: K)
        requires
            old(self).wf(),
            total_in(old(self)@) < usize::MAX,
        ensures
            final(self).wf(),
            incr_step(old(self)@, final(self)@, key@),
    {
        match self.find(&key) {
            Some(i) => {
                let c = self.entries[i].1;
                proof {
                    lemma_split(self@, i as int, key@);
                }
                let ghost before = self@;
                self.entries.set(i, (key, c + 1));
                proof {
                    assert(self@ =~= before.update(i as int, (key@, (c + 1) as nat)));
                    assert forall|k: K::V|
                        count_in(#[trigger] self@, k) == count_in(before, k) + if k == key@ {
                            1nat
                        } else {
                            0nat
                        } by {
                        lemma_update(before, i as int, (key@, (c + 1) as nat), k);
                    }
                    lemma_update(before, i as int, (key@, (c + 1) as nat), key@);
                }
            },
            None => {
                let ghost before = self@;
                let ghost kv = key@;
                self.entries.push((key, 1));
                proof {
                    assert(self@ =~= before.push((kv, 1nat)));
                    assert forall|k: K::V|
                        count_in(#[trigger] self@, k) == count_in(before, k) + if k == kv {
                            1nat
                        } else {
                            0nat
                        } by {
                        lemma_push(before, (kv, 1nat), k);
                    }
                    lemma_push(before, (kv, 1nat), kv);
                }
            },
        }
        self.total = self.total + 1;
    }

    /// Sets the count of `key` to `value`, and returns the count it had.
    pub fn insert(&mut self, key: K, value: usize) -> (r: Option<usize>)
        requires
            old(self).wf(),
            value >= 1,
            total_in(old(self)@) - count_in(old(self)@, key@) + value <= usize::MAX,
        ensures
            final(self).wf(),
            r == if count_in(old(self)@, key@) > 0 {
                Some(count_in(old(self)@, key@) as usize)
            } else {
                None::<usize>
            },
            count_in(final(self)@, key@) == value,
            forall|k: K::V|
                k != key@ ==> count_in(#[trigger] final(self)@, k) == count_in(old(self)@, k),
            total_in(final(self)@) == total_in(old(self)@) - count_in(old(self)@, key@) + value,
    {
        proof {
            lemma_positive(self@, key@);
        }
        let ghost before = self@;
        let ghost kv = key@;
        match self.find(&key) {
            Some(i) => {
                let c = self.entries[i].1;
                proof {
                    lemma_at(before, i as int);
                    lemma_split(before, i as int, kv);
                }
                self.entries.set(i, (key, value));
                proof {
                    assert(self@ =~= before.update(i as int, (kv, value as nat)));
                    assert forall|k: K::V| k != kv implies count_in(#[trigger] self@, k)
                        == count_in(before, k) by {
                        lemma_update(before, i as int, (kv, value as nat), k);
                    }
                    lemma_update(before, i as int, (kv, value as nat), kv);
                }
                self.total = self.total - c + value;
                Some(c)
            },
            None => {
                proof {
                    lemma_absent(before, kv);
                }
                self.entries.push((key, value));
                proof {
                    assert(self@ =~= before.push((kv, value as nat)));
                    assert forall|k: K::V| k != kv implies count_in(#[trigger] self@, k)
                        == count_in(before, k) by {
                        lemma_push(before, (kv, value as nat), k);
                    }
                    lemma_push(before, (kv, value as nat), kv);
                }
                self.total = self.total + value;
                None
            },
        }
    }

    /// Takes `key` out of the table, and returns the count it had.
    pub fn remove(&mut self, key: &K) -> (r: Option<usize>)
        requires
            old(self).wf(),
        ensures
            final(self).wf(),
            r == if count_in(old(self)@, key@) > 0 {
                Some(count_in(old(self)@, key@) as usize)
            } else {
                None::<usize>
            },
            count_in(final(self)@, key@) == 0,
            forall|k: K::V|
                k != key@ ==> count_in(#[trigger] final(self)@, k) == count_in(old(self)@, k),
            total_in(final(self)@) == total_in(old(self)@) - count_in(old(self)@, key@),
    {
        proof {
            lemma_positive(self@, key@);
        }
        let ghost before = self@;
        match self.find(key) {
            Some(i) => {
                proof {
                    lemma_at(before, i as int);
                    lemma_split(before, i as int, key@);
                }
                let e = self.entries.remove(i);
                proof {
                    assert(self@ =~= before.remove(i as int));
                    assert forall|k: K::V| true implies count_in(#[trigger] self@, k) + (if before[i as int].0 == k {
                        before[i as int].1
                    } else {
                        0
                    }) == count_in(before, k) by {
                        lemma_remove(before, i as int, k);
                    }
                    lemma_remove(before, i as int, key@);
                    let after = self@;
                    assert forall|a: int, b: int| 0 <= a < b < after.len() implies after[a].0
                        != after[b].0 by {
                        let a0 = if a < i { a } else { a + 1 };
                        let b0 = if b < i { b } else { b + 1 };
                        assert(after[a] == before[a0]);
                        assert(after[b] == before[b0]);
                    }
                }
                self.total = self.total - e.1;
                Some(e.1)
            },
            None => {
                proof {
                    lemma_absent(before, key@);
                }
                None
            },
        }
    }

    /// Picks the entry at which the running sum of the counts first reaches `draw`.
    /// A draw outside `1..=count()` picks nothing.
    pub fn choose_by_draw(&self, draw: usize) -> (r: Result<&K, MapRandomError>)
        requires
            self.wf(),
        ensures
            self@.len() == 0 ==> r == Err::<&K, MapRandomError>(MapRandomError::EmptyMap),
            self@.len() > 0 && (draw == 0 || draw > total_in(self@)) ==> r == Err::<
                &K,
                MapRandomError,
            >(MapRandomError::Unknown),
            self@.len() > 0 && 1 <= draw <= total_in(self@) ==> r is Ok && exists|i: int|
                selects(self@, draw as int, i) && r->Ok_0@ == self@[i].0,
    {
        if self.entries.len() == 0 {
            return Err(MapRandomError::EmptyMap);
        }
        if draw == 0 || draw > self.total {
            return Err(MapRandomError::Unknown);
        }
        let mut sum: usize = 0;
        let mut i: usize = 0;
        proof {
            assert(self@.take(0) =~= Seq::<(K::V, nat)>::empty());
        }
        while i < self.entries.len()
            invariant
                self.wf(),
                1 <= draw <= total_in(self@),
                i <= self@.len(),
                self@.len() == self.entries@.len(),
                sum == total_in(self@.take(i as int)),
                sum < draw,
            decreases self.entries@.len() - i,
        {
            proof {
                lemma_prefix(self@, i as int);
            }
            sum = sum + self.entries[i].1;
            if sum >= draw {
                proof {
                    assert(selects(self@, draw as int, i as int));
                }
                return Ok(&self.entries[i].0);
            }
            i = i + 1;
        }
        proof {
            assert(self@.take(i as int) =~= self@);
        }
        Err(MapRandomError::Unknown)
    }
}

/// Tables that draw one of their keys at random.
pub trait MapRandom<T> {
    /// The table is in a state to draw from.
    spec fn ready(&self) -> bool;

    /// The table holds no key.
    spec fn has_no_keys(&self) -> bool;

    /// `k` is one of the table's keys.
    spec fn holds_key(&self, k: &T) -> bool;

    /// Draws a key, each with probability its weight over the total weight.
    fn choose_weighted(&self) -> (r: Result<&T, MapRandomError>)
        requires
            self.ready(),
        ensures
            self.has_no_keys() <==> r == Err::<&T, MapRandomError>(MapRandomError::EmptyMap),
            !self.has_no_keys() ==> r is Ok && self.holds_key(r->Ok_0),
    ;
}

impl<K: Hashable> MapRandom<K> for FrequencyMap<K> {
    open spec fn ready(&self) -> bool {
        self.wf()
    }

    open spec fn has_no_keys(&self) -> bool {
        self@.len() == 0
    }

    open spec fn holds_key(&self, k: &K) -> bool {
        exists|i: int| 0 <= i < self@.len() && k@ == self@[i].0
    }

    /// Draws a number in `1..=count()` at random, and picks the key that it selects.
    fn choose_weighted(&self) -> (r: Result<&K, MapRandomError>)
    {
        if self.entries.len() == 0 {
            return Err(MapRandomError::EmptyMap);
        }
        proof {
            lemma_split(self@, 0, self@[0].0);
        }
        let draw = random_in(0, self.total) + 1;
        self.choose_by_draw(draw)
    }
}

} // verus!
