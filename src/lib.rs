//! Invents names from a character-level Markov chain learnt from example words.
pub mod map;
pub mod ngram;
pub mod args;

use vstd::prelude::*;
use crate::map::{count_in, total_in, Hashable, MapRandom};
use crate::ngram::{chars_of, hits, successor, window, window_at, window_count};
pub use crate::ngram::Token;
pub use crate::map::{FrequencyMap, MapRandomError};

verus! {

#[derive(Debug, PartialEq, Eq, Structural, Clone, Copy)]
pub enum Error {
    /// The model holds no start state: nothing was trained, or no word was as long as the order.
    Empty,
    /// A draw from a table that should not be empty failed.
    Unknown,
}

impl From<MapRandomError> for Error {
    fn from(m: MapRandomError) -> (r: Error) {
        match m {
            MapRandomError::EmptyMap => Error::Empty,
            MapRandomError::Unknown => Error::Unknown,
        }
    }
}

impl vstd::std_specs::convert::FromSpecImpl<MapRandomError> for Error {
    open spec fn obeys_from_spec() -> bool {
        true
    }

    open spec fn from_spec(m: MapRandomError) -> Error {
        match m {
            MapRandomError::EmptyMap => Error::Empty,
            MapRandomError::Unknown => Error::Unknown,
        }
    }
}

impl Error {
    /// A message for the user.
    pub fn message(&self) -> (r: &'static str)
        ensures
            *self == Error::Empty ==> r@ == "Generator is not trained/empty"@,
            *self == Error::Unknown ==> r@ == "Unknown error"@,
    {
        match self {
            Error::Empty => "Generator is not trained/empty",
            Error::Unknown => "Unknown error",
        }
    }
}

/// The longest name `generate` builds: a walk still going at this length stops there.
pub const NAME_LENGTH_LIMIT: usize = 256;

/// How many of `words` begin with the window `g` of length `n`.
pub open spec fn starts_in(words: Seq<&str>, n: int, g: Seq<char>) -> nat
    decreases words.len(),
{
    if words.len() == 0 {
        0
    } else {
        starts_in(words.drop_last(), n, g) + if words.last()@.len() >= n && g == window(
            words.last()@,
            0,
            n,
        ) {
            1nat
        } else {
            0nat
        }
    }
}

/// How many windows of length `n` in `words` are `g` followed by `t`.
pub open spec fn hits_in(words: Seq<&str>, n: int, g: Seq<char>, t: Token) -> nat
    decreases words.len(),
{
    if words.len() == 0 {
        0
    } else {
        hits_in(words.drop_last(), n, g, t) + hits(
            words.last()@,
            n,
            g,
            t,
            window_count(words.last()@.len() as int, n),
        )
    }
}

/// The number of windows of length `n` in `words`.
pub open spec fn windows_in(words: Seq<&str>, n: int) -> nat
    decreases words.len(),
{
    if words.len() == 0 {
        0
    } else {
        windows_in(words.drop_last(), n) + window_count(words.last()@.len() as int, n) as nat
    }
}

/// The sum of the lengths of `words`.
pub open spec fn total_len(words: Seq<&str>) -> nat
    decreases words.len(),
{
    if words.len() == 0 {
        0
    } else {
        total_len(words.drop_last()) + words.last()@.len()
    }
}

/// Relies on std's `FromIterator<char>` for `String`: the characters, in order.
#[verifier::external_body]
fn string_of(cs: &Vec<char>) -> (r: String)
    ensures
        r@ == cs@,
{
    cs.iter().collect()
}

/// A Markov chain of order `order` over characters: the windows that begin words, and for each
/// window seen, the tokens that followed it.
pub struct NameGenerator {
    prefix_ngrams: FrequencyMap<Vec<char>>,
    state_keys: Vec<Vec<char>>,
    state_tables: Vec<FrequencyMap<Token>>,
    order: usize,
    windows: usize,
}

/// A window of the model's length.
pub open spec fn is_ngram(g: Seq<char>, n: nat) -> bool {
    g.len() == n
}

impl NameGenerator {
    /// The tables are well formed, every window has the model's length, each known window
    /// has one non-empty table of successors, and no count exceeds the windows trained.
    pub closed spec fn wf(&self) -> bool {
        &&& self.order >= 1
        &&& self.prefix_ngrams.wf()
        &&& total_in(self.prefix_ngrams@) <= self.windows
        &&& forall|j: int|
            0 <= j < self.prefix_ngrams@.len() ==> is_ngram(
                #[trigger] self.prefix_ngrams@[j].0,
                self.order as nat,
            )
        &&& self.state_keys@.len() == self.state_tables@.len()
        &&& forall|i: int|
            0 <= i < self.state_tables@.len() ==> {
                &&& (#[trigger] self.state_tables@[i]).wf()
                &&& self.state_tables@[i]@.len() > 0
                &&& total_in(self.state_tables@[i]@) <= self.windows
                &&& is_ngram(self.state_keys@[i]@, self.order as nat)
            }
        &&& forall|i: int, j: int|
            0 <= i < j < self.state_keys@.len() ==> self.state_keys@[i]@
                != self.state_keys@[j]@
    }

    /// The window length.
    pub closed spec fn spec_order(&self) -> nat {
        self.order as nat
    }

    /// The number of windows trained so far, over all words.
    pub closed spec fn spec_windows(&self) -> nat {
        self.windows as nat
    }

    /// How many trained words began with `g`.
    pub closed spec fn start_count(&self, g: Seq<char>) -> nat {
        count_in(self.prefix_ngrams@, g)
    }

    pub closed spec fn has_state(&self, g: Seq<char>) -> bool {
        exists|i: int| 0 <= i < self.state_keys@.len() && self.state_keys@[i]@ == g
    }

    pub closed spec fn state_index(&self, g: Seq<char>) -> int {
        choose|i: int| 0 <= i < self.state_keys@.len() && self.state_keys@[i]@ == g
    }

    /// How many times `t` followed the window `g` in the trained words.
    pub closed spec fn next_count(&self, g: Seq<char>, t: Token) -> nat {
        if self.has_state(g) {
            count_in(self.state_tables@[self.state_index(g)]@, t)
        } else {
            0
        }
    }

    /// An empty model of the given order.
    pub fn with_order(order: usize) -> (r: Self)
        requires
            order >= 1,
        ensures
            r.wf(),
            r.spec_order() == order,
            r.spec_windows() == 0,
            forall|g: Seq<char>| r.start_count(g) == 0,
            forall|g: Seq<char>, t: Token| r.next_count(g, t) == 0,
    {
        NameGenerator {
            prefix_ngrams: FrequencyMap::new(),
            state_keys: Vec::new(),
            state_tables: Vec::new(),
            order,
            windows: 0,
        }
    }

    /// An empty model of order two.
    pub fn new() -> (r: Self)
        ensures
            r.wf(),
            r.spec_order() == 2,
            r.spec_windows() == 0,
            forall|g: Seq<char>| r.start_count(g) == 0,
            forall|g: Seq<char>, t: Token| r.next_count(g, t) == 0,
    {
        NameGenerator::with_order(2)
    }

    pub fn order(&self) -> (r: usize)
        ensures
            r == self.spec_order(),
    {
        self.order
    }

    /// The number of windows trained so far; training a word adds at most its length.
    pub fn trained_windows(&self) -> (r: usize)
        ensures
            r == self.spec_windows(),
    {
        self.windows
    }

    proof fn lemma_index(&self, g: Seq<char>, i: int)
        requires
            self.wf(),
            0 <= i < self.state_keys@.len(),
            self.state_keys@[i]@ == g,
        ensures
            self.has_state(g),
            self.state_index(g) == i,
    {
        let j = self.state_index(g);
        assert(self.state_keys@[j]@ == g);
        if j < i {
            assert(self.state_keys@[j]@ != self.state_keys@[i]@);
        } else if i < j {
            assert(self.state_keys@[i]@ != self.state_keys@[j]@);
        }
    }

    /// The position of window `g` among the known states.
    fn find_state(&self, g: &Vec<char>) -> (r: Option<usize>)
        requires
            self.wf(),
        ensures
            match r {
                Some(i) => i < self.state_keys@.len() && self.state_keys@[i as int]@ == g@
                    && self.has_state(g@) && self.state_index(g@) == i,
                None => !self.has_state(g@),
            },
    {
        let mut i: usize = 0;
        while i < self.state_keys.len()
            invariant
                self.wf(),
                i <= self.state_keys@.len(),
                forall|j: int| 0 <= j < i ==> self.state_keys@[j]@ != g@,
            decreases self.state_keys@.len() - i,
        {
            if self.state_keys[i].key_eq(g) {
                proof {
                    self.lemma_index(g@, i as int);
                }
                return Some(i);
            }
            i = i + 1;
        }
        None
    }

    /// Counts one more occurrence of `next` after the window `ngram`.
    fn record(&mut self, ngram: Vec<char>, next: Token)
        requires
            old(self).wf(),
            is_ngram(ngram@, old(self).order as nat),
            old(self).windows >= 1,
            forall|i: int|
                0 <= i < old(self).state_tables@.len() ==> total_in(
                    #[trigger] old(self).state_tables@[i]@,
                ) < old(self).windows,
        ensures
            final(self).wf(),
            final(self).order == old(self).order,
            final(self).windows == old(self).windows,
            final(self).prefix_ngrams == old(self).prefix_ngrams,
            forall|g: Seq<char>, t: Token|
                #[trigger] final(self).next_count(g, t) == old(self).next_count(g, t) + if g
                    == ngram@ && t == next {
                    1nat
                } else {
                    0nat
                },
    {
        let ghost before = *self;
        match self.find_state(&ngram) {
            Some(i) => {
                self.state_tables[i].incr(next);
                proof {
                    assert forall|g: Seq<char>, t: Token|
                        #[trigger] self.next_count(g, t) == before.next_count(g, t) + if g
                            == ngram@ && t == next {
                            1nat
                        } else {
                            0nat
                        } by {
                        if before.has_state(g) {
                            let j = before.state_index(g);
                            assert(self.state_keys@ == before.state_keys@);
                            assert(self.state_keys@[j]@ == g);
                            assert(self.has_state(g));
                            assert(self.state_index(g) == j);
                            if j != i {
                                assert(g != ngram@);
                            }
                        }
                    }
                }
            },
            None => {
                let ghost g0 = ngram@;
                let mut table: FrequencyMap<Token> = FrequencyMap::new();
                table.incr(next);
                proof {
                    table.lemma_wf();
                    crate::map::lemma_positive(table@, next);
                }
                self.state_keys.push(ngram);
                self.state_tables.push(table);
                proof {
                    let n = before.state_keys@.len() as int;
                    assert forall|i: int, j: int|
                        0 <= i < j < self.state_keys@.len() implies self.state_keys@[i]@
                        != self.state_keys@[j]@ by {
                        if j == n {
                            assert(before.state_keys@[i]@ == self.state_keys@[i]@);
                        } else {
                            assert(before.state_keys@[i]@ != before.state_keys@[j]@);
                        }
                    }
                    assert forall|i: int| 0 <= i < self.state_tables@.len() implies {
                        &&& (#[trigger] self.state_tables@[i]).wf()
                        &&& self.state_tables@[i]@.len() > 0
                        &&& total_in(self.state_tables@[i]@) <= self.windows
                        &&& is_ngram(self.state_keys@[i]@, self.order as nat)
                    } by {
                        if i < n {
                            assert(self.state_tables@[i] == before.state_tables@[i]);
                            assert(self.state_keys@[i] == before.state_keys@[i]);
                        } else {
                            assert(self.state_tables@[i] == table);
                            assert(total_in(Seq::<(Token, nat)>::empty()) == 0);
                        }
                    }
                    assert(self.wf());
                    self.lemma_index(g0, n);
                    assert forall|g: Seq<char>, t: Token|
                        #[trigger] self.next_count(g, t) == before.next_count(g, t) + if g == g0
                            && t == next {
                            1nat
                        } else {
                            0nat
                        } by {
                        if g == g0 {
                            assert(self.state_index(g) == n);
                        } else if before.has_state(g) {
                            let j = before.state_index(g);
                            self.lemma_index(g, j);
                        } else {
                            if self.has_state(g) {
                                let j = self.state_index(g);
                                assert(j != n);
                                assert(before.state_keys@[j]@ == g);
                            }
                        }
                    }
                }
            },
        }
    }

    /// Learns one word: each window of `order` characters counts the token after it, and the
    /// first window counts as a start. A word shorter than the order adds nothing.
    pub fn train_word(&mut self, word: &str)
        requires
            old(self).wf(),
            old(self).spec_windows() + word@.len() <= usize::MAX,
        ensures
            final(self).wf(),
            final(self).spec_order() == old(self).spec_order(),
            final(self).spec_windows() == old(self).spec_windows() + window_count(
                word@.len() as int,
                old(self).spec_order() as int,
            ),
            forall|g: Seq<char>|
                #[trigger] final(self).start_count(g) == old(self).start_count(g) + if word@.len()
                    >= old(self).spec_order() && g == window(
                    word@,
                    0,
                    old(self).spec_order() as int,
                ) {
                    1nat
                } else {
                    0nat
                },
            forall|g: Seq<char>, t: Token|
                #[trigger] final(self).next_count(g, t) == old(self).next_count(g, t) + hits(
                    word@,
                    old(self).spec_order() as int,
                    g,
                    t,
                    window_count(word@.len() as int, old(self).spec_order() as int),
                ),
    {
        let ghost before = *self;
        let ghost w: Seq<char> = word@;
        let unigrams = chars_of(word);
        let len = unigrams.len();
        let order = self.order;
        if len < order {
            return;
        }
        let n = len - order + 1;
        let mut i: usize = 0;
        while i < n
            invariant
                self.wf(),
                self.order == order,
                order == before.order,
                unigrams@ == w,
                len == w.len(),
                len >= order,
                n == len - order + 1,
                i <= n,
                self.windows == before.windows + i,
                before.windows + len <= usize::MAX,
                forall|g: Seq<char>|
                    #[trigger] self.start_count(g) == before.start_count(g) + if i > 0 && g
                        == window(w, 0, order as int) {
                        1nat
                    } else {
                        0nat
                    },
                forall|g: Seq<char>, t: Token|
                    #[trigger] self.next_count(g, t) == before.next_count(g, t) + hits(
                        w,
                        order as int,
                        g,
                        t,
                        i as int,
                    ),
            decreases n - i,
        {
            let ngram = window_at(&unigrams, i, order);
            let ghost g0 = ngram@;
            assert(g0 == window(w, i as int, order as int));
            let next = if i + order < len {
                Token::Char(unigrams[i + order])
            } else {
                Token::End
            };
            assert(next == successor(w, i as int, order as int));
            let ghost mid = *self;
            self.windows = self.windows + 1;
            if i == 0 {
                let first = ngram.key_clone();
                self.prefix_ngrams.incr(first);
                proof {
                    self.prefix_ngrams.lemma_wf();
                    mid.prefix_ngrams.lemma_wf();
                    assert forall|j: int| 0 <= j < self.prefix_ngrams@.len() implies is_ngram(
                        #[trigger] self.prefix_ngrams@[j].0,
                        order as nat,
                    ) by {
                        let key = self.prefix_ngrams@[j].0;
                        crate::map::lemma_at(self.prefix_ngrams@, j);
                        if key != g0 {
                            crate::map::lemma_positive(mid.prefix_ngrams@, key);
                            let m = choose|m: int|
                                0 <= m < mid.prefix_ngrams@.len() && mid.prefix_ngrams@[m].0
                                    == key;
                            assert(is_ngram(mid.prefix_ngrams@[m].0, order as nat));
                        }
                    }
                }
            }
            let ghost mid2 = *self;
            proof {
                assert forall|g: Seq<char>|
                    #[trigger] mid2.start_count(g) == mid.start_count(g) + if i == 0 && g == g0 {
                        1nat
                    } else {
                        0nat
                    } by {
                    if i == 0 {
                        assert(count_in(mid2.prefix_ngrams@, g) == count_in(mid.prefix_ngrams@, g)
                            + if g == g0 {
                            1nat
                        } else {
                            0nat
                        });
                    } else {
                        assert(mid2.prefix_ngrams == mid.prefix_ngrams);
                    }
                }
            }
            self.record(ngram, next);
            proof {
                assert forall|g: Seq<char>, t: Token|
                    #[trigger] self.next_count(g, t) == before.next_count(g, t) + hits(
                        w,
                        order as int,
                        g,
                        t,
                        i + 1,
                    ) by {
                    assert(mid2.next_count(g, t) == mid.next_count(g, t));
                }
                assert forall|g: Seq<char>|
                    #[trigger] self.start_count(g) == before.start_count(g) + if g == window(
                        w,
                        0,
                        order as int,
                    ) {
                        1nat
                    } else {
                        0nat
                    } by {
                    assert(self.start_count(g) == mid2.start_count(g));
                }
            }
            i = i + 1;
        }
    }

    /// Learns each word in turn.
    pub fn train(&mut self, words: &[&str])
        requires
            old(self).wf(),
            old(self).spec_windows() + total_len(words@) <= usize::MAX,
        ensures
            final(self).wf(),
            final(self).spec_order() == old(self).spec_order(),
            final(self).spec_windows() == old(self).spec_windows() + windows_in(
                words@,
                old(self).spec_order() as int,
            ),
            forall|g: Seq<char>|
                #[trigger] final(self).start_count(g) == old(self).start_count(g) + starts_in(
                    words@,
                    old(self).spec_order() as int,
                    g,
                ),
            forall|g: Seq<char>, t: Token|
                #[trigger] final(self).next_count(g, t) == old(self).next_count(g, t) + hits_in(
                    words@,
                    old(self).spec_order() as int,
                    g,
                    t,
                ),
    {
        let ghost before = *self;
        let ghost n = self.order as int;
        let mut i: usize = 0;
        assert(words@.skip(0) =~= words@);
        assert(words@.take(0) =~= Seq::<&str>::empty());
        while i < words.len()
            invariant
                self.wf(),
                self.order == before.order,
                n == before.order as int,
                i <= words@.len(),
                self.windows + total_len(words@.skip(i as int)) <= usize::MAX,
                self.windows == before.windows + windows_in(words@.take(i as int), n),
                forall|g: Seq<char>|
                    #[trigger] self.start_count(g) == before.start_count(g) + starts_in(
                        words@.take(i as int),
                        n,
                        g,
                    ),
                forall|g: Seq<char>, t: Token|
                    #[trigger] self.next_count(g, t) == before.next_count(g, t) + hits_in(
                        words@.take(i as int),
                        n,
                        g,
                        t,
                    ),
            decreases words@.len() - i,
        {
            proof {
                let rest = words@.skip(i as int);
                assert(rest =~= seq![rest[0]] + rest.skip(1));
                lemma_total_len_concat(seq![rest[0]], rest.skip(1));
                assert(seq![rest[0]].drop_last() =~= Seq::<&str>::empty());
                assert(words@.skip(i + 1) =~= rest.skip(1));
            }
            let ghost mid = *self;
            self.train_word(words[i]);
            proof {
                let done = words@.take(i + 1);
                assert(done.drop_last() =~= words@.take(i as int));
                assert(done.last() == words@[i as int]);
                assert forall|g: Seq<char>|
                    #[trigger] self.start_count(g) == before.start_count(g) + starts_in(done, n, g) by {
                    assert(mid.start_count(g) == before.start_count(g) + starts_in(
                        words@.take(i as int),
                        n,
                        g,
                    ));
                }
                assert forall|g: Seq<char>, t: Token|
                    #[trigger] self.next_count(g, t) == before.next_count(g, t) + hits_in(
                        done,
                        n,
                        g,
                        t,
                    ) by {
                    assert(mid.next_count(g, t) == before.next_count(g, t) + hits_in(
                        words@.take(i as int),
                        n,
                        g,
                        t,
                    ));
                }
            }
            i = i + 1;
        }
        assert(words@.take(i as int) =~= words@);
    }

    /// Some trained word was at least `order` characters long.
    pub open spec fn is_trained(&self) -> bool {
        exists|g: Seq<char>| self.start_count(g) > 0
    }

    /// `s` is a name that a walk of the model can produce: it begins with a start window, each
    /// character after that was seen following the window before it, and the walk stopped
    /// because the end of a word was seen after the last window, because that window has no
    /// successor, or because the name reached `NAME_LENGTH_LIMIT`.
    pub open spec fn is_walk(&self, s: Seq<char>) -> bool {
        let n = self.spec_order() as int;
        &&& s.len() >= n
        &&& self.start_count(s.take(n)) > 0
        &&& forall|i: int|
            0 <= i < s.len() - n ==> self.next_count(#[trigger] window(s, i, n), Token::Char(s[i + n]))
                > 0
        &&& {
            ||| self.next_count(window(s, s.len() - n, n), Token::End) > 0
            ||| forall|t: Token| #[trigger] self.next_count(window(s, s.len() - n, n), t) == 0
            ||| s.len() >= NAME_LENGTH_LIMIT
        }
    }

    /// Invents a name: draws a start window, then draws each next token from what followed the
    /// current window in training, until the end of a word is drawn.
    pub fn generate(&self) -> (r: Result<String, Error>)
        requires
            self.wf(),
        ensures
            !self.is_trained() ==> r == Err::<String, Error>(Error::Empty),
            self.is_trained() ==> r is Ok && self.is_walk(r->Ok_0@),
    {
        proof {
            self.prefix_ngrams.lemma_wf();
            if self.prefix_ngrams@.len() > 0 {
                crate::map::lemma_at(self.prefix_ngrams@, 0);
                assert(self.start_count(self.prefix_ngrams@[0].0) > 0);
            }
            if self.is_trained() {
                let g = choose|g: Seq<char>| self.start_count(g) > 0;
                crate::map::lemma_positive(self.prefix_ngrams@, g);
            }
        }
        let first = match self.prefix_ngrams.choose_weighted() {
            Ok(g) => g,
            Err(e) => {
                return Err(Error::from(e));
            },
        };
        proof {
            let j = choose|j: int|
                0 <= j < self.prefix_ngrams@.len() && first@ == self.prefix_ngrams@[j].0;
            crate::map::lemma_at(self.prefix_ngrams@, j);
        }
        let order = self.order;
        let mut chars: Vec<char> = first.key_clone();
        let mut ngram: Vec<char> = first.key_clone();
        proof {
            assert(chars@.take(order as int) =~= chars@);
            assert(window(chars@, 0, order as int) =~= chars@);
        }
        while chars.len() < NAME_LENGTH_LIMIT
            invariant
                self.wf(),
                order == self.order,
                chars@.len() >= order,
                chars@.len() == chars.len(),
                ngram@ == window(chars@, chars@.len() - order, order as int),
                self.start_count(chars@.take(order as int)) > 0,
                forall|i: int|
                    0 <= i < chars@.len() - order ==> self.next_count(
                        #[trigger] window(chars@, i, order as int),
                        Token::Char(chars@[i + order]),
                    ) > 0,
            decreases NAME_LENGTH_LIMIT - chars@.len(),
        {
            let idx = match self.find_state(&ngram) {
                Some(idx) => idx,
                None => {
                    return Ok(string_of(&chars));
                },
            };
            proof {
                self.state_tables@[idx as int].lemma_wf();
            }
            let next = match self.state_tables[idx].choose_weighted() {
                Ok(t) => *t,
                Err(e) => {
                    return Err(Error::from(e));
                },
            };
            proof {
                let table = self.state_tables@[idx as int]@;
                let j = choose|j: int| 0 <= j < table.len() && next == table[j].0;
                crate::map::lemma_at(table, j);
            }
            match next {
                Token::End => {
                    return Ok(string_of(&chars));
                },
                Token::Char(c) => {
                    let ghost before = chars@;
                    chars.push(c);
                    proof {
                        let n = order as int;
                        assert(chars@.take(n) =~= before.take(n));
                        assert forall|i: int| 0 <= i < chars@.len() - n implies self.next_count(
                            #[trigger] window(chars@, i, n),
                            Token::Char(chars@[i + n]),
                        ) > 0 by {
                            if i < before.len() - n {
                                assert(window(chars@, i, n) =~= window(before, i, n));
                            } else {
                                assert(window(chars@, i, n) =~= window(before, before.len() - n, n));
                            }
                        }
                    }
                    ngram = window_at(&chars, chars.len() - order, order);
                },
            }
        }
        Ok(string_of(&chars))
    }

    /// How many trained words began with `ngram`.
    pub fn start_state_count(&self, ngram: &Vec<char>) -> (r: usize)
        requires
            self.wf(),
        ensures
            r == self.start_count(ngram@),
    {
        match self.prefix_ngrams.get(ngram) {
            Some(c) => c,
            None => 0,
        }
    }

    /// How many times `next` followed `ngram` in the trained words.
    pub fn transition_count(&self, ngram: &Vec<char>, next: Token) -> (r: usize)
        requires
            self.wf(),
        ensures
            r == self.next_count(ngram@, next),
    {
        match self.find_state(ngram) {
            Some(i) => {
                proof {
                    self.state_tables@[i as int].lemma_wf();
                }
                match self.state_tables[i].get(&next) {
                    Some(c) => c,
                    None => 0,
                }
            },
            None => 0,
        }
    }

    /// An endless source of names, each drawn by `generate`.
    pub fn iter(&self) -> (r: Iter<'_>)
        requires
            self.wf(),
        ensures
            r.wf(),
            r.source() == *self,
    {
        Iter { name_generator: self }
    }
}

impl Default for NameGenerator {
    fn default() -> (r: Self)
        ensures
            r.wf(),
            r.spec_order() == 2,
            r.spec_windows() == 0,
            forall|g: Seq<char>| r.start_count(g) == 0,
            forall|g: Seq<char>, t: Token| r.next_count(g, t) == 0,
    {
        NameGenerator::new()
    }
}

/// Draws names from a model without changing it.
pub struct Iter<'a> {
    name_generator: &'a NameGenerator,
}

impl<'a> Iter<'a> {
    pub closed spec fn source(&self) -> NameGenerator {
        *self.name_generator
    }

    pub closed spec fn wf(&self) -> bool {
        self.name_generator.wf()
    }

    /// The next name; there always is one.
    pub fn next(&mut self) -> (r: Option<Result<String, Error>>)
        requires
            old(self).wf(),
        ensures
            final(self).wf(),
            final(self).source() == old(self).source(),
            r is Some,
            !old(self).source().is_trained() ==> r == Some(Err::<String, Error>(Error::Empty)),
            old(self).source().is_trained() ==> r->Some_0 is Ok && old(
                self,
            ).source().is_walk(r->Some_0->Ok_0@),
    {
        Some(self.name_generator.generate())
    }
}

pub proof fn lemma_total_len_concat(a: Seq<&str>, b: Seq<&str>)
    ensures
        total_len(a + b) == total_len(a) + total_len(b),
    decreases b.len(),
{
    if b.len() == 0 {
        assert(a + b =~= a);
    } else {
        assert((a + b).drop_last() =~= a + b.drop_last());
        lemma_total_len_concat(a, b.drop_last());
    }
}

} // verus!
