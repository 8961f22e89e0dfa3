//! Windows over the characters of a word. A window holds real characters only: the end of a
//! word is a token that can follow a window, never one inside it.
use vstd::prelude::*;
use vstd::string::StrSliceExecFns;
use crate::map::Hashable;

verus! {

/// One step of a word: a character, or the end of the word.
#[derive(Debug, PartialEq, Eq, Structural, Clone, Copy)]
pub enum Token {
    Char(char),
    End,
}

impl View for Token {
    type V = Token;

    open spec fn view(&self) -> Token {
        *self
    }
}

impl Hashable for Token {
    fn key_eq(&self, other: &Self) -> (r: bool) {
        *self == *other
    }

    fn key_clone(&self) -> (r: Self) {
        *self
    }
}

impl Hashable for Vec<char> {
    fn key_eq(&self, other: &Self) -> (r: bool) {
        if self.len() != other.len() {
            return false;
        }
        let mut i: usize = 0;
        while i < self.len()
            invariant
                i <= self@.len(),
                self@.len() == other@.len(),
                forall|j: int| 0 <= j < i ==> self@[j] == other@[j],
            decreases self@.len() - i,
        {
            if self[i] != other[i] {
                return false;
            }
            i = i + 1;
        }
        assert(self@ =~= other@);
        true
    }

    fn key_clone(&self) -> (r: Self) {
        let mut r: Vec<char> = Vec::new();
        let mut i: usize = 0;
        while i < self.len()
            invariant
                i <= self@.len(),
                r@ == self@.take(i as int),
            decreases self@.len() - i,
        {
            r.push(self[i]);
            i = i + 1;
            assert(r@ =~= self@.take(i as int));
        }
        assert(self@.take(i as int) =~= self@);
        r
    }
}

/// The `n` characters of `w` from position `i`.
pub open spec fn window(w: Seq<char>, i: int, n: int) -> Seq<char> {
    w.subrange(i, i + n)
}

/// What follows the window of `w` at `i`: the next character, or the end of the word.
pub open spec fn successor(w: Seq<char>, i: int, n: int) -> Token {
    if i + n < w.len() {
        Token::Char(w[i + n])
    } else {
        Token::End
    }
}

/// The number of windows of length `n` in a word of length `len`.
pub open spec fn window_count(len: int, n: int) -> int {
    if len >= n {
        len - n + 1
    } else {
        0
    }
}

/// How many of the first `m` windows of `w` are `g` followed by `t`.
pub open spec fn hits(w: Seq<char>, n: int, g: Seq<char>, t: Token, m: int) -> nat
    decreases m,
{
    if m <= 0 {
        0
    } else {
        hits(w, n, g, t, m - 1) + if window(w, m - 1, n) == g && successor(w, m - 1, n) == t {
            1nat
        } else {
            0nat
        }
    }
}

/// The characters of `word`.
pub fn chars_of(word: &str) -> (r: Vec<char>)
    ensures
        r@ == word@,
{
    let ghost w: Seq<char> = word@;
    let len = word.unicode_len();
    let mut r: Vec<char> = Vec::new();
    let mut k: usize = 0;
    while k < len
        invariant
            k <= len,
            len == w.len(),
            word@ == w,
            r@ == w.take(k as int),
        decreases len - k,
    {
        r.push(word.get_char(k));
        k = k + 1;
        assert(r@ =~= w.take(k as int));
    }
    assert(w.take(len as int) =~= w);
    r
}

/// A copy of the `n` characters of `cs` from position `i`.
pub fn window_at(cs: &Vec<char>, i: usize, n: usize) -> (r: Vec<char>)
    requires
        i + n <= cs@.len(),
    ensures
        r@ == cs@.subrange(i as int, i + n),
{
    let mut r: Vec<char> = Vec::new();
    let mut j: usize = 0;
    while j < n
        invariant
            j <= n,
            i + n <= cs@.len(),
            cs@.len() == cs.len(),
            r@ == cs@.subrange(i as int, i + j),
        decreases n - j,
    {
        r.push(cs[i + j]);
        j = j + 1;
        assert(r@ =~= cs@.subrange(i as int, i + j));
    }
    r
}

} // verus!
