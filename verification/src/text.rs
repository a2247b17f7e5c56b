//! Splitting a line of input into words.

use itertools::Itertools;
use vstd::prelude::*;

verus! {

/// The texts of `parts`, one after another, with `sep` between each two.
pub open spec fn joined(parts: Seq<Seq<char>>, sep: Seq<char>) -> Seq<char>
    decreases parts.len(),
{
    if parts.len() == 0 {
        Seq::empty()
    } else if parts.len() == 1 {
        parts[0]
    } else {
        parts[0] + sep + joined(parts.skip(1), sep)
    }
}

/// What each of `parts` holds.
pub open spec fn texts_of(parts: Seq<String>) -> Seq<Seq<char>> {
    parts.map_values(|s: String| s@)
}

/// `itertools::Itertools::join` on the strings of `parts`: the result starts
/// with the first string and then holds, for each further one, `sep` and that
/// string; it is empty where there is none.
#[verifier::external_body]
pub(crate) fn join_texts(parts: &Vec<String>, sep: &str) -> (r: String)
    ensures
        r@ == joined(texts_of(parts@), sep@),
{
    parts.iter().join(sep)
}

/// The position of the first `c` in `s`, or the length of `s` where there is none.
pub open spec fn first_index_of(s: Seq<char>, c: char) -> int
    decreases s.len(),
{
    if s.len() == 0 || s[0] == c {
        0
    } else {
        1 + first_index_of(s.skip(1), c)
    }
}

/// `first_index_of` is the least position that holds `c`, and lies within `s` or at its end.
pub proof fn lemma_first_index_of(s: Seq<char>, c: char)
    ensures
        0 <= first_index_of(s, c) <= s.len(),
        forall|j: int| 0 <= j < first_index_of(s, c) ==> s[j] != c,
        first_index_of(s, c) < s.len() ==> s[first_index_of(s, c)] == c,
    decreases s.len(),
{
    if s.len() == 0 || s[0] == c {
    } else {
        lemma_first_index_of(s.skip(1), c);
        assert forall|j: int| 0 <= j < first_index_of(s, c) implies s[j] != c by {
            if j > 0 {
                assert(s.skip(1)[j - 1] == s[j]);
            }
        }
    }
}

/// A position that holds `c` with none before it is `first_index_of`; so is the
/// length of a text without `c`.
pub proof fn lemma_first_index_of_unique(s: Seq<char>, c: char, i: int)
    requires
        0 <= i <= s.len(),
        forall|j: int| 0 <= j < i ==> s[j] != c,
        i < s.len() ==> s[i] == c,
    ensures
        first_index_of(s, c) == i,
{
    lemma_first_index_of(s, c);
}

/// The first word of `s`: what stands before the first space.
pub open spec fn first_word(s: Seq<char>) -> Seq<char> {
    s.subrange(0, first_index_of(s, ' '))
}

/// What follows the first space of `s`; empty where `s` holds no space.
pub open spec fn after_first_word(s: Seq<char>) -> Seq<char> {
    let i = first_index_of(s, ' ');
    if i < s.len() {
        s.subrange(i + 1, s.len() as int)
    } else {
        Seq::empty()
    }
}

/// The position of the first `c` in `s`, if `s` holds one.
pub fn find_char(s: &str, c: char) -> (r: Option<usize>)
    ensures
        match r {
            Some(i) => i < s@.len() && i == first_index_of(s@, c),
            None => first_index_of(s@, c) == s@.len(),
        },
{
    let n: usize = s.unicode_len();
    let mut i: usize = 0;
    while i < n
        invariant
            n == s@.len(),
            i <= n,
            forall|j: int| 0 <= j < i ==> s@[j] != c,
        decreases n - i,
    {
        if s.get_char(i) == c {
            proof {
                lemma_first_index_of_unique(s@, c, i as int);
            }
            return Some(i);
        }
        i += 1;
    }
    proof {
        lemma_first_index_of_unique(s@, c, n as int);
    }
    None
}

/// Splits `value` at its first space: returns what follows the space, then the
/// word before it. A text without a space is one word with nothing after it.
pub fn parse_str(value: &str) -> (r: (&str, &str))
    ensures
        r.0@ == after_first_word(value@),
        r.1@ == first_word(value@),
{
    let n: usize = value.unicode_len();
    match find_char(value, ' ') {
        Some(i) => (value.substring_char(i + 1, n), value.substring_char(0, i)),
        None => {
            (value.substring_char(n, n), value.substring_char(0, n))
        },
    }
}

/// A word without a space, followed by a space and more text, is the first
/// word of the whole, and the text is what comes after it.
pub proof fn lemma_split_joined(word: Seq<char>, rest: Seq<char>)
    requires
        !word.contains(' '),
    ensures
        first_word(word + seq![' '] + rest) == word,
        after_first_word(word + seq![' '] + rest) == rest,
{
    let whole = word + seq![' '] + rest;
    assert forall|j: int| 0 <= j < word.len() implies whole[j] != ' ' by {
        assert(whole[j] == word[j]);
        assert(word.contains(word[j]));
    }
    assert(whole[word.len() as int] == ' ');
    lemma_first_index_of_unique(whole, ' ', word.len() as int);
    assert(whole.subrange(0, word.len() as int) =~= word);
    assert(whole.subrange(word.len() as int + 1, whole.len() as int) =~= rest);
}

/// A text without a space is one word with nothing after it.
pub proof fn lemma_split_word(word: Seq<char>)
    requires
        !word.contains(' '),
    ensures
        first_word(word) == word,
        after_first_word(word) == Seq::<char>::empty(),
{
    assert forall|j: int| 0 <= j < word.len() implies word[j] != ' ' by {
        assert(word.contains(word[j]));
    }
    lemma_first_index_of_unique(word, ' ', word.len() as int);
    assert(word.subrange(0, word.len() as int) =~= word);
}

/// What is joined from a position on starts with the part at that position;
/// the separator and the rest follow where there is a rest.
pub proof fn lemma_joined_step(parts: Seq<Seq<char>>, sep: Seq<char>, k: int)
    requires
        0 <= k < parts.len(),
    ensures
        joined(parts.skip(k), sep) == if k == parts.len() - 1 {
            parts[k]
        } else {
            parts[k] + sep + joined(parts.skip(k + 1), sep)
        },
{
    assert(parts.skip(k)[0] == parts[k]);
    assert(parts.skip(k).skip(1) =~= parts.skip(k + 1));
}

} // verus!
