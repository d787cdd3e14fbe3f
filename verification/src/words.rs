//! Reading the words of a dictionary file: the first tab-separated field of each line.
use vstd::prelude::*;

use crate::text::{
    chars_of, copy_chars, find_chars, find_from, lemma_find_from, lemma_find_from_first, lemma_find_from_shift,
    occurs_at, string_of,
};

verus! {

/// `\r\n`, the line separator of dictionary files.
pub open spec fn crlf() -> Seq<char> {
    seq!['\r', '\n']
}

/// `\t`, the field separator of dictionary lines.
pub open spec fn tab() -> Seq<char> {
    seq!['\t']
}

/// The first tab-separated field of a line (the whole line when it has no tab).
pub open spec fn first_field(line: Seq<char>) -> Seq<char> {
    match find_from(line, tab(), 0) {
        Some(i) => line.subrange(0, i),
        None => line,
    }
}

/// The words of a dictionary text from index `pos` on: the text is split at
/// every `\r\n` (so an empty text, or one ending in `\r\n`, has an empty last
/// line) and each line gives its first tab-separated field.
pub open spec fn words_from(text: Seq<char>, pos: int) -> Seq<Seq<char>>
    decreases text.len() + 1 - pos,
{
    if pos < 0 || pos > text.len() {
        seq![]
    } else {
        match find_from(text, crlf(), pos) {
            None => seq![first_field(text.subrange(pos, text.len() as int))],
            Some(e) => {
                proof {
                    lemma_find_from(text, crlf(), pos);
                }
                seq![first_field(text.subrange(pos, e))] + words_from(text, e + 2)
            },
        }
    }
}

/// The first field of the line `chars[lo..hi]`, as a new string.
fn first_field_of(chars: &Vec<char>, lo: usize, hi: usize) -> (w: String)
    requires
        lo <= hi <= chars@.len(),
    ensures
        w@ == first_field(chars@.subrange(lo as int, hi as int)),
{
    let line = copy_chars(chars, lo, hi);
    let tab_v = vec!['\t'];
    assert(tab_v@ =~= tab());
    match find_chars(&line, &tab_v, 0) {
        Some(i) => {
            proof {
                lemma_find_from(line@, tab(), 0);
            }
            string_of(&line, 0, i)
        },
        None => {
            let w = string_of(&line, 0, line.len());
            assert(line@.subrange(0, line@.len() as int) =~= line@);
            w
        },
    }
}

/// The words of a dictionary file's text (see `words_from`), in order.
pub fn dictionary_words(text: &str) -> (words: Vec<String>)
    ensures
        words.deep_view() == words_from(text@, 0),
{
    let chars = chars_of(text);
    let crlf_v = vec!['\r', '\n'];
    assert(crlf_v@ =~= crlf());
    let mut words: Vec<String> = Vec::new();
    let mut pos: usize = 0;
    assert(words.deep_view() =~= Seq::<Seq<char>>::empty());
    loop
        invariant
            chars@ == text@,
            crlf_v@ == crlf(),
            pos <= chars@.len(),
            words_from(text@, 0) == words.deep_view() + words_from(text@, pos as int),
        decreases chars@.len() + 1 - pos,
    {
        let ghost before = words.deep_view();
        match find_chars(&chars, &crlf_v, pos) {
            None => {
                let w = first_field_of(&chars, pos, chars.len());
                words.push(w);
                assert(words.deep_view() =~= before.push(w@));
                assert(words_from(text@, 0) =~= words.deep_view());
                return words;
            },
            Some(e) => {
                proof {
                    lemma_find_from(chars@, crlf(), pos as int);
                }
                assert(e + 2 <= chars.len());
                let w = first_field_of(&chars, pos, e);
                words.push(w);
                assert(words.deep_view() =~= before.push(w@));
                assert(before + words_from(text@, pos as int) =~= words.deep_view() + words_from(text@, e + 2));
                pos = e + 2;
            },
        }
    }
}


/// Law: a line's word is everything before its first tab (spaces and any
/// other characters included), or the whole line when it has no tab.
pub proof fn law_first_field(w: Seq<char>, rest: Seq<char>)
    requires
        !w.contains('\t'),
    ensures
        first_field(w + tab() + rest) == w,
        first_field(w) == w,
{
    let t = w + tab() + rest;
    let k = w.len() as int;
    assert(t.subrange(k, k + 1) =~= tab());
    assert forall|j: int| 0 <= j < k implies !occurs_at(t, tab(), j) by {
        if occurs_at(t, tab(), j) {
            assert(t.subrange(j, j + 1)[0] == t[j]);
            assert(t[j] == w[j]);
            assert(w.contains(t[j]));
        }
    }
    lemma_find_from_first(t, tab(), 0, k);
    assert(t.subrange(0, k) =~= w);
    lemma_find_from(w, tab(), 0);
    if find_from(w, tab(), 0) is Some {
        let i = find_from(w, tab(), 0)->0;
        assert(w.subrange(i, i + 1)[0] == w[i]);
        assert(w.contains(w[i]));
    }
}

/// The words of `a + b` from inside `b` are the words of `b`.
proof fn lemma_words_from_shift(a: Seq<char>, b: Seq<char>, p: int)
    requires
        0 <= p,
    ensures
        words_from(a + b, a.len() + p) == words_from(b, p),
    decreases b.len() + 1 - p,
{
    if p <= b.len() {
        lemma_find_from_shift(a, b, crlf(), p);
        match find_from(b, crlf(), p) {
            None => {
                assert((a + b).subrange(a.len() + p, (a + b).len() as int) =~= b.subrange(p, b.len() as int));
            },
            Some(e) => {
                lemma_find_from(b, crlf(), p);
                assert((a + b).subrange(a.len() + p, a.len() + e) =~= b.subrange(p, e));
                lemma_words_from_shift(a, b, e + 2);
                assert(a.len() + e + 2 == a.len() + (e + 2));
            },
        }
    }
}

/// Law: a dictionary text is split at each `\r\n` into lines: for a first
/// line `w` without `\r\n`, the words of `w + \r\n + rest` are the word of `w`
/// followed by the words of `rest`, and the words of `w` alone are its word.
pub proof fn law_words_by_line(w: Seq<char>, rest: Seq<char>)
    requires
        forall|j: int| !occurs_at(w, crlf(), j),
    ensures
        words_from(w + crlf() + rest, 0) == seq![first_field(w)] + words_from(rest, 0),
        words_from(w, 0) == seq![first_field(w)],
{
    let t = w + crlf() + rest;
    let k = w.len() as int;
    assert(t.subrange(k, k + 2) =~= crlf());
    assert forall|j: int| 0 <= j < k implies !occurs_at(t, crlf(), j) by {
        if occurs_at(t, crlf(), j) {
            if j + 2 <= k {
                assert(t.subrange(j, j + 2) =~= w.subrange(j, j + 2));
                assert(occurs_at(w, crlf(), j));
            } else {
                assert(t.subrange(j, j + 2)[1] == t[k]);
                assert(t[k] == '\r');
            }
        }
    }
    lemma_find_from_first(t, crlf(), 0, k);
    assert(t.subrange(0, k) =~= w);
    let head = w + crlf();
    assert(t == head + rest);
    lemma_words_from_shift(head, rest, 0);
    assert(head.len() + 0 == k + 2);
    lemma_find_from(w, crlf(), 0);
    assert(w.subrange(0, k) =~= w);
}

} // verus!
