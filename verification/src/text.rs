//! Searching and copying text held as sequences of characters.
use vstd::prelude::*;

verus! {

/// Whether `pat` occurs in `s` starting at index `i`.
pub open spec fn occurs_at(s: Seq<char>, pat: Seq<char>, i: int) -> bool {
    0 <= i && i + pat.len() <= s.len() && s.subrange(i, i + pat.len()) == pat
}

/// Whether `s` begins with `pat`.
pub open spec fn starts_with(s: Seq<char>, pat: Seq<char>) -> bool {
    occurs_at(s, pat, 0)
}

/// The first index at or after `from` where `pat` occurs in `s`, if any.
pub open spec fn find_from(s: Seq<char>, pat: Seq<char>, from: int) -> Option<int>
    decreases s.len() + 1 - from,
{
    if from < 0 || from + pat.len() > s.len() {
        None
    } else if occurs_at(s, pat, from) {
        Some(from)
    } else {
        find_from(s, pat, from + 1)
    }
}

/// `find_from` gives the first occurrence at or after `from`, and `None` only when there is none.
pub proof fn lemma_find_from(s: Seq<char>, pat: Seq<char>, from: int)
    requires
        0 <= from,
    ensures
        match find_from(s, pat, from) {
            Some(i) => from <= i && occurs_at(s, pat, i) && i + pat.len() <= s.len()
                && forall|j: int| from <= j < i ==> !occurs_at(s, pat, j),
            None => forall|j: int| from <= j ==> !occurs_at(s, pat, j),
        },
    decreases s.len() + 1 - from,
{
    if from + pat.len() > s.len() {
    } else if occurs_at(s, pat, from) {
    } else {
        lemma_find_from(s, pat, from + 1);
    }
}

/// The characters of a string slice, in order.
pub fn chars_of(s: &str) -> (v: Vec<char>)
    ensures
        v@ == s@,
{
    let mut v: Vec<char> = Vec::new();
    for c in it: s.chars()
        invariant
            v@ == it.seq().take(it.index() as int),
    {
        v.push(c);
        assert(v@ =~= it.seq().take(it.index() as int + 1));
    }
    v
}


/// Whether `pat` occurs in `hay` at index `i`.
fn occurs_at_exec(hay: &Vec<char>, pat: &Vec<char>, i: usize) -> (r: bool)
    requires
        i + pat@.len() <= hay@.len(),
    ensures
        r == occurs_at(hay@, pat@, i as int),
{
    let n = hay.len();
    let mut j: usize = 0;
    while j < pat.len()
        invariant
            n == hay@.len(),
            j <= pat@.len(),
            i + pat@.len() <= hay@.len(),
            forall|k: int| 0 <= k < j ==> hay@[i + k] == pat@[k],
        decreases pat@.len() - j,
    {
        if hay[i + j] != pat[j] {
            assert(hay@.subrange(i as int, i + pat@.len())[j as int] != pat@[j as int]);
            return false;
        }
        j += 1;
    }
    assert(hay@.subrange(i as int, i + pat@.len()) =~= pat@);
    true
}

/// The first index at or after `from` where `pat` occurs in `hay`, as `find_from` says.
pub fn find_chars(hay: &Vec<char>, pat: &Vec<char>, from: usize) -> (r: Option<usize>)
    ensures
        match r {
            Some(i) => find_from(hay@, pat@, from as int) == Some(i as int),
            None => find_from(hay@, pat@, from as int) is None,
        },
{
    if from > hay.len() || pat.len() > hay.len() - from {
        return None;
    }
    let mut i = from;
    while pat.len() <= hay.len() - i
        invariant
            from <= i <= hay@.len(),
            find_from(hay@, pat@, from as int) == find_from(hay@, pat@, i as int),
        decreases hay@.len() - i,
    {
        if occurs_at_exec(hay, pat, i) {
            return Some(i);
        }
        if pat.len() == 0 {
            assert(hay@.subrange(i as int, i as int) =~= pat@);
        }
        i += 1;
    }
    None
}

/// Appends one character to a `String` by std's `String::push`; its contract
/// claims that the string's characters are the old ones followed by `c`.
#[verifier::external_body]
fn push_char(s: &mut String, c: char)
    ensures
        final(s)@ == old(s)@.push(c),
{
    s.push(c);
}

/// Appends the characters `chars[lo..hi]` to `s`.
pub fn push_chars(s: &mut String, chars: &Vec<char>, lo: usize, hi: usize)
    requires
        lo <= hi <= chars@.len(),
    ensures
        final(s)@ == old(s)@ + chars@.subrange(lo as int, hi as int),
{
    let mut i = lo;
    while i < hi
        invariant
            lo <= i <= hi,
            hi <= chars@.len(),
            s@ == old(s)@ + chars@.subrange(lo as int, i as int),
        decreases hi - i,
    {
        push_char(s, chars[i]);
        i += 1;
        assert(s@ =~= old(s)@ + chars@.subrange(lo as int, i as int));
    }
}

/// A new string made of `chars[lo..hi]`.
pub fn string_of(chars: &Vec<char>, lo: usize, hi: usize) -> (r: String)
    requires
        lo <= hi <= chars@.len(),
    ensures
        r@ == chars@.subrange(lo as int, hi as int),
{
    let mut r = String::new();
    push_chars(&mut r, chars, lo, hi);
    assert(r@ =~= chars@.subrange(lo as int, hi as int));
    r
}


/// A copy of `chars[lo..hi]`.
pub fn copy_chars(chars: &Vec<char>, lo: usize, hi: usize) -> (v: Vec<char>)
    requires
        lo <= hi <= chars@.len(),
    ensures
        v@ == chars@.subrange(lo as int, hi as int),
{
    let mut v: Vec<char> = Vec::new();
    let mut i = lo;
    while i < hi
        invariant
            lo <= i <= hi,
            hi <= chars@.len(),
            v@ == chars@.subrange(lo as int, i as int),
        decreases hi - i,
    {
        v.push(chars[i]);
        i += 1;
        assert(v@ =~= chars@.subrange(lo as int, i as int));
    }
    v
}


/// An occurrence with none before it (from `from` on) is what `find_from` finds.
pub proof fn lemma_find_from_first(s: Seq<char>, pat: Seq<char>, from: int, i: int)
    requires
        0 <= from <= i,
        occurs_at(s, pat, i),
        forall|j: int| from <= j < i ==> !occurs_at(s, pat, j),
    ensures
        find_from(s, pat, from) == Some(i),
    decreases i - from,
{
    if from < i {
        lemma_find_from_first(s, pat, from + 1, i);
    }
}

/// Occurrences in `b` are occurrences in `a + b`, moved by `a.len()`.
pub proof fn lemma_occurs_at_shift(a: Seq<char>, b: Seq<char>, pat: Seq<char>, j: int)
    requires
        0 <= j,
    ensures
        occurs_at(a + b, pat, a.len() + j) == occurs_at(b, pat, j),
{
    if j + pat.len() <= b.len() {
        assert((a + b).subrange(a.len() + j, a.len() + j + pat.len()) =~= b.subrange(j, j + pat.len()));
    }
}

/// Searching `a + b` from inside `b` is searching `b`.
pub proof fn lemma_find_from_shift(a: Seq<char>, b: Seq<char>, pat: Seq<char>, p: int)
    requires
        0 <= p,
    ensures
        find_from(a + b, pat, a.len() + p) == match find_from(b, pat, p) {
            Some(i) => Some(a.len() + i),
            None => None::<int>,
        },
    decreases b.len() + 1 - p,
{
    lemma_occurs_at_shift(a, b, pat, p);
    if p + pat.len() <= b.len() && !occurs_at(b, pat, p) {
        lemma_find_from_shift(a, b, pat, p + 1);
    }
}

} // verus!
