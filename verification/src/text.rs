//! Character sequences: finding a separator and cutting a text at it.

use vstd::prelude::*;

verus! {

/// std's `String::push`.
///
/// Trusted: after the call the string holds what it held before and then
/// `c`, as std documents ("appends the given `char` to the end").
pub assume_specification[ String::push ](s: &mut String, c: char)
    ensures
        final(s)@ == old(s)@.push(c),
;

/// The position of the first `c` in `s`, or `s.len()` where `s` holds none.
pub open spec fn first_index(s: Seq<char>, c: char) -> int
    decreases s.len(),
{
    if s.len() == 0 || s[0] == c {
        0
    } else {
        1 + first_index(s.drop_first(), c)
    }
}

/// The pieces of `s` between occurrences of `sep`, in order.  A text without
/// `sep` is one piece; `n` occurrences give `n + 1` pieces, empty ones
/// included.
pub open spec fn split(s: Seq<char>, sep: char) -> Seq<Seq<char>>
    decreases s.len(),
{
    let i = first_index(s, sep);
    if 0 <= i < s.len() {
        seq![s.take(i)] + split(s.skip(i + 1), sep)
    } else {
        seq![s]
    }
}

/// `piece` without the carriage return at its end, if it has one.
pub open spec fn strip_cr(piece: Seq<char>) -> Seq<char> {
    if piece.len() > 0 && piece.last() == '\r' {
        piece.drop_last()
    } else {
        piece
    }
}

/// The lines of a text.  The empty text has none.  Any other text has one
/// line more than it has line feeds: what stands before each line feed,
/// less a carriage return directly in front of it, and what stands after
/// the last one, which is the empty line where the text ends in a line
/// feed.
pub open spec fn lines(text: Seq<char>) -> Seq<Seq<char>> {
    if text.len() == 0 {
        Seq::empty()
    } else {
        let pieces = split(text, '\n');
        Seq::new(
            pieces.len(),
            |i: int|
                if i + 1 < pieces.len() {
                    strip_cr(pieces[i])
                } else {
                    pieces[i]
                },
        )
    }
}

/// `first_index` is in range, nothing before it is `c`, and it points at `c`
/// unless it is the length.
pub proof fn lemma_first_index(s: Seq<char>, c: char)
    ensures
        0 <= first_index(s, c) <= s.len(),
        forall|j: int| 0 <= j < first_index(s, c) ==> s[j] != c,
        first_index(s, c) < s.len() ==> s[first_index(s, c)] == c,
    decreases s.len(),
{
    if s.len() == 0 || s[0] == c {
    } else {
        let t = s.drop_first();
        lemma_first_index(t, c);
        assert forall|j: int| 0 <= j < first_index(s, c) implies s[j] != c by {
            if j > 0 {
                assert(s[j] == t[j - 1]);
            }
        }
        assert(first_index(s, c) < s.len() ==> s[first_index(s, c)] == t[first_index(t, c)]);
    }
}

/// A position with no `c` before it, which is the length or points at `c`,
/// is the first index of `c`.
pub proof fn lemma_first_index_unique(s: Seq<char>, c: char, i: int)
    requires
        0 <= i <= s.len(),
        forall|j: int| 0 <= j < i ==> s[j] != c,
        i < s.len() ==> s[i] == c,
    ensures
        first_index(s, c) == i,
{
    lemma_first_index(s, c);
    let k = first_index(s, c);
    if k < i {
        assert(s[k] != c);
    } else if i < k {
        assert(s[i] == c);
    }
}

/// The text holds `c` exactly when the first index of `c` lies inside it.
pub proof fn lemma_first_index_contains(s: Seq<char>, c: char)
    ensures
        s.contains(c) <==> first_index(s, c) < s.len(),
{
    lemma_first_index(s, c);
    if first_index(s, c) < s.len() {
        assert(s[first_index(s, c)] == c);
    }
}

/// A text without the separator is its own single piece.
pub proof fn lemma_split_none(s: Seq<char>, sep: char)
    requires
        !s.contains(sep),
    ensures
        split(s, sep) == seq![s],
{
    lemma_first_index_contains(s, sep);
}

/// Cutting `head + sep + tail`, where `head` is free of the separator, gives
/// `head` and then the pieces of `tail`.
pub proof fn lemma_split_join(head: Seq<char>, sep: char, tail: Seq<char>)
    requires
        !head.contains(sep),
    ensures
        split(head + seq![sep] + tail, sep) == seq![head] + split(tail, sep),
{
    let s = head + seq![sep] + tail;
    let n = head.len() as int;
    assert(s[n] == sep);
    assert forall|j: int| 0 <= j < n implies s[j] != sep by {
        assert(s[j] == head[j]);
        assert(head.contains(head[j]));
    }
    lemma_first_index_unique(s, sep, n);
    assert(s.take(n) == head);
    assert(s.skip(n + 1) == tail);
}

/// Copies the characters of `s` into a vector.
pub fn chars_of(s: &str) -> (v: Vec<char>)
    ensures
        v@ == s@,
{
    let mut v: Vec<char> = Vec::new();
    for c in it: s.chars()
        invariant
            v@ == it.seq().take(it.index()),
            it.seq() == s@,
    {
        v.push(c);
    }
    v
}

/// The position of the first `c` in `buf[from..to]`, or `to` where there is
/// none.
pub fn find(buf: &Vec<char>, from: usize, to: usize, c: char) -> (i: usize)
    requires
        from <= to <= buf.len(),
    ensures
        from <= i <= to,
        i - from == first_index(buf@.subrange(from as int, to as int), c),
{
    let ghost s = buf@.subrange(from as int, to as int);
    let mut i: usize = from;
    while i < to && buf[i] != c
        invariant
            from <= i <= to <= buf.len(),
            s == buf@.subrange(from as int, to as int),
            forall|j: int| 0 <= j < i - from ==> s[j] != c,
        decreases to - i,
    {
        assert(s[i - from] == buf[i as int]);
        i = i + 1;
    }
    proof {
        if i < to {
            assert(s[i - from] == buf[i as int]);
        }
        lemma_first_index_unique(s, c, i - from);
    }
    i
}

/// The characters `buf[from..to]` as a string of their own.
pub fn string_of(buf: &Vec<char>, from: usize, to: usize) -> (s: String)
    requires
        from <= to <= buf.len(),
    ensures
        s@ == buf@.subrange(from as int, to as int),
{
    let mut s = String::new();
    let mut i: usize = from;
    while i < to
        invariant
            from <= i <= to <= buf.len(),
            s@ == buf@.subrange(from as int, i as int),
        decreases to - i,
    {
        s.push(buf[i]);
        i = i + 1;
    }
    s
}

} // verus!
