//! Text handling on sequences of characters: lines, fields, words and
//! substring search.

use vstd::prelude::*;

verus! {

/// The characters of `s`, in order.
pub fn chars_of(s: &str) -> (v: Vec<char>)
    ensures
        v@ == s@,
{
    let mut v: Vec<char> = Vec::new();
    for c in it: s.chars()
        invariant
            v@ == it.seq().take(it.index()),
            it.seq() == s@,
    {
        v.push(c);
    }
    v
}

/// `needle` occurs in `hay` at position `i`.
pub open spec fn occurs_at(hay: Seq<char>, needle: Seq<char>, i: int) -> bool {
    &&& 0 <= i
    &&& i + needle.len() <= hay.len()
    &&& hay.subrange(i, i + needle.len()) == needle
}

/// `needle` is a contiguous part of `hay`. The empty sequence is part of
/// every sequence.
pub open spec fn is_substring(hay: Seq<char>, needle: Seq<char>) -> bool {
    exists|i: int| occurs_at(hay, needle, i)
}

/// `prefix` is what `s` begins with.
pub open spec fn starts_with(s: Seq<char>, prefix: Seq<char>) -> bool {
    prefix.len() <= s.len() && s.take(prefix.len() as int) == prefix
}

/// Whether `hay` holds `needle` at position `at`.
pub fn matches_at(hay: &Vec<char>, needle: &Vec<char>, at: usize) -> (b: bool)
    ensures
        b == occurs_at(hay@, needle@, at as int),
{
    if needle.len() > hay.len() || at > hay.len() - needle.len() {
        return false;
    }
    let mut j: usize = 0;
    while j < needle.len()
        invariant
            at + needle.len() <= hay.len(),
            j <= needle.len(),
            forall|k: int| 0 <= k < j ==> hay@[at + k] == needle@[k],
        decreases needle.len() - j,
    {
        if hay[at + j] != needle[j] {
            assert(hay@.subrange(at as int, at + needle.len())[j as int] != needle@[j as int]);
            return false;
        }
        j += 1;
    }
    assert(hay@.subrange(at as int, at + needle.len()) =~= needle@);
    true
}

/// Whether `needle` is a contiguous part of `hay`, compared character by
/// character and case-sensitively.
pub fn contains(hay: &Vec<char>, needle: &Vec<char>) -> (b: bool)
    ensures
        b == is_substring(hay@, needle@),
{
    if needle.len() > hay.len() {
        return false;
    }
    let last: usize = hay.len() - needle.len();
    let mut i: usize = 0;
    while i < last
        invariant
            last == hay.len() - needle.len(),
            needle.len() <= hay.len(),
            i <= last,
            forall|k: int| 0 <= k < i ==> !occurs_at(hay@, needle@, k),
        decreases last - i,
    {
        if matches_at(hay, needle, i) {
            return true;
        }
        i += 1;
    }
    matches_at(hay, needle, last)
}

/// Whether `s` begins with `prefix`.
pub fn has_prefix(s: &Vec<char>, prefix: &Vec<char>) -> (b: bool)
    ensures
        b == starts_with(s@, prefix@),
{
    let b = matches_at(s, prefix, 0);
    proof {
        if prefix.len() <= s.len() {
            assert(s@.take(prefix.len() as int) =~= s@.subrange(0, 0 + prefix.len()));
        }
    }
    b
}

/// Whether `a` and `b` hold the same characters.
pub fn same_text(a: &Vec<char>, b: &Vec<char>) -> (same: bool)
    ensures
        same == (a@ == b@),
{
    if a.len() != b.len() {
        return false;
    }
    let same = matches_at(a, b, 0);
    proof {
        assert(a@.subrange(0, 0 + b@.len() as int) =~= a@);
    }
    same
}

/// The text of each element of `v`.
pub open spec fn texts(v: Seq<Vec<char>>) -> Seq<Seq<char>> {
    Seq::new(v.len(), |i: int| v[i]@)
}

/// The position of the first `c` in `s`, or the length of `s` where `s`
/// holds no `c`.
pub open spec fn first_index(s: Seq<char>, c: char) -> int
    decreases s.len(),
{
    if s.len() == 0 || s[0] == c {
        0
    } else {
        1 + first_index(s.skip(1), c)
    }
}

/// `first_index` is the one position before which no `c` stands and at which
/// `s` ends or holds `c`.
pub proof fn lemma_first_index(s: Seq<char>, c: char, e: int)
    requires
        0 <= e <= s.len(),
        forall|k: int| 0 <= k < e ==> s[k] != c,
        e < s.len() ==> s[e] == c,
    ensures
        first_index(s, c) == e,
    decreases s.len(),
{
    if s.len() == 0 || s[0] == c {
    } else {
        lemma_first_index(s.skip(1), c, e - 1);
    }
}

/// `first_index` lies within `s`, or at its end.
pub proof fn lemma_first_index_bounds(s: Seq<char>, c: char)
    ensures
        0 <= first_index(s, c) <= s.len(),
    decreases s.len(),
{
    if s.len() == 0 || s[0] == c {
    } else {
        lemma_first_index_bounds(s.skip(1), c);
    }
}

/// The fields of `s` between occurrences of `sep`: one more than `s` holds
/// separators, empty ones included.
pub open spec fn fields(s: Seq<char>, sep: char) -> Seq<Seq<char>>
    decreases s.len(),
{
    let e = first_index(s, sep);
    if e >= s.len() {
        seq![s]
    } else {
        proof {
            lemma_first_index_bounds(s, sep);
        }
        seq![s.take(e)] + fields(s.skip(e + 1), sep)
    }
}

/// `l` without one carriage return at its end.
pub open spec fn without_cr(l: Seq<char>) -> Seq<char> {
    if l.len() > 0 && l.last() == '\r' {
        l.drop_last()
    } else {
        l
    }
}

/// The lines of `s`. A line ends at a line feed, or at a carriage return
/// directly followed by one; neither belongs to the line. What follows the
/// last line feed is a line of its own unless it is empty, and keeps a
/// carriage return at its end.
pub open spec fn lines(s: Seq<char>) -> Seq<Seq<char>>
    decreases s.len(),
{
    if s.len() == 0 {
        Seq::empty()
    } else {
        let e = first_index(s, '\n');
        if e >= s.len() {
            seq![s]
        } else {
            proof {
                lemma_first_index_bounds(s, '\n');
            }
            seq![without_cr(s.take(e))] + lines(s.skip(e + 1))
        }
    }
}

/// White space as Unicode defines it (the property `White_Space`).
pub open spec fn is_whitespace(c: char) -> bool {
    let n = c as u32;
    ||| 0x09 <= n <= 0x0d
    ||| n == 0x20
    ||| n == 0x85
    ||| n == 0xa0
    ||| n == 0x1680
    ||| 0x2000 <= n <= 0x200a
    ||| n == 0x2028
    ||| n == 0x2029
    ||| n == 0x202f
    ||| n == 0x205f
    ||| n == 0x3000
}

/// The number of characters before the first white space in `s`.
pub open spec fn word_len(s: Seq<char>) -> int
    decreases s.len(),
{
    if s.len() == 0 || is_whitespace(s[0]) {
        0
    } else {
        1 + word_len(s.skip(1))
    }
}

/// `word_len` is the one position before which no white space stands and at
/// which `s` ends or holds white space.
pub proof fn lemma_word_len(s: Seq<char>, e: int)
    requires
        0 <= e <= s.len(),
        forall|k: int| 0 <= k < e ==> !is_whitespace(s[k]),
        e < s.len() ==> is_whitespace(s[e]),
    ensures
        word_len(s) == e,
    decreases s.len(),
{
    if s.len() == 0 || is_whitespace(s[0]) {
    } else {
        lemma_word_len(s.skip(1), e - 1);
    }
}

/// `word_len` lies within `s`, and is not 0 where `s` begins with a word.
pub proof fn lemma_word_len_bounds(s: Seq<char>)
    ensures
        0 <= word_len(s) <= s.len(),
        s.len() > 0 && !is_whitespace(s[0]) ==> word_len(s) >= 1,
    decreases s.len(),
{
    if s.len() == 0 || is_whitespace(s[0]) {
    } else {
        lemma_word_len_bounds(s.skip(1));
    }
}

/// The words of `s`: its longest runs of characters that are not white
/// space, in order. None of them is empty.
pub open spec fn words(s: Seq<char>) -> Seq<Seq<char>>
    decreases s.len(),
{
    if s.len() == 0 {
        Seq::empty()
    } else if is_whitespace(s[0]) {
        words(s.skip(1))
    } else {
        proof {
            lemma_word_len_bounds(s);
        }
        let n = word_len(s);
        seq![s.take(n)] + words(s.skip(n))
    }
}

/// Whether `c` is white space.
pub fn is_space(c: char) -> (b: bool)
    ensures
        b == is_whitespace(c),
{
    let n: u32 = c as u32;
    (0x09 <= n && n <= 0x0d) || n == 0x20 || n == 0x85 || n == 0xa0 || n == 0x1680 || (0x2000 <= n
        && n <= 0x200a) || n == 0x2028 || n == 0x2029 || n == 0x202f || n == 0x205f || n == 0x3000
}

/// A copy of the characters of `s` from `from` up to, not including, `to`.
pub fn slice_of(s: &Vec<char>, from: usize, to: usize) -> (r: Vec<char>)
    requires
        from <= to <= s.len(),
    ensures
        r@ == s@.subrange(from as int, to as int),
{
    let mut r: Vec<char> = Vec::new();
    let mut i: usize = from;
    while i < to
        invariant
            from <= i <= to <= s.len(),
            r@ == s@.subrange(from as int, i as int),
        decreases to - i,
    {
        r.push(s[i]);
        i += 1;
        assert(r@ =~= s@.subrange(from as int, i as int));
    }
    r
}

/// The position of the first `c` in `s` at or after `from`, or the length of
/// `s` where none follows.
pub fn find_from(s: &Vec<char>, from: usize, c: char) -> (e: usize)
    requires
        from <= s.len(),
    ensures
        from <= e <= s.len(),
        e - from == first_index(s@.skip(from as int), c),
{
    let mut e: usize = from;
    while e < s.len() && s[e] != c
        invariant
            from <= e <= s.len(),
            forall|k: int| from <= k < e ==> s@[k] != c,
        decreases s.len() - e,
    {
        e += 1;
    }
    proof {
        lemma_first_index(s@.skip(from as int), c, e - from);
    }
    e
}

/// The position of the first white space in `s` at or after `from`, or the
/// length of `s` where none follows.
pub fn word_end(s: &Vec<char>, from: usize) -> (e: usize)
    requires
        from <= s.len(),
    ensures
        from <= e <= s.len(),
        e - from == word_len(s@.skip(from as int)),
{
    let mut e: usize = from;
    while e < s.len() && !is_space(s[e])
        invariant
            from <= e <= s.len(),
            forall|k: int| from <= k < e ==> !is_whitespace(s@[k]),
        decreases s.len() - e,
    {
        e += 1;
    }
    proof {
        lemma_word_len(s@.skip(from as int), e - from);
    }
    e
}

/// The fields of `s` between occurrences of `sep`.
pub fn split_fields(s: &Vec<char>, sep: char) -> (out: Vec<Vec<char>>)
    ensures
        texts(out@) == fields(s@, sep),
{
    let mut out: Vec<Vec<char>> = Vec::new();
    let mut pos: usize = 0;
    assert(s@.skip(0) =~= s@);
    assert(texts(out@) + fields(s@, sep) =~= fields(s@, sep));
    loop
        invariant
            pos <= s.len(),
            texts(out@) + fields(s@.skip(pos as int), sep) == fields(s@, sep),
        decreases s.len() - pos,
    {
        let e = find_from(s, pos, sep);
        let field = slice_of(s, pos, e);
        let ghost rest = s@.skip(pos as int);
        let ghost before = texts(out@);
        let ghost text = field@;
        out.push(field);
        proof {
            assert(texts(out@) =~= before + seq![text]);
            assert(rest.take(e - pos) =~= text);
            if e < s.len() {
                assert(rest.skip(e - pos + 1) =~= s@.skip(e + 1));
                assert(before + (seq![text] + fields(s@.skip(e + 1), sep)) =~= (before
                    + seq![text]) + fields(s@.skip(e + 1), sep));
            } else {
                assert(rest.take(e - pos) =~= rest);
            }
        }
        if e == s.len() {
            return out;
        }
        pos = e + 1;
    }
}

/// The lines of `s`.
pub fn split_lines(s: &Vec<char>) -> (out: Vec<Vec<char>>)
    ensures
        texts(out@) == lines(s@),
{
    let mut out: Vec<Vec<char>> = Vec::new();
    let mut pos: usize = 0;
    assert(s@.skip(0) =~= s@);
    assert(texts(out@) + lines(s@) =~= lines(s@));
    while pos < s.len()
        invariant
            pos <= s.len(),
            texts(out@) + lines(s@.skip(pos as int)) == lines(s@),
        decreases s.len() - pos,
    {
        let e = find_from(s, pos, '\n');
        let end: usize = if e < s.len() && e > pos && s[e - 1] == '\r' {
            e - 1
        } else {
            e
        };
        let line = slice_of(s, pos, end);
        let ghost rest = s@.skip(pos as int);
        let ghost before = texts(out@);
        let ghost text = line@;
        out.push(line);
        proof {
            assert(texts(out@) =~= before + seq![text]);
            if e < s.len() {
                assert(rest.take(e - pos) =~= s@.subrange(pos as int, e as int));
                assert(without_cr(rest.take(e - pos)) =~= text);
                assert(rest.skip(e - pos + 1) =~= s@.skip(e + 1));
                assert(before + (seq![text] + lines(s@.skip(e + 1))) =~= (before + seq![text])
                    + lines(s@.skip(e + 1)));
            } else {
                assert(text =~= rest);
                assert(s@.skip(e as int).len() == 0);
                assert(before + seq![text] =~= (before + seq![text]) + lines(s@.skip(e as int)));
            }
        }
        pos = if e < s.len() {
            e + 1
        } else {
            e
        };
    }
    assert(texts(out@) + lines(s@.skip(pos as int)) =~= texts(out@));
    out
}

/// The words of `s`.
pub fn split_words(s: &Vec<char>) -> (out: Vec<Vec<char>>)
    ensures
        texts(out@) == words(s@),
{
    let mut out: Vec<Vec<char>> = Vec::new();
    let mut pos: usize = 0;
    assert(s@.skip(0) =~= s@);
    assert(texts(out@) + words(s@) =~= words(s@));
    while pos < s.len()
        invariant
            pos <= s.len(),
            texts(out@) + words(s@.skip(pos as int)) == words(s@),
        decreases s.len() - pos,
    {
        let ghost rest = s@.skip(pos as int);
        if is_space(s[pos]) {
            assert(rest.skip(1) =~= s@.skip(pos + 1));
            pos += 1;
        } else {
            let e = word_end(s, pos);
            let word = slice_of(s, pos, e);
            let ghost before = texts(out@);
            let ghost text = word@;
            out.push(word);
            proof {
                lemma_word_len_bounds(rest);
                assert(texts(out@) =~= before + seq![text]);
                assert(rest.take(e - pos) =~= text);
                assert(rest.skip(e - pos) =~= s@.skip(e as int));
                assert(before + (seq![text] + words(s@.skip(e as int))) =~= (before + seq![text])
                    + words(s@.skip(e as int)));
            }
            pos = e;
        }
    }
    assert(texts(out@) + words(s@.skip(pos as int)) =~= texts(out@));
    out
}

} // verus!
