//! Character sequences: how a text is cut at a separator, trimmed and
//! searched, and the executable helpers that read and build strings.

use vstd::prelude::*;

verus! {

/// The white space that is trimmed from a line: the characters with the
/// Unicode property `White_Space`.
pub open spec fn is_whitespace(c: char) -> bool {
    let n = c as u32;
    ||| 0x09 <= n <= 0x0d
    ||| n == 0x20
    ||| n == 0x85
    ||| n == 0xa0
    ||| n == 0x1680
    ||| 0x2000 <= n <= 0x200a
    ||| n == 0x2028
    ||| n == 0x2029
    ||| n == 0x202f
    ||| n == 0x205f
    ||| n == 0x3000
}

/// The index of the first `c` in `s`, or the length of `s` where there is none.
pub open spec fn index_of(s: Seq<char>, c: char) -> int
    decreases s.len(),
{
    if s.len() == 0 || s[0] == c {
        0
    } else {
        1 + index_of(s.skip(1), c)
    }
}

/// The index of the last `c` in `s`, or -1 where there is none.
pub open spec fn last_index_of(s: Seq<char>, c: char) -> int
    decreases s.len(),
{
    if s.len() == 0 {
        -1
    } else if s.last() == c {
        s.len() - 1
    } else {
        last_index_of(s.drop_last(), c)
    }
}

/// `s` without the white space at its start.
pub open spec fn trim_start(s: Seq<char>) -> Seq<char>
    decreases s.len(),
{
    if s.len() > 0 && is_whitespace(s[0]) {
        trim_start(s.skip(1))
    } else {
        s
    }
}

/// `s` without the white space at its end.
pub open spec fn trim_end(s: Seq<char>) -> Seq<char>
    decreases s.len(),
{
    if s.len() > 0 && is_whitespace(s.last()) {
        trim_end(s.drop_last())
    } else {
        s
    }
}

/// `s` without the white space that surrounds it.
pub open spec fn trim(s: Seq<char>) -> Seq<char> {
    trim_end(trim_start(s))
}

/// The pieces of `s` between the occurrences of `sep`: the text before the
/// first separator, then the pieces of what follows it. A text of `n`
/// separators has `n + 1` pieces, some of which may be empty.
pub open spec fn split(s: Seq<char>, sep: char) -> Seq<Seq<char>>
    decreases s.len(),
{
    let k = index_of(s, sep);
    if 0 <= k < s.len() {
        seq![s.take(k)] + split(s.skip(k + 1), sep)
    } else {
        seq![s]
    }
}

/// The pieces put together again, with `sep` between each two.
pub open spec fn join(pieces: Seq<Seq<char>>, sep: char) -> Seq<char>
    decreases pieces.len(),
{
    if pieces.len() == 0 {
        Seq::<char>::empty()
    } else if pieces.len() == 1 {
        pieces[0]
    } else {
        pieces[0] + seq![sep] + join(pieces.skip(1), sep)
    }
}

/// `s` with each `from` turned into `to`.
pub open spec fn replace(s: Seq<char>, from: char, to: char) -> Seq<char> {
    Seq::new(s.len(), |i: int| if s[i] == from { to } else { s[i] })
}

/// Whether `needle` stands in `hay` at index `i`.
pub open spec fn occurs_at(hay: Seq<char>, needle: Seq<char>, i: int) -> bool {
    &&& 0 <= i
    &&& i + needle.len() <= hay.len()
    &&& hay.subrange(i, i + needle.len()) == needle
}

/// Whether `needle` stands somewhere in `hay`.
pub open spec fn contains(hay: Seq<char>, needle: Seq<char>) -> bool {
    exists|i: int| occurs_at(hay, needle, i)
}

/// What `index_of` finds: nothing before it is `c`, and where it lies inside
/// `s` it is a `c`.
pub proof fn lemma_index_of(s: Seq<char>, c: char)
    ensures
        0 <= index_of(s, c) <= s.len(),
        forall|j: int| 0 <= j < index_of(s, c) ==> s[j] != c,
        index_of(s, c) < s.len() ==> s[index_of(s, c)] == c,
    decreases s.len(),
{
    if s.len() == 0 || s[0] == c {
    } else {
        let t = s.skip(1);
        lemma_index_of(t, c);
        assert forall|j: int| 0 <= j < index_of(s, c) implies s[j] != c by {
            if j > 0 {
                assert(t[j - 1] == s[j]);
            }
        }
    }
}

/// An index `k` before which nothing is `c`, and which is the end of `s` or
/// holds a `c`, is what `index_of` finds.
pub proof fn lemma_index_of_is(s: Seq<char>, c: char, k: int)
    requires
        0 <= k <= s.len(),
        forall|j: int| 0 <= j < k ==> s[j] != c,
        k < s.len() ==> s[k] == c,
    ensures
        index_of(s, c) == k,
    decreases s.len(),
{
    if s.len() == 0 || s[0] == c {
    } else {
        let t = s.skip(1);
        assert forall|j: int| 0 <= j < k - 1 implies t[j] != c by {
            assert(t[j] == s[j + 1]);
        }
        lemma_index_of_is(t, c, k - 1);
    }
}

/// What `last_index_of` finds: nothing after it is `c`, and where it is not
/// -1 it is a `c`.
pub proof fn lemma_last_index_of(s: Seq<char>, c: char)
    ensures
        -1 <= last_index_of(s, c) < s.len(),
        forall|j: int| last_index_of(s, c) < j < s.len() ==> s[j] != c,
        last_index_of(s, c) >= 0 ==> s[last_index_of(s, c)] == c,
    decreases s.len(),
{
    if s.len() == 0 || s.last() == c {
    } else {
        let t = s.drop_last();
        lemma_last_index_of(t, c);
        assert forall|j: int| last_index_of(s, c) < j < s.len() implies s[j] != c by {
            if j < t.len() {
                assert(t[j] == s[j]);
            }
        }
    }
}

/// A trimmed text is a stretch of the text it was made from, and neither
/// starts nor ends with white space.
pub proof fn lemma_trim(s: Seq<char>)
    ensures
        exists|a: int, b: int| 0 <= a <= b <= s.len() && trim(s) == #[trigger] s.subrange(a, b),
        trim(s).len() > 0 ==> !is_whitespace(trim(s)[0]) && !is_whitespace(trim(s).last()),
{
    lemma_trim_start(s);
    let t = trim_start(s);
    lemma_trim_end(t);
    let a = s.len() - t.len();
    let b = a + trim_end(t).len();
    assert(trim(s) =~= s.subrange(a, b));
    if trim(s).len() > 0 {
        assert(trim(s)[0] == t[0]);
    }
}

/// `trim_start` keeps the end of the text, and what it keeps does not start
/// with white space.
pub proof fn lemma_trim_start(s: Seq<char>)
    ensures
        trim_start(s).len() <= s.len(),
        trim_start(s) == s.skip(s.len() - trim_start(s).len()),
        trim_start(s).len() > 0 ==> !is_whitespace(trim_start(s)[0]),
        forall|j: int| 0 <= j < s.len() - trim_start(s).len() ==> is_whitespace(s[j]),
    decreases s.len(),
{
    if s.len() > 0 && is_whitespace(s[0]) {
        let t = s.skip(1);
        lemma_trim_start(t);
        assert(trim_start(s) =~= s.skip(s.len() - trim_start(s).len()));
        assert forall|j: int| 0 <= j < s.len() - trim_start(s).len() implies is_whitespace(
            s[j],
        ) by {
            if j > 0 {
                assert(t[j - 1] == s[j]);
            }
        }
    } else {
        assert(s =~= s.skip(0));
    }
}

/// `trim_end` keeps the start of the text, and what it keeps does not end
/// with white space.
pub proof fn lemma_trim_end(s: Seq<char>)
    ensures
        trim_end(s).len() <= s.len(),
        trim_end(s) == s.take(trim_end(s).len() as int),
        trim_end(s).len() > 0 ==> !is_whitespace(trim_end(s).last()),
        forall|j: int| trim_end(s).len() <= j < s.len() ==> is_whitespace(s[j]),
    decreases s.len(),
{
    if s.len() > 0 && is_whitespace(s.last()) {
        let t = s.drop_last();
        lemma_trim_end(t);
        assert(trim_end(s) =~= s.take(trim_end(s).len() as int));
        assert forall|j: int| trim_end(s).len() <= j < s.len() implies is_whitespace(s[j]) by {
            if j < t.len() {
                assert(t[j] == s[j]);
            }
        }
    } else {
        assert(s =~= s.take(s.len() as int));
    }
}

/// A text that neither starts nor ends with white space is its own trim.
pub proof fn lemma_trim_fixed(s: Seq<char>)
    requires
        s.len() > 0 ==> !is_whitespace(s[0]) && !is_whitespace(s.last()),
    ensures
        trim(s) == s,
{
}

/// No piece of a split text holds the separator.
pub proof fn lemma_split_pieces(s: Seq<char>, sep: char)
    ensures
        split(s, sep).len() >= 1,
        forall|i: int, j: int|
            0 <= i < split(s, sep).len() && 0 <= j < split(s, sep)[i].len() ==> split(
                s,
                sep,
            )[i][j] != sep,
    decreases s.len(),
{
    lemma_index_of(s, sep);
    let k = index_of(s, sep);
    if k < s.len() {
        let rest = s.skip(k + 1);
        lemma_split_pieces(rest, sep);
        assert forall|i: int, j: int|
            0 <= i < split(s, sep).len() && 0 <= j < split(s, sep)[i].len() implies split(
            s,
            sep,
        )[i][j] != sep by {
            if i == 0 {
                assert(split(s, sep)[0] == s.take(k));
            } else {
                assert(split(s, sep)[i] == split(rest, sep)[i - 1]);
            }
        }
    }
}

/// Joining the pieces of a split text gives the text back.
pub proof fn lemma_join_split(s: Seq<char>, sep: char)
    ensures
        join(split(s, sep), sep) == s,
    decreases s.len(),
{
    lemma_index_of(s, sep);
    let k = index_of(s, sep);
    if k < s.len() {
        let rest = s.skip(k + 1);
        lemma_join_split(rest, sep);
        lemma_split_pieces(rest, sep);
        let pieces = split(s, sep);
        assert(pieces.skip(1) =~= split(rest, sep));
        assert(pieces[0] == s.take(k));
        assert(s =~= s.take(k) + seq![sep] + rest);
    }
}

/// A text that starts with a piece free of the separator, then the separator,
/// splits into that piece and the pieces of the rest.
pub proof fn lemma_split_first(piece: Seq<char>, sep: char, rest: Seq<char>)
    requires
        forall|j: int| 0 <= j < piece.len() ==> piece[j] != sep,
    ensures
        split(piece + seq![sep] + rest, sep) == seq![piece] + split(rest, sep),
{
    let s = piece + seq![sep] + rest;
    lemma_index_of_is(s, sep, piece.len() as int);
    assert(s.take(piece.len() as int) =~= piece);
    assert(s.skip(piece.len() as int + 1) =~= rest);
}

/// Turning each `from` into `to` is cutting the text at every `from` and
/// joining the pieces with `to`.
pub proof fn lemma_replace_joins(s: Seq<char>, from: char, to: char)
    ensures
        replace(s, from, to) == join(split(s, from), to),
    decreases s.len(),
{
    lemma_index_of(s, from);
    let k = index_of(s, from);
    if k < s.len() {
        let rest = s.skip(k + 1);
        lemma_replace_joins(rest, from, to);
        lemma_split_pieces(rest, from);
        let pieces = split(s, from);
        assert(pieces.skip(1) =~= split(rest, from));
        assert(pieces[0] == s.take(k));
        assert(replace(s, from, to) =~= s.take(k) + seq![to] + replace(rest, from, to));
    } else {
        assert(replace(s, from, to) =~= s);
    }
}

/// Whether `c` is white space.
pub fn is_space(c: char) -> (b: bool)
    ensures
        b == is_whitespace(c),
{
    let n: u32 = c as u32;
    (0x09 <= n && n <= 0x0d) || n == 0x20 || n == 0x85 || n == 0xa0 || n == 0x1680 || (0x2000 <= n
        && n <= 0x200a) || n == 0x2028 || n == 0x2029 || n == 0x202f || n == 0x205f || n == 0x3000
}

/// Taken on trust from the standard library, not proved here:
/// `String::push` puts the character `c` at the end of the string and
/// leaves what stood before it as it was.
pub assume_specification[ String::push ](s: &mut String, c: char)
    ensures
        final(s)@ == old(s)@.push(c),
;

/// The characters of `s`, in order.
pub fn chars_of(s: &str) -> (v: Vec<char>)
    ensures
        v@ == s@,
{
    let mut v: Vec<char> = Vec::new();
    for c in it: s.chars()
        invariant
            it.seq() == s@,
            v@ == it.seq().take(it.index() as int),
    {
        v.push(c);
    }
    v
}

/// The string made of `v[from..to]`.
pub fn string_of(v: &Vec<char>, from: usize, to: usize) -> (s: String)
    requires
        from <= to <= v.len(),
    ensures
        s@ == v@.subrange(from as int, to as int),
{
    let mut s = String::new();
    let mut i: usize = from;
    while i < to
        invariant
            from <= i <= to <= v.len(),
            s@ == v@.subrange(from as int, i as int),
        decreases to - i,
    {
        s.push(v[i]);
        i += 1;
    }
    s
}

/// The string made of `v[from..to]` with each `c` turned into `by`.
pub fn replaced_string_of(v: &Vec<char>, from: usize, to: usize, c: char, by: char) -> (s: String)
    requires
        from <= to <= v.len(),
    ensures
        s@ == replace(v@.subrange(from as int, to as int), c, by),
{
    let mut s = String::new();
    let mut i: usize = from;
    while i < to
        invariant
            from <= i <= to <= v.len(),
            s@ == replace(v@.subrange(from as int, i as int), c, by),
        decreases to - i,
    {
        let x = v[i];
        if x == c {
            s.push(by);
        } else {
            s.push(x);
        }
        i += 1;
    }
    s
}

/// The index in `v[lo..hi]` of the first `c`, counted from the start of `v`,
/// or `hi` where there is none.
pub fn find(v: &Vec<char>, lo: usize, hi: usize, c: char) -> (k: usize)
    requires
        lo <= hi <= v.len(),
    ensures
        lo <= k <= hi,
        k - lo == index_of(v@.subrange(lo as int, hi as int), c),
{
    let mut k: usize = lo;
    while k < hi && v[k] != c
        invariant
            lo <= k <= hi <= v.len(),
            forall|j: int| lo <= j < k ==> v@[j] != c,
        decreases hi - k,
    {
        k += 1;
    }
    proof {
        let s = v@.subrange(lo as int, hi as int);
        assert forall|j: int| 0 <= j < k - lo implies s[j] != c by {
            assert(s[j] == v@[lo + j]);
        }
        lemma_index_of_is(s, c, k - lo);
    }
    k
}

/// The index in `v` of the last `c`, or `None` where there is none.
pub fn find_last(v: &Vec<char>, c: char) -> (r: Option<usize>)
    ensures
        match r {
            Some(k) => k < v.len() && k == last_index_of(v@, c),
            None => last_index_of(v@, c) == -1,
        },
{
    let mut k: usize = v.len();
    proof {
        assert(v@.take(v.len() as int) =~= v@);
    }
    while k > 0 && v[k - 1] != c
        invariant
            k <= v.len(),
            last_index_of(v@, c) == last_index_of(v@.take(k as int), c),
        decreases k,
    {
        proof {
            assert(v@.take(k as int).drop_last() =~= v@.take(k - 1));
        }
        k -= 1;
    }
    if k == 0 {
        None
    } else {
        Some(k - 1)
    }
}

/// The bounds of `v[lo..hi]` without the white space that surrounds it.
pub fn trim_bounds(v: &Vec<char>, lo: usize, hi: usize) -> (r: (usize, usize))
    requires
        lo <= hi <= v.len(),
    ensures
        lo <= r.0 <= r.1 <= hi,
        v@.subrange(r.0 as int, r.1 as int) == trim(v@.subrange(lo as int, hi as int)),
{
    let mut a: usize = lo;
    while a < hi && is_space(v[a])
        invariant
            lo <= a <= hi <= v.len(),
            trim_start(v@.subrange(lo as int, hi as int)) == trim_start(
                v@.subrange(a as int, hi as int),
            ),
        decreases hi - a,
    {
        proof {
            assert(v@.subrange(a as int, hi as int).skip(1) =~= v@.subrange(a + 1, hi as int));
        }
        a += 1;
    }
    let mut b: usize = hi;
    while b > a && is_space(v[b - 1])
        invariant
            a <= b <= hi <= v.len(),
            trim_end(v@.subrange(a as int, hi as int)) == trim_end(v@.subrange(a as int, b as int)),
        decreases b,
    {
        proof {
            assert(v@.subrange(a as int, b as int).drop_last() =~= v@.subrange(a as int, b - 1));
        }
        b -= 1;
    }
    (a, b)
}

/// Whether `needle` stands somewhere in `hay`.
pub fn occurs(hay: &Vec<char>, needle: &Vec<char>) -> (b: bool)
    ensures
        b == contains(hay@, needle@),
{
    let n = needle.len();
    if n > hay.len() {
        return false;
    }
    let last: usize = hay.len() - n;
    let mut i: usize = 0;
    while i <= last
        invariant
            n == needle.len(),
            n <= hay.len(),
            last == hay.len() - n,
            i <= last + 1,
            forall|k: int| 0 <= k < i ==> !occurs_at(hay@, needle@, k),
        decreases last + 1 - i,
    {
        let mut j: usize = 0;
        while j < n && hay[i + j] == needle[j]
            invariant
                n == needle.len(),
                i + n <= hay.len(),
                j <= n,
                forall|k: int| 0 <= k < j ==> hay@[i + k] == needle@[k],
            decreases n - j,
        {
            j += 1;
        }
        if j == n {
            proof {
                assert(hay@.subrange(i as int, i + n) =~= needle@);
                assert(occurs_at(hay@, needle@, i as int));
            }
            return true;
        }
        proof {
            let w = hay@.subrange(i as int, i + n);
            assert(w[j as int] != needle@[j as int]);
        }
        i += 1;
    }
    false
}

} // verus!
