//! Text primitives over sequences of characters: whitespace, trimming,
//! splitting, substring search and the conversions between `str` and `Vec<char>`.

use vstd::prelude::*;
use vstd::string::*;

verus! {

/// Every character is a code point of at most `0x10FFFF`.
pub proof fn lemma_char_bounds(c: char)
    ensures
        0 <= c as int <= 0x10FFFF,
{
}

/// The characters that Unicode gives the property `White_Space`.
pub open spec fn is_space(c: char) -> bool {
    ||| '\u{9}' <= c && c <= '\u{d}'
    ||| c == ' '
    ||| c == '\u{85}'
    ||| c == '\u{a0}'
    ||| c == '\u{1680}'
    ||| '\u{2000}' <= c && c <= '\u{200a}'
    ||| c == '\u{2028}'
    ||| c == '\u{2029}'
    ||| c == '\u{202f}'
    ||| c == '\u{205f}'
    ||| c == '\u{3000}'
}

/// Whether `c` is a whitespace character.
pub fn is_whitespace(c: char) -> (r: bool)
    ensures
        r == is_space(c),
{
    ('\u{9}' <= c && c <= '\u{d}') || c == ' ' || c == '\u{85}' || c == '\u{a0}' || c
        == '\u{1680}' || ('\u{2000}' <= c && c <= '\u{200a}') || c == '\u{2028}' || c
        == '\u{2029}' || c == '\u{202f}' || c == '\u{205f}' || c == '\u{3000}'
}

/// `s` without its leading whitespace.
pub open spec fn trim_start(s: Seq<char>) -> Seq<char>
    decreases s.len(),
{
    if s.len() > 0 && is_space(s[0]) {
        trim_start(s.drop_first())
    } else {
        s
    }
}

/// `s` without its trailing whitespace.
pub open spec fn trim_end(s: Seq<char>) -> Seq<char>
    decreases s.len(),
{
    if s.len() > 0 && is_space(s.last()) {
        trim_end(s.drop_last())
    } else {
        s
    }
}

/// `s` without the whitespace that surrounds it.
pub open spec fn trim(s: Seq<char>) -> Seq<char> {
    trim_end(trim_start(s))
}

/// Whether `s` holds nothing but whitespace.
pub open spec fn is_blank(s: Seq<char>) -> bool {
    forall|i: int| 0 <= i < s.len() ==> is_space(#[trigger] s[i])
}

/// The characters of `s`, in order.
pub fn to_chars(s: &str) -> (v: Vec<char>)
    ensures
        v@ == s@,
{
    let mut v: Vec<char> = Vec::new();
    for c in it: s.chars()
        invariant
            v@ == it.seq().take(it.index() as int),
            it.seq() == s@,
    {
        v.push(c);
    }
    v
}

/// Appends one character to a string.
///
/// Trusted: `String::push` of the standard library, which is documented to
/// append the given character to the end of the string.
#[verifier::external_body]
pub(crate) fn push_char(s: &mut String, c: char)
    ensures
        final(s)@ == old(s)@.push(c),
{
    s.push(c);
}

/// The string made of the characters `v[from..to]`.
pub fn string_of_range(v: &Vec<char>, from: usize, to: usize) -> (s: String)
    requires
        from <= to <= v@.len(),
    ensures
        s@ == v@.subrange(from as int, to as int),
{
    let mut s: String = String::new();
    let mut i: usize = from;
    while i < to
        invariant
            from <= i <= to,
            to <= v@.len(),
            s@ == v@.subrange(from as int, i as int),
        decreases to - i,
    {
        push_char(&mut s, v[i]);
        i += 1;
        assert(s@ == v@.subrange(from as int, i as int));
    }
    s
}

/// The string made of the characters of `v`.
pub fn string_of(v: &Vec<char>) -> (s: String)
    ensures
        s@ == v@,
{
    let s = string_of_range(v, 0, v.len());
    assert(v@.subrange(0, v@.len() as int) == v@);
    s
}

/// Trimming leaves a subrange: what `trim_start` keeps is a suffix.
proof fn lemma_trim_start_suffix(s: Seq<char>)
    ensures
        trim_start(s).len() <= s.len(),
        trim_start(s) == s.subrange(s.len() - trim_start(s).len(), s.len() as int),
        forall|i: int| 0 <= i < s.len() - trim_start(s).len() ==> is_space(#[trigger] s[i]),
        trim_start(s).len() > 0 ==> !is_space(trim_start(s)[0]),
    decreases s.len(),
{
    if s.len() > 0 && is_space(s[0]) {
        let t = s.drop_first();
        lemma_trim_start_suffix(t);
        let k = s.len() - trim_start(s).len();
        assert(trim_start(s) =~= s.subrange(k, s.len() as int));
        assert forall|i: int| 0 <= i < k implies is_space(#[trigger] s[i]) by {
            if i > 0 {
                assert(s[i] == t[i - 1]);
            }
        }
    } else {
        assert(s =~= s.subrange(0, s.len() as int));
    }
}

/// What `trim_end` keeps is a prefix.
proof fn lemma_trim_end_prefix(s: Seq<char>)
    ensures
        trim_end(s).len() <= s.len(),
        trim_end(s) == s.subrange(0, trim_end(s).len() as int),
        forall|i: int| trim_end(s).len() <= i < s.len() ==> is_space(#[trigger] s[i]),
        trim_end(s).len() > 0 ==> !is_space(trim_end(s).last()),
    decreases s.len(),
{
    if s.len() > 0 && is_space(s.last()) {
        let t = s.drop_last();
        lemma_trim_end_prefix(t);
        assert(trim_end(s) =~= s.subrange(0, trim_end(s).len() as int));
        assert forall|i: int| trim_end(s).len() <= i < s.len() implies is_space(
            #[trigger] s[i],
        ) by {
            if i < s.len() - 1 {
                assert(s[i] == t[i]);
            }
        }
    } else {
        assert(s =~= s.subrange(0, s.len() as int));
    }
}

/// A text trims to nothing exactly when it is blank.
pub proof fn lemma_trim_empty_iff_blank(s: Seq<char>)
    ensures
        trim(s).len() == 0 <==> is_blank(s),
{
    lemma_trim_start_suffix(s);
    lemma_trim_end_prefix(trim_start(s));
    let t = trim_start(s);
    let k = s.len() - t.len();
    if trim(s).len() == 0 {
        assert(t.len() == 0) by {
            if t.len() > 0 {
                assert(is_space(t[0]));
            }
        }
    }
    if is_blank(s) {
        if t.len() > 0 {
            assert(t[0] == s[k]);
        }
    }
}

/// The bounds of `trim(v)` inside `v`.
pub fn trim_range(v: &Vec<char>) -> (r: (usize, usize))
    ensures
        r.0 <= r.1 <= v@.len(),
        v@.subrange(r.0 as int, r.1 as int) == trim(v@),
{
    let n: usize = v.len();
    let mut a: usize = 0;
    proof {
        assert(v@.subrange(0, n as int) =~= v@);
    }
    while a < n && is_whitespace(v[a])
        invariant
            a <= n,
            n == v@.len(),
            trim_start(v@) == trim_start(v@.subrange(a as int, n as int)),
        decreases n - a,
    {
        proof {
            let cur = v@.subrange(a as int, n as int);
            assert(cur.drop_first() =~= v@.subrange(a + 1, n as int));
        }
        a += 1;
    }
    assert(trim_start(v@) == v@.subrange(a as int, n as int));
    let mut b: usize = n;
    while b > a && is_whitespace(v[b - 1])
        invariant
            a <= b <= n,
            n == v@.len(),
            trim(v@) == trim_end(v@.subrange(a as int, b as int)),
        decreases b - a,
    {
        proof {
            let cur = v@.subrange(a as int, b as int);
            assert(cur.drop_last() =~= v@.subrange(a as int, b - 1));
        }
        b -= 1;
    }
    (a, b)
}

/// The pieces of `s` between the characters equal to `c1` or `c2`. A text with
/// `n` separators has `n + 1` pieces; a piece may be empty.
pub open spec fn split_by(s: Seq<char>, c1: char, c2: char) -> Seq<Seq<char>>
    decreases s.len(),
{
    if s.len() == 0 {
        seq![Seq::<char>::empty()]
    } else {
        let head = split_by(s.drop_last(), c1, c2);
        let c = s.last();
        if c == c1 || c == c2 {
            head.push(Seq::<char>::empty())
        } else {
            head.drop_last().push(head.last().push(c))
        }
    }
}

/// The pieces of `s` between the occurrences of `c`.
pub open spec fn split_on(s: Seq<char>, c: char) -> Seq<Seq<char>> {
    split_by(s, c, c)
}

/// A split always yields at least one piece.
pub proof fn lemma_split_nonempty(s: Seq<char>, c1: char, c2: char)
    ensures
        split_by(s, c1, c2).len() >= 1,
        split_by(s, c1, c2).len() <= s.len() + 1,
    decreases s.len(),
{
    if s.len() > 0 {
        lemma_split_nonempty(s.drop_last(), c1, c2);
    }
}

/// Whether `s` holds neither `c1` nor `c2`.
pub open spec fn free_of(s: Seq<char>, c1: char, c2: char) -> bool {
    forall|i: int| 0 <= i < s.len() ==> #[trigger] s[i] != c1 && s[i] != c2
}

/// A text without separators is its own single piece.
pub proof fn lemma_split_whole(s: Seq<char>, c1: char, c2: char)
    requires
        free_of(s, c1, c2),
    ensures
        split_by(s, c1, c2) == seq![s],
    decreases s.len(),
{
    if s.len() == 0 {
        assert(s =~= Seq::<char>::empty());
    } else {
        let t = s.drop_last();
        assert forall|i: int| 0 <= i < t.len() implies #[trigger] t[i] != c1 && t[i] != c2 by {
            assert(t[i] == s[i]);
        }
        lemma_split_whole(t, c1, c2);
        let c = s[s.len() - 1];
        assert(c != c1 && c != c2);
        assert(t.push(c) =~= s);
        let head = seq![t];
        assert(head.last() == t);
        assert(head.drop_last() =~= Seq::<Seq<char>>::empty());
        assert(head.drop_last().push(head.last().push(c)) =~= seq![s]);
    }
}

/// The pieces of two texts put together: the last piece of the first text
/// and the first piece of the second become one piece.
pub proof fn lemma_split_concat(a: Seq<char>, b: Seq<char>, c1: char, c2: char)
    ensures
        split_by(a + b, c1, c2) == split_by(a, c1, c2).drop_last().push(
            split_by(a, c1, c2).last() + split_by(b, c1, c2)[0],
        ) + split_by(b, c1, c2).drop_first(),
    decreases b.len(),
{
    let pa = split_by(a, c1, c2);
    let pb = split_by(b, c1, c2);
    lemma_split_nonempty(a, c1, c2);
    lemma_split_nonempty(b, c1, c2);
    if b.len() == 0 {
        assert(a + b =~= a);
        assert(pa.last() + pb[0] =~= pa.last());
        assert(pa.drop_last().push(pa.last()) + pb.drop_first() =~= pa);
    } else {
        let b0 = b.drop_last();
        let pb0 = split_by(b0, c1, c2);
        lemma_split_concat(a, b0, c1, c2);
        lemma_split_nonempty(b0, c1, c2);
        assert((a + b).drop_last() =~= a + b0);
        assert((a + b).last() == b.last());
        let c = b.last();
        let whole0 = split_by(a + b0, c1, c2);
        if c == c1 || c == c2 {
            assert(pb == pb0.push(Seq::<char>::empty()));
            assert(pb.drop_first() =~= pb0.drop_first().push(Seq::<char>::empty()));
            assert(pb[0] == pb0[0]);
            assert(split_by(a + b, c1, c2) =~= pa.drop_last().push(pa.last() + pb[0])
                + pb.drop_first());
        } else {
            assert(pb == pb0.drop_last().push(pb0.last().push(c)));
            if pb0.len() == 1 {
                assert(pb0.drop_first() =~= Seq::<Seq<char>>::empty());
                assert(pb.drop_first() =~= Seq::<Seq<char>>::empty());
                assert(pb[0] == pb0[0].push(c));
                assert((pa.last() + pb0[0]).push(c) =~= pa.last() + pb[0]);
                assert(whole0.last() == pa.last() + pb0[0]);
                assert(whole0.drop_last() =~= pa.drop_last());
                assert(split_by(a + b, c1, c2) =~= pa.drop_last().push(pa.last() + pb[0])
                    + pb.drop_first());
            } else {
                assert(pb[0] == pb0[0]);
                assert(whole0.last() == pb0.last());
                assert(pb.drop_first() =~= pb0.drop_first().drop_last().push(pb0.last().push(c)));
                assert(whole0.drop_last() =~= pa.drop_last().push(pa.last() + pb0[0])
                    + pb0.drop_first().drop_last());
                assert(split_by(a + b, c1, c2) =~= pa.drop_last().push(pa.last() + pb[0])
                    + pb.drop_first());
            }
        }
    }
}

/// The pieces of two texts joined by a separator are the pieces of the
/// first followed by the pieces of the second.
pub proof fn lemma_split_join(a: Seq<char>, sep: char, b: Seq<char>, c1: char, c2: char)
    requires
        sep == c1 || sep == c2,
    ensures
        split_by(a + seq![sep] + b, c1, c2) == split_by(a, c1, c2) + split_by(b, c1, c2),
{
    let a1 = a + seq![sep];
    let pa = split_by(a, c1, c2);
    let pb = split_by(b, c1, c2);
    lemma_split_nonempty(a, c1, c2);
    lemma_split_nonempty(b, c1, c2);
    assert(a1.drop_last() =~= a);
    assert(a1.last() == sep);
    assert(split_by(a1, c1, c2) == pa.push(Seq::<char>::empty()));
    lemma_split_concat(a1, b, c1, c2);
    assert(pa.push(Seq::<char>::empty()).drop_last() =~= pa);
    assert(Seq::<char>::empty() + pb[0] =~= pb[0]);
    assert(pa.push(pb[0]) + pb.drop_first() =~= pa + pb);
}

/// No piece of a split holds a separator.
pub proof fn lemma_pieces_free(s: Seq<char>, c1: char, c2: char)
    ensures
        forall|k: int|
            0 <= k < split_by(s, c1, c2).len() ==> free_of(
                #[trigger] split_by(s, c1, c2)[k],
                c1,
                c2,
            ),
    decreases s.len(),
{
    let pieces = split_by(s, c1, c2);
    if s.len() > 0 {
        let head = split_by(s.drop_last(), c1, c2);
        lemma_pieces_free(s.drop_last(), c1, c2);
        lemma_split_nonempty(s.drop_last(), c1, c2);
        let c = s.last();
        assert forall|k: int| 0 <= k < pieces.len() implies free_of(
            #[trigger] pieces[k],
            c1,
            c2,
        ) by {
            if k < head.len() - 1 {
                assert(pieces[k] == head[k]);
            } else if c == c1 || c == c2 {
                if k == head.len() - 1 {
                    assert(pieces[k] == head[k]);
                }
            } else {
                assert(free_of(head[head.len() - 1], c1, c2));
                assert(pieces[k] == head.last().push(c));
            }
        }
    }
}

/// A piece of a text holds nothing that the text does not hold.
pub proof fn lemma_pieces_keep_out(s: Seq<char>, c1: char, c2: char, a: char, b: char)
    requires
        free_of(s, a, b),
    ensures
        forall|k: int|
            0 <= k < split_by(s, c1, c2).len() ==> free_of(#[trigger] split_by(s, c1, c2)[k], a, b),
    decreases s.len(),
{
    let pieces = split_by(s, c1, c2);
    if s.len() > 0 {
        let rest = s.drop_last();
        let head = split_by(rest, c1, c2);
        assert forall|i: int| 0 <= i < rest.len() implies #[trigger] rest[i] != a && rest[i]
            != b by {
            assert(rest[i] == s[i]);
        }
        lemma_pieces_keep_out(rest, c1, c2, a, b);
        lemma_split_nonempty(rest, c1, c2);
        let c = s.last();
        assert(c == s[s.len() - 1]);
        assert forall|k: int| 0 <= k < pieces.len() implies free_of(#[trigger] pieces[k], a, b) by {
            if k < head.len() - 1 {
                assert(pieces[k] == head[k]);
            } else if c == c1 || c == c2 {
                if k == head.len() - 1 {
                    assert(pieces[k] == head[k]);
                }
            } else {
                assert(free_of(head[head.len() - 1], a, b));
                assert(pieces[k] == head.last().push(c));
            }
        }
    }
}

/// The pieces put together again, with `sep` between neighbours.
pub open spec fn join(pieces: Seq<Seq<char>>, sep: char) -> Seq<char>
    decreases pieces.len(),
{
    if pieces.len() == 0 {
        Seq::<char>::empty()
    } else if pieces.len() == 1 {
        pieces[0]
    } else {
        join(pieces.drop_last(), sep) + seq![sep] + pieces.last()
    }
}

/// Splitting undoes joining: pieces that hold no separator come back from
/// their joined form.
pub proof fn lemma_split_of_join(pieces: Seq<Seq<char>>, sep: char)
    requires
        pieces.len() >= 1,
        forall|i: int| 0 <= i < pieces.len() ==> free_of(#[trigger] pieces[i], sep, sep),
    ensures
        split_on(join(pieces, sep), sep) == pieces,
    decreases pieces.len(),
{
    if pieces.len() == 1 {
        lemma_split_whole(pieces[0], sep, sep);
        assert(seq![pieces[0]] =~= pieces);
    } else {
        let head = pieces.drop_last();
        assert forall|i: int| 0 <= i < head.len() implies free_of(#[trigger] head[i], sep, sep) by {
            assert(head[i] == pieces[i]);
        }
        lemma_split_of_join(head, sep);
        lemma_split_whole(pieces.last(), sep, sep);
        lemma_split_join(join(head, sep), sep, pieces.last(), sep, sep);
        assert(head + seq![pieces.last()] =~= pieces);
    }
}

/// The first piece of a text is what stands before its first separator.
pub proof fn lemma_split_first_piece(s: Seq<char>, c1: char, c2: char, k: int)
    requires
        0 <= k <= s.len(),
        free_of(s.take(k), c1, c2),
        k < s.len() ==> s[k] == c1 || s[k] == c2,
    ensures
        split_by(s, c1, c2)[0] == s.take(k),
{
    lemma_split_whole(s.take(k), c1, c2);
    if k == s.len() {
        assert(s.take(k) =~= s);
    } else {
        let rest = s.skip(k + 1);
        lemma_split_join(s.take(k), s[k], rest, c1, c2);
        assert(s.take(k) + seq![s[k]] + rest =~= s);
        lemma_split_nonempty(rest, c1, c2);
    }
}

/// Unfolds `join` on two pieces or more.
pub proof fn lemma_join_step(pieces: Seq<Seq<char>>, sep: char)
    requires
        pieces.len() >= 2,
    ensures
        join(pieces, sep) == join(pieces.drop_last(), sep) + seq![sep] + pieces.last(),
{
}

/// One more piece joined.
pub proof fn lemma_join_next(pieces: Seq<Seq<char>>, sep: char, k: int)
    requires
        1 <= k < pieces.len(),
    ensures
        join(pieces.take(k + 1), sep) == join(pieces.take(k), sep) + seq![sep] + pieces[k],
{
    assert(pieces.take(k + 1).drop_last() =~= pieces.take(k));
    lemma_join_step(pieces.take(k + 1), sep);
}

/// Joining keeps out what neither the pieces nor the separator hold.
pub proof fn lemma_join_free(pieces: Seq<Seq<char>>, sep: char, c1: char, c2: char)
    requires
        sep != c1 && sep != c2,
        forall|i: int| 0 <= i < pieces.len() ==> free_of(#[trigger] pieces[i], c1, c2),
    ensures
        free_of(join(pieces, sep), c1, c2),
    decreases pieces.len(),
{
    if pieces.len() == 1 {
        assert(free_of(pieces[0], c1, c2));
    } else if pieces.len() >= 2 {
        let head = pieces.drop_last();
        assert forall|i: int| 0 <= i < head.len() implies free_of(#[trigger] head[i], c1, c2) by {
            assert(head[i] == pieces[i]);
        }
        lemma_join_free(head, sep, c1, c2);
        let j = join(head, sep);
        let last = pieces.last();
        assert(free_of(last, c1, c2));
        let whole = j + seq![sep] + last;
        assert forall|i: int| 0 <= i < whole.len() implies #[trigger] whole[i] != c1 && whole[i]
            != c2 by {
            if i < j.len() {
                assert(whole[i] == j[i]);
            } else if i == j.len() {
                assert(whole[i] == sep);
            } else {
                assert(whole[i] == last[i - j.len() - 1]);
            }
        }
    }
}

/// The length of the longest prefix of `s` that holds neither `c1` nor `c2`.
pub open spec fn first_break(s: Seq<char>, c1: char, c2: char) -> int
    decreases s.len(),
{
    if s.len() == 0 || s[0] == c1 || s[0] == c2 {
        0
    } else {
        1 + first_break(s.drop_first(), c1, c2)
    }
}

/// What `first_break` finds.
pub proof fn lemma_first_break(s: Seq<char>, c1: char, c2: char)
    ensures
        0 <= first_break(s, c1, c2) <= s.len(),
        free_of(s.take(first_break(s, c1, c2)), c1, c2),
        first_break(s, c1, c2) < s.len() ==> s[first_break(s, c1, c2)] == c1 || s[first_break(
            s,
            c1,
            c2,
        )] == c2,
    decreases s.len(),
{
    if s.len() == 0 || s[0] == c1 || s[0] == c2 {
    } else {
        let rest = s.drop_first();
        lemma_first_break(rest, c1, c2);
        let k = first_break(rest, c1, c2);
        assert forall|i: int| 0 <= i < k + 1 implies #[trigger] s.take(k + 1)[i] != c1 && s.take(
            k + 1,
        )[i] != c2 by {
            if i > 0 {
                assert(s.take(k + 1)[i] == rest.take(k)[i - 1]);
            }
        }
        if k < rest.len() {
            assert(rest[k] == s[k + 1]);
        }
    }
}

/// The bounds, inside `v`, of the pieces of `v[from..to]` between the
/// characters equal to `c1` or `c2`.
pub fn split_ranges(v: &Vec<char>, from: usize, to: usize, c1: char, c2: char) -> (r: Vec<
    (usize, usize),
>)
    requires
        from <= to <= v@.len(),
    ensures
        r@.len() == split_by(v@.subrange(from as int, to as int), c1, c2).len(),
        forall|k: int|
            0 <= k < r@.len() ==> from <= (#[trigger] r@[k]).0 <= r@[k].1 <= to && v@.subrange(
                r@[k].0 as int,
                r@[k].1 as int,
            ) == split_by(v@.subrange(from as int, to as int), c1, c2)[k],
{
    let mut out: Vec<(usize, usize)> = Vec::new();
    let mut start: usize = from;
    let mut i: usize = from;
    proof {
        assert(v@.subrange(from as int, from as int) =~= Seq::<char>::empty());
    }
    while i < to
        invariant
            from <= start <= i <= to,
            to <= v@.len(),
            split_by(v@.subrange(from as int, i as int), c1, c2).len() == out@.len() + 1,
            split_by(v@.subrange(from as int, i as int), c1, c2).last() == v@.subrange(
                start as int,
                i as int,
            ),
            forall|k: int|
                0 <= k < out@.len() ==> from <= (#[trigger] out@[k]).0 <= out@[k].1 <= i
                    && v@.subrange(out@[k].0 as int, out@[k].1 as int) == split_by(
                    v@.subrange(from as int, i as int),
                    c1,
                    c2,
                )[k],
        decreases to - i,
    {
        let c: char = v[i];
        proof {
            let cur = v@.subrange(from as int, i as int);
            let next = v@.subrange(from as int, i + 1);
            assert(next.drop_last() =~= cur);
            assert(next.last() == c);
            if c == c1 || c == c2 {
                assert(v@.subrange(i + 1, i + 1) =~= Seq::<char>::empty());
            } else {
                assert(v@.subrange(start as int, i + 1) =~= v@.subrange(
                    start as int,
                    i as int,
                ).push(c));
            }
        }
        if c == c1 || c == c2 {
            out.push((start, i));
            start = i + 1;
        }
        i += 1;
    }
    out.push((start, to));
    out
}

/// Whether `needle` stands in `hay` at position `i`.
pub open spec fn occurs_at(hay: Seq<char>, needle: Seq<char>, i: int) -> bool {
    &&& 0 <= i
    &&& i + needle.len() <= hay.len()
    &&& hay.subrange(i, i + needle.len()) == needle
}

/// Whether `needle` is a contiguous part of `hay`. The empty text is part of
/// every text.
pub open spec fn contains(hay: Seq<char>, needle: Seq<char>) -> bool {
    exists|i: int| occurs_at(hay, needle, i)
}

/// Whether `needle` stands in `hay` at position `i`.
pub fn matches_at(hay: &Vec<char>, needle: &Vec<char>, i: usize) -> (r: bool)
    requires
        i + needle@.len() <= hay@.len(),
    ensures
        r == occurs_at(hay@, needle@, i as int),
{
    let m: usize = needle.len();
    let n: usize = hay.len();
    let mut j: usize = 0;
    while j < m
        invariant
            j <= m,
            m == needle@.len(),
            n == hay@.len(),
            i + m <= n,
            forall|k: int| 0 <= k < j ==> hay@[i + k] == needle@[k],
        decreases m - j,
    {
        if hay[i + j] != needle[j] {
            proof {
                let part = hay@.subrange(i as int, i + m);
                assert(part[j as int] == hay@[i + j]);
            }
            return false;
        }
        j += 1;
    }
    assert(hay@.subrange(i as int, i + m) =~= needle@);
    true
}

/// Whether `needle` is a contiguous part of `hay`.
pub fn contains_chars(hay: &Vec<char>, needle: &Vec<char>) -> (r: bool)
    ensures
        r == contains(hay@, needle@),
{
    let n: usize = hay.len();
    let m: usize = needle.len();
    if m > n {
        return false;
    }
    let last: usize = n - m;
    let mut i: usize = 0;
    loop
        invariant
            m <= n,
            n == hay@.len(),
            m == needle@.len(),
            last == n - m,
            i <= last,
            forall|k: int| 0 <= k < i ==> !occurs_at(hay@, needle@, k),
        decreases last - i,
    {
        if matches_at(hay, needle, i) {
            return true;
        }
        if i == last {
            return false;
        }
        i += 1;
    }
}

/// Whether two texts are the same.
pub fn same_text(a: &str, b: &str) -> (r: bool)
    ensures
        r == (a@ == b@),
{
    let x = to_chars(a);
    let y = to_chars(b);
    if x.len() != y.len() {
        return false;
    }
    let r = matches_at(&x, &y, 0);
    proof {
        assert(x@.subrange(0, x@.len() as int) =~= x@);
    }
    r
}

/// The lower-case form of a text, as the standard library computes it.
pub uninterp spec fn lowercase_of(s: Seq<char>) -> Seq<char>;

/// The lower-case form of `s`.
///
/// Trusted: `str::to_lowercase` of the standard library. Its result follows
/// the Unicode case mappings and depends on the text alone; the contract only
/// gives that result a name.
#[verifier::external_body]
pub(crate) fn to_lowercase(s: &str) -> (r: String)
    ensures
        r@ == lowercase_of(s@),
{
    s.to_lowercase()
}

} // verus!
