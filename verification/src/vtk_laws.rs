//! What the VTK text reader's building blocks mean, stated independently of
//! how they are computed: numbers are decimal, whitespace is Unicode
//! `White_Space`, fields are the maximal runs of non-whitespace characters
//! and lines are the `'\n'`-separated pieces of the text.

use crate::vtk::{
    digits_value, fields, is_digit, is_space, lemma_word_len_bound, line_len, parse_usize,
    text_lines, word_len,
};
use vstd::prelude::*;

verus! {

/// A digit is one of `'0'` to `'9'`.
pub proof fn lemma_is_digit_exact(c: char)
    ensures
        is_digit(c) <==> (c == '0' || c == '1' || c == '2' || c == '3' || c == '4' || c == '5'
            || c == '6' || c == '7' || c == '8' || c == '9'),
{
}

/// Numbers are decimal: appending a digit `c` to the digits `d` multiplies
/// the value by ten and adds the digit's value.
pub proof fn lemma_digits_value_decimal(d: Seq<char>, c: char)
    requires
        is_digit(c),
    ensures
        digits_value(d.push(c)) == 10 * digits_value(d) + ((c as u32) - ('0' as u32)),
        digits_value(seq![c]) == (c as u32) - ('0' as u32),
{
    assert(d.push(c).drop_last() =~= d);
    assert(seq![c].drop_last() =~= Seq::<char>::empty());
    assert(digits_value(Seq::<char>::empty()) == 0);
    assert(seq![c].last() == c);
}

/// Reading a number digit by digit: a single digit reads as its value, and
/// a field of digits read as `v`, followed by one more digit `c`, reads as
/// `10 * v + c` as long as that fits in a `usize`; a leading `'+'` does not
/// change the value, and no other leading sign is accepted.
pub proof fn lemma_parse_usize_decimal(d: Seq<char>, c: char, v: usize)
    requires
        is_digit(c),
        d.len() > 0,
        d[0] != '+',
        parse_usize(d) == Some(v),
    ensures
        parse_usize(seq![c]) == Some(((c as u32) - ('0' as u32)) as usize),
        10 * v + ((c as u32) - ('0' as u32)) <= usize::MAX ==> parse_usize(d.push(c)) == Some(
            (10 * v + ((c as u32) - ('0' as u32))) as usize,
        ),
        10 * v + ((c as u32) - ('0' as u32)) > usize::MAX ==> parse_usize(d.push(c)) is None,
        parse_usize(seq!['+'] + d) == Some(v),
        parse_usize(seq!['-'] + d) is None,
{
    lemma_digits_value_decimal(d, c);
    let dc = d.push(c);
    assert(dc[0] == d[0]);
    assert(forall|i: int| 0 <= i < d.len() ==> is_digit(#[trigger] d[i]));
    assert forall|i: int| 0 <= i < dc.len() implies is_digit(#[trigger] dc[i]) by {
        if i < d.len() {
            assert(dc[i] == d[i]);
        }
    }
    assert((seq!['+'] + d).drop_first() =~= d);
    assert((seq!['-'] + d)[0] == '-');
    assert(!is_digit('-'));
    assert(seq![c][0] == c);
}

/// Whitespace is exactly what `char::is_whitespace` accepts: the Unicode
/// `White_Space` characters.
pub proof fn lemma_is_space_exact(c: char)
    ensures
        is_space(c) <==> (c == '\t' || c == '\n' || c == '\u{b}' || c == '\u{c}' || c == '\r'
            || c == ' ' || c == '\u{85}' || c == '\u{a0}' || c == '\u{1680}' || c == '\u{2000}'
            || c == '\u{2001}' || c == '\u{2002}' || c == '\u{2003}' || c == '\u{2004}' || c
            == '\u{2005}' || c == '\u{2006}' || c == '\u{2007}' || c == '\u{2008}' || c
            == '\u{2009}' || c == '\u{200a}' || c == '\u{2028}' || c == '\u{2029}' || c
            == '\u{202f}' || c == '\u{205f}' || c == '\u{3000}'),
        0x21 <= (c as u32) <= 0x7e ==> !is_space(c),
{
}

/// `spans` cuts `u` into its maximal runs of non-whitespace characters, in
/// order: each span is a non-empty run without whitespace, bounded on each
/// side by whitespace or an end of `u`, and every non-whitespace character
/// of `u` lies in a span.
pub open spec fn is_run_split(u: Seq<char>, spans: Seq<(int, int)>) -> bool {
    &&& forall|k: int| 0 <= k < spans.len() ==> 0 <= (#[trigger] spans[k]).0 < spans[k].1 <= u.len()
    &&& forall|j: int, k: int|
        0 <= j < k < spans.len() ==> (#[trigger] spans[j]).1 < (#[trigger] spans[k]).0
    &&& forall|k: int, i: int|
        0 <= k < spans.len() && (#[trigger] spans[k]).0 <= i < spans[k].1 ==> !is_space(
            #[trigger] u[i],
        )
    &&& forall|k: int|
        0 <= k < spans.len() ==> (#[trigger] spans[k]).0 == 0 || is_space(u[spans[k].0 - 1])
    &&& forall|k: int|
        0 <= k < spans.len() ==> (#[trigger] spans[k]).1 == u.len() || is_space(u[spans[k].1])
    &&& forall|i: int|
        0 <= i < u.len() && !is_space(#[trigger] u[i]) ==> exists|k: int|
            0 <= k < spans.len() && (#[trigger] spans[k]).0 <= i < spans[k].1
}

/// The pieces of `u` that `spans` cover.
pub open spec fn pieces(u: Seq<char>, spans: Seq<(int, int)>) -> Seq<Seq<char>> {
    spans.map_values(|sp: (int, int)| u.subrange(sp.0, sp.1))
}

/// `spans` moved `d` characters to the right.
pub open spec fn shifted(spans: Seq<(int, int)>, d: int) -> Seq<(int, int)> {
    spans.map_values(|sp: (int, int)| (sp.0 + d, sp.1 + d))
}

/// A field runs up to the first whitespace: no whitespace before it, and
/// whitespace or the end right after it.
proof fn lemma_word_len_run(u: Seq<char>)
    ensures
        word_len(u) <= u.len(),
        forall|i: int| 0 <= i < word_len(u) ==> !is_space(#[trigger] u[i]),
        word_len(u) < u.len() ==> is_space(u[word_len(u) as int]),
    decreases u.len(),
{
    if u.len() > 0 && !is_space(u[0]) {
        let v = u.drop_first();
        lemma_word_len_run(v);
        assert forall|i: int| 0 <= i < word_len(u) implies !is_space(#[trigger] u[i]) by {
            if i > 0 {
                assert(u[i] == v[i - 1]);
            }
        }
        if word_len(u) < u.len() {
            assert(u[word_len(u) as int] == v[word_len(v) as int]);
        }
    }
}

/// The fields of a text are exactly its maximal runs of non-whitespace
/// characters, in order: there are spans that cut the text into those runs
/// (each non-empty, free of whitespace, bounded by whitespace or the text's
/// ends, together covering every non-whitespace character), and the fields
/// are the pieces they cover. Nothing bounds a field's length.
pub proof fn lemma_fields_are_runs(u: Seq<char>) -> (spans: Seq<(int, int)>)
    ensures
        is_run_split(u, spans),
        fields(u) == pieces(u, spans),
    decreases u.len(),
{
    if u.len() == 0 {
        let spans = Seq::<(int, int)>::empty();
        assert(fields(u) =~= pieces(u, spans));
        spans
    } else if is_space(u[0]) {
        let v = u.drop_first();
        let sv = lemma_fields_are_runs(v);
        let spans = shifted(sv, 1);
        assert forall|k: int, i: int|
            0 <= k < spans.len() && (#[trigger] spans[k]).0 <= i < spans[k].1 implies !is_space(
            #[trigger] u[i],
        ) by {
            assert(sv[k].0 <= i - 1 < sv[k].1);
            assert(u[i] == v[i - 1]);
        }
        assert forall|k: int| 0 <= k < spans.len() implies (#[trigger] spans[k]).0 == 0 || is_space(
            u[spans[k].0 - 1],
        ) by {
            assert(sv[k].0 == 0 || is_space(v[sv[k].0 - 1]));
            if sv[k].0 > 0 {
                assert(u[spans[k].0 - 1] == v[sv[k].0 - 1]);
            }
        }
        assert forall|k: int| 0 <= k < spans.len() implies (#[trigger] spans[k]).1 == u.len()
            || is_space(u[spans[k].1]) by {
            assert(sv[k].1 == v.len() || is_space(v[sv[k].1]));
            if sv[k].1 < v.len() {
                assert(u[spans[k].1] == v[sv[k].1]);
            }
        }
        assert forall|i: int| 0 <= i < u.len() && !is_space(#[trigger] u[i]) implies exists|k: int|
            0 <= k < spans.len() && (#[trigger] spans[k]).0 <= i < spans[k].1 by {
            assert(i > 0);
            assert(v[i - 1] == u[i]);
            let k = choose|k: int| 0 <= k < sv.len() && (#[trigger] sv[k]).0 <= i - 1 < sv[k].1;
            assert(spans[k].0 <= i < spans[k].1);
        }
        assert forall|j: int, k: int| 0 <= j < k < spans.len() implies (#[trigger] spans[j]).1 < (
        #[trigger] spans[k]).0 by {
            assert(sv[j].1 < sv[k].0);
        }
        assert forall|k: int| 0 <= k < spans.len() implies 0 <= (#[trigger] spans[k]).0 < spans[k].1
            <= u.len() by {
            assert(0 <= sv[k].0 < sv[k].1 <= v.len());
        }
        assert forall|k: int| 0 <= k < spans.len() implies #[trigger] pieces(u, spans)[k] == pieces(
            v,
            sv,
        )[k] by {
            assert(u.subrange(spans[k].0, spans[k].1) =~= v.subrange(sv[k].0, sv[k].1));
        }
        assert(pieces(u, spans) =~= pieces(v, sv));
        spans
    } else {
        let n = word_len(u);
        lemma_word_len_run(u);
        lemma_word_len_bound(u);
        let v = u.skip(n as int);
        let sv = lemma_fields_are_runs(v);
        let tail = shifted(sv, n as int);
        let spans = seq![(0int, n as int)] + tail;
        assert forall|k: int| 0 <= k < sv.len() implies (#[trigger] sv[k]).0 >= 1 by {
            if sv[k].0 == 0 {
                assert(!is_space(v[0]));
                assert(v[0] == u[n as int]);
            }
        }
        assert forall|k: int| 0 <= k < spans.len() implies 0 <= (#[trigger] spans[k]).0 < spans[k].1
            <= u.len() by {
            if k > 0 {
                assert(spans[k] == tail[k - 1]);
                assert(0 <= sv[k - 1].0 < sv[k - 1].1 <= v.len());
            }
        }
        assert forall|j: int, k: int| 0 <= j < k < spans.len() implies (#[trigger] spans[j]).1 < (
        #[trigger] spans[k]).0 by {
            assert(spans[k] == tail[k - 1]);
            assert(sv[k - 1].0 >= 1);
            if j > 0 {
                assert(spans[j] == tail[j - 1]);
                assert(sv[j - 1].1 < sv[k - 1].0);
            }
        }
        assert forall|k: int, i: int|
            0 <= k < spans.len() && (#[trigger] spans[k]).0 <= i < spans[k].1 implies !is_space(
            #[trigger] u[i],
        ) by {
            if k > 0 {
                assert(spans[k] == tail[k - 1]);
                assert(sv[k - 1].0 <= i - n < sv[k - 1].1);
                assert(u[i] == v[i - n]);
            }
        }
        assert forall|k: int| 0 <= k < spans.len() implies (#[trigger] spans[k]).0 == 0 || is_space(
            u[spans[k].0 - 1],
        ) by {
            if k > 0 {
                assert(spans[k] == tail[k - 1]);
                assert(sv[k - 1].0 >= 1);
                assert(is_space(v[sv[k - 1].0 - 1]));
                assert(u[spans[k].0 - 1] == v[sv[k - 1].0 - 1]);
            }
        }
        assert forall|k: int| 0 <= k < spans.len() implies (#[trigger] spans[k]).1 == u.len()
            || is_space(u[spans[k].1]) by {
            if k > 0 {
                assert(spans[k] == tail[k - 1]);
                assert(sv[k - 1].1 == v.len() || is_space(v[sv[k - 1].1]));
                if sv[k - 1].1 < v.len() {
                    assert(u[spans[k].1] == v[sv[k - 1].1]);
                }
            }
        }
        assert forall|i: int| 0 <= i < u.len() && !is_space(#[trigger] u[i]) implies exists|k: int|
            0 <= k < spans.len() && (#[trigger] spans[k]).0 <= i < spans[k].1 by {
            if i < n {
                assert(spans[0].0 <= i < spans[0].1);
            } else {
                assert(v[i - n] == u[i]);
                let k = choose|k: int| 0 <= k < sv.len() && (#[trigger] sv[k]).0 <= i - n < sv[k].1;
                assert(spans[k + 1] == tail[k]);
                assert(spans[k + 1].0 <= i < spans[k + 1].1);
            }
        }
        assert forall|k: int| 0 <= k < spans.len() implies #[trigger] pieces(u, spans)[k] == (seq![
            u.take(n as int),
        ] + pieces(v, sv))[k] by {
            if k > 0 {
                assert(spans[k] == tail[k - 1]);
                assert(u.subrange(spans[k].0, spans[k].1) =~= v.subrange(sv[k - 1].0, sv[k - 1].1));
            } else {
                assert(u.subrange(0, n as int) =~= u.take(n as int));
            }
        }
        assert(pieces(u, spans) =~= seq![u.take(n as int)] + pieces(v, sv));
        spans
    }
}

/// The text made of the lines `w`, each followed by `'\n'`.
pub open spec fn terminated(w: Seq<Seq<char>>) -> Seq<char>
    decreases w.len(),
{
    if w.len() == 0 {
        seq![]
    } else {
        w[0] + seq!['\n'] + terminated(w.drop_first())
    }
}

/// A line runs up to the first `'\n'`.
proof fn lemma_line_len_run(u: Seq<char>)
    ensures
        line_len(u) <= u.len(),
        forall|i: int| 0 <= i < line_len(u) ==> #[trigger] u[i] != '\n',
        line_len(u) < u.len() ==> u[line_len(u) as int] == '\n',
    decreases u.len(),
{
    if u.len() > 0 && u[0] != '\n' {
        let v = u.drop_first();
        lemma_line_len_run(v);
        assert forall|i: int| 0 <= i < line_len(u) implies #[trigger] u[i] != '\n' by {
            if i > 0 {
                assert(u[i] == v[i - 1]);
            }
        }
        if line_len(u) < u.len() {
            assert(u[line_len(u) as int] == v[line_len(v) as int]);
        }
    }
}

/// The lines of a text are exactly its `'\n'`-separated pieces: there are
/// pieces `w` without `'\n'`, one per line, such that the text is the
/// pieces each followed by `'\n'` (`closed`), or so but for a last,
/// non-empty piece without one; each line is its piece, less a final
/// `'\r'` where the piece is followed by `'\n'`. Nothing bounds a line's
/// length.
pub proof fn lemma_lines_are_pieces(t: Seq<char>) -> (r: (Seq<Seq<char>>, bool))
    ensures
        r.0.len() == text_lines(t).len(),
        forall|k: int, i: int| 0 <= k < r.0.len() && 0 <= i < r.0[k].len() ==> #[trigger] r.0[k][i] != '\n',
        r.1 ==> t == terminated(r.0),
        !r.1 ==> r.0.len() > 0 && r.0.last().len() > 0 && t == terminated(r.0.drop_last())
            + r.0.last(),
        forall|k: int|
            0 <= k < r.0.len() ==> #[trigger] text_lines(t)[k] == if (k < r.0.len() - 1 || r.1)
                && r.0[k].len() > 0 && r.0[k].last() == '\r' {
                r.0[k].drop_last()
            } else {
                r.0[k]
            },
    decreases t.len(),
{
    if t.len() == 0 {
        let w = Seq::<Seq<char>>::empty();
        assert(terminated(w) =~= t);
        (w, true)
    } else {
        let n = line_len(t);
        lemma_line_len_run(t);
        let raw = t.take(n as int);
        if n < t.len() {
            let rest = t.skip(n as int + 1);
            let (w1, c1) = lemma_lines_are_pieces(rest);
            let w = seq![raw] + w1;
            assert(w.drop_first() =~= w1);
            assert(text_lines(t) == seq![crate::vtk::first_line(t)] + text_lines(rest));
            assert forall|k: int, i: int| 0 <= k < w.len() && 0 <= i < w[k].len() implies #[trigger] w[k][i] != '\n' by {
                if k > 0 {
                    assert(w[k] == w1[k - 1]);
                } else {
                    assert(w[0][i] == t[i]);
                }
            }
            if c1 {
                assert(terminated(w) == raw + seq!['\n'] + terminated(w1));
                assert(t =~= raw + seq!['\n'] + rest);
            } else {
                let wd = w.drop_last();
                assert(wd =~= seq![raw] + w1.drop_last());
                assert(wd.drop_first() =~= w1.drop_last());
                assert(terminated(wd) == raw + seq!['\n'] + terminated(w1.drop_last()));
                assert(w.last() == w1.last());
                assert(t =~= raw + seq!['\n'] + rest);
                assert(t =~= terminated(wd) + w.last());
            }
            assert forall|k: int| 0 <= k < w.len() implies #[trigger] text_lines(t)[k] == if (k < w.len()
                - 1 || c1) && w[k].len() > 0 && w[k].last() == '\r' {
                w[k].drop_last()
            } else {
                w[k]
            } by {
                if k > 0 {
                    assert(text_lines(t)[k] == text_lines(rest)[k - 1]);
                    assert(w[k] == w1[k - 1]);
                } else {
                    assert(w1.len() == 0 ==> c1);
                }
            }
            (w, c1)
        } else {
            let w = seq![t];
            assert(raw =~= t);
            assert(w.drop_last() =~= Seq::<Seq<char>>::empty());
            assert(terminated(w.drop_last()) =~= Seq::<char>::empty());
            assert(t =~= terminated(w.drop_last()) + w.last());
            assert(text_lines(t) == seq![crate::vtk::first_line(t)]);
            (w, false)
        }
    }
}

} // verus!
