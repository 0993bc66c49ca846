//! The legacy VTK text layout of a triangle mesh, as the test harness reads
//! it: four header lines, a `POINTS n ...` line followed by `n` point
//! lines, then a `CELLS m ...` line followed by `m` cell lines `3 a b c`.
//!
//! Lines are those of a buffered reader: the text is split at `'\n'`, a
//! `'\r'` just before a `'\n'` is dropped, and no empty line follows a
//! final `'\n'`. Fields are the runs of non-whitespace characters of a line.
//! Point coordinates are floating-point numbers, which this crate does not
//! parse: it hands back where the fields of each point line stand in the
//! text.

use vstd::prelude::*;

verus! {

/// Number of characters before the first `'\n'` of `u` (all of them when
/// there is none).
pub open spec fn line_len(u: Seq<char>) -> nat
    decreases u.len(),
{
    if u.len() == 0 || u[0] == '\n' {
        0
    } else {
        1 + line_len(u.drop_first())
    }
}

/// A line ends within the text, at a `'\n'` when it ends before the end.
pub proof fn lemma_line_len_bound(u: Seq<char>)
    ensures
        line_len(u) <= u.len(),
        line_len(u) < u.len() ==> u[line_len(u) as int] == '\n',
    decreases u.len(),
{
    if u.len() > 0 && u[0] != '\n' {
        lemma_line_len_bound(u.drop_first());
    }
}

/// The first line of the non-empty text `u`: up to its `'\n'`, without a
/// `'\r'` that stands just before that `'\n'`.
pub open spec fn first_line(u: Seq<char>) -> Seq<char> {
    let n = line_len(u);
    let raw = u.take(n as int);
    if n < u.len() && n > 0 && raw.last() == '\r' {
        raw.drop_last()
    } else {
        raw
    }
}

/// The lines of the text `u`.
pub open spec fn text_lines(u: Seq<char>) -> Seq<Seq<char>>
    decreases u.len(),
{
    if u.len() == 0 {
        seq![]
    } else {
        let n = line_len(u);
        proof {
            lemma_line_len_bound(u);
        }
        if n < u.len() {
            seq![first_line(u)] + text_lines(u.skip(n as int + 1))
        } else {
            seq![first_line(u)]
        }
    }
}

/// Where the next line of the text starts at `pos`: its content is
/// `text[start..end]` and the line after it starts at `next`; `None` when no
/// line is left.
fn next_line(text: &Vec<char>, pos: usize) -> (r: Option<(usize, usize, usize)>)
    requires
        pos <= text@.len(),
    ensures
        r is None <==> text_lines(text@.subrange(pos as int, text@.len() as int)).len() == 0,
        r matches Some((start, end, next)) ==> {
            let rest = text_lines(text@.subrange(pos as int, text@.len() as int));
            &&& start == pos
            &&& start <= end <= next <= text@.len()
            &&& pos < next
            &&& rest[0] == text@.subrange(start as int, end as int)
            &&& text_lines(text@.subrange(next as int, text@.len() as int)) == rest.drop_first()
        },
{
    let len = text.len();
    let ghost u = text@.subrange(pos as int, len as int);
    if pos >= len {
        return None;
    }
    let mut j: usize = pos;
    while j < len && text[j] != '\n'
        invariant
            pos <= j <= len,
            len == text@.len(),
            u == text@.subrange(pos as int, len as int),
            line_len(u) == (j - pos) + line_len(text@.subrange(j as int, len as int)),
        decreases len - j,
    {
        assert(text@.subrange(j as int, len as int).drop_first() =~= text@.subrange(
            j + 1,
            len as int,
        ));
        j = j + 1;
    }
    let end: usize = if j < len && j > pos && text[j - 1] == '\r' {
        j - 1
    } else {
        j
    };
    let next: usize = if j < len {
        j + 1
    } else {
        j
    };
    proof {
        let n = line_len(u);
        assert(n == j - pos);
        assert(u.take(n as int) =~= text@.subrange(pos as int, j as int));
        assert(first_line(u) =~= text@.subrange(pos as int, end as int));
        if j < len {
            assert(u.skip(n as int + 1) =~= text@.subrange(next as int, len as int));
        } else {
            assert(text@.subrange(next as int, len as int) =~= Seq::<char>::empty());
        }
        assert(text_lines(u).drop_first() =~= text_lines(
            text@.subrange(next as int, len as int),
        ));
    }
    Some((pos, end, next))
}

/// Whitespace as Rust's `char::is_whitespace` has it (the Unicode
/// `White_Space` property).
pub open spec fn is_space(c: char) -> bool {
    let v = c as u32;
    ||| 0x9 <= v <= 0xd
    ||| v == 0x20
    ||| v == 0x85
    ||| v == 0xa0
    ||| v == 0x1680
    ||| 0x2000 <= v <= 0x200a
    ||| v == 0x2028
    ||| v == 0x2029
    ||| v == 0x202f
    ||| v == 0x205f
    ||| v == 0x3000
}

fn space_char(c: char) -> (b: bool)
    ensures
        b == is_space(c),
{
    let v = c as u32;
    (0x9 <= v && v <= 0xd) || v == 0x20 || v == 0x85 || v == 0xa0 || v == 0x1680 || (0x2000 <= v
        && v <= 0x200a) || v == 0x2028 || v == 0x2029 || v == 0x202f || v == 0x205f || v == 0x3000
}

/// Number of characters of `u` before its first whitespace.
pub open spec fn word_len(u: Seq<char>) -> nat
    decreases u.len(),
{
    if u.len() == 0 || is_space(u[0]) {
        0
    } else {
        1 + word_len(u.drop_first())
    }
}

/// A field ends within the text, and is not empty when the text starts
/// with a non-whitespace character.
pub proof fn lemma_word_len_bound(u: Seq<char>)
    ensures
        word_len(u) <= u.len(),
        u.len() > 0 && !is_space(u[0]) ==> word_len(u) >= 1,
    decreases u.len(),
{
    if u.len() > 0 && !is_space(u[0]) {
        lemma_word_len_bound(u.drop_first());
    }
}

/// The fields of `u`: its maximal runs of non-whitespace characters.
pub open spec fn fields(u: Seq<char>) -> Seq<Seq<char>>
    decreases u.len(),
{
    if u.len() == 0 {
        seq![]
    } else if is_space(u[0]) {
        fields(u.drop_first())
    } else {
        let n = word_len(u);
        proof {
            lemma_word_len_bound(u);
        }
        seq![u.take(n as int)] + fields(u.skip(n as int))
    }
}

/// The characters of `text` that a span `(start, end)` covers.
pub open spec fn span_text(text: Seq<char>, sp: (usize, usize)) -> Seq<char> {
    text.subrange(sp.0 as int, sp.1 as int)
}

/// The characters that each of `spans` covers.
pub open spec fn spans_text(text: Seq<char>, spans: Seq<(usize, usize)>) -> Seq<Seq<char>> {
    spans.map_values(|sp: (usize, usize)| span_text(text, sp))
}

/// All spans lie within `text[start..end]`, in order.
pub open spec fn spans_within(spans: Seq<(usize, usize)>, start: int, end: int) -> bool {
    forall|k: int| 0 <= k < spans.len() ==> start <= (#[trigger] spans[k]).0 <= spans[k].1 <= end
}

/// Spans of the fields of `text[start..end]`.
fn field_spans(text: &Vec<char>, start: usize, end: usize) -> (spans: Vec<(usize, usize)>)
    requires
        start <= end <= text@.len(),
    ensures
        spans_within(spans@, start as int, end as int),
        spans_text(text@, spans@) == fields(text@.subrange(start as int, end as int)),
{
    let mut spans: Vec<(usize, usize)> = Vec::new();
    let mut i: usize = start;
    assert(spans_text(text@, spans@) =~= Seq::<Seq<char>>::empty());
    while i < end
        invariant
            start <= i <= end,
            end <= text@.len(),
            spans_within(spans@, start as int, i as int),
            fields(text@.subrange(start as int, end as int)) == spans_text(text@, spans@)
                + fields(text@.subrange(i as int, end as int)),
        decreases end - i,
    {
        let ghost v = text@.subrange(i as int, end as int);
        if space_char(text[i]) {
            assert(v.drop_first() =~= text@.subrange(i + 1, end as int));
            i = i + 1;
        } else {
            let mut j: usize = i;
            while j < end && !space_char(text[j])
                invariant
                    i <= j <= end,
                    end <= text@.len(),
                    v == text@.subrange(i as int, end as int),
                    word_len(v) == (j - i) + word_len(text@.subrange(j as int, end as int)),
                decreases end - j,
            {
                assert(text@.subrange(j as int, end as int).drop_first() =~= text@.subrange(
                    j + 1,
                    end as int,
                ));
                j = j + 1;
            }
            let ghost old_spans = spans@;
            spans.push((i, j));
            proof {
                let n = word_len(v);
                assert(n == j - i);
                assert(v.take(n as int) =~= text@.subrange(i as int, j as int));
                assert(v.skip(n as int) =~= text@.subrange(j as int, end as int));
                assert(spans_text(text@, spans@) =~= spans_text(text@, old_spans).push(
                    text@.subrange(i as int, j as int),
                ));
                assert(fields(text@.subrange(start as int, end as int)) =~= spans_text(
                    text@,
                    spans@,
                ) + fields(text@.subrange(j as int, end as int)));
            }
            i = j;
        }
    }
    assert(fields(text@.subrange(i as int, end as int)) =~= Seq::<Seq<char>>::empty());
    assert(spans_text(text@, spans@) + Seq::<Seq<char>>::empty() =~= spans_text(text@, spans@));
    spans
}

/// An ASCII decimal digit.
pub open spec fn is_digit(c: char) -> bool {
    0x30 <= (c as u32) <= 0x39
}

/// Value of the decimal digits `d`.
pub open spec fn digits_value(d: Seq<char>) -> nat
    decreases d.len(),
{
    if d.len() == 0 {
        0
    } else {
        digits_value(d.drop_last()) * 10 + ((d.last() as u32) - 0x30) as nat
    }
}

/// The digits of a field read as an unsigned number: without one leading
/// `'+'`.
pub open spec fn unsigned_digits(tok: Seq<char>) -> Seq<char> {
    if tok.len() > 0 && tok[0] == '+' {
        tok.drop_first()
    } else {
        tok
    }
}

/// The field read as a `usize`, as `str::parse::<usize>` reads it: an
/// optional `'+'`, then at least one decimal digit and nothing else, with a
/// value that fits.
pub open spec fn parse_usize(tok: Seq<char>) -> Option<usize> {
    let d = unsigned_digits(tok);
    if d.len() > 0 && (forall|i: int| 0 <= i < d.len() ==> is_digit(#[trigger] d[i]))
        && digits_value(d) <= usize::MAX {
        Some(digits_value(d) as usize)
    } else {
        None
    }
}

/// Appending digits never makes a number smaller.
proof fn lemma_digits_value_prefix(d: Seq<char>, k: int)
    requires
        0 <= k <= d.len(),
    ensures
        digits_value(d.take(k)) <= digits_value(d),
    decreases d.len(),
{
    if k < d.len() {
        lemma_digits_value_prefix(d.drop_last(), k);
        assert(d.drop_last().take(k) =~= d.take(k));
    } else {
        assert(d.take(k) =~= d);
    }
}

/// The field covered by `sp` read as a `usize`.
fn parse_span_usize(text: &Vec<char>, sp: (usize, usize)) -> (r: Option<usize>)
    requires
        sp.0 <= sp.1 <= text@.len(),
    ensures
        r == parse_usize(span_text(text@, sp)),
{
    let (s, e) = sp;
    let ghost tok = span_text(text@, sp);
    let mut i: usize = s;
    if i < e && text[i] == '+' {
        i = i + 1;
    }
    let ds: usize = i;
    proof {
        assert(unsigned_digits(tok) =~= text@.subrange(ds as int, e as int));
    }
    let ghost d = text@.subrange(ds as int, e as int);
    if i == e {
        return None;
    }
    let mut v: usize = 0;
    assert(d.take(0) =~= Seq::<char>::empty());
    while i < e
        invariant
            ds <= i <= e,
            e <= text@.len(),
            d == text@.subrange(ds as int, e as int),
            unsigned_digits(tok) == d,
            tok == span_text(text@, sp),
            d.len() > 0,
            forall|k: int| 0 <= k < i - ds ==> is_digit(#[trigger] d[k]),
            v as nat == digits_value(d.take(i - ds)),
        decreases e - i,
    {
        let c = text[i];
        let cv = #[verifier::truncate] (c as u32);
        assert(d[i - ds] == c);
        if cv < 0x30 || cv > 0x39 {
            assert(!is_digit(d[i - ds]));
            return None;
        }
        let dgt: usize = (cv - 0x30) as usize;
        assert(d.take(i - ds + 1).drop_last() =~= d.take(i - ds));
        assert(d.take(i - ds + 1).last() == c);
        if v > (usize::MAX - dgt) / 10 {
            proof {
                assert(digits_value(d.take(i - ds + 1)) > usize::MAX);
                lemma_digits_value_prefix(d, i - ds + 1);
            }
            return None;
        }
        v = v * 10 + dgt;
        i = i + 1;
    }
    assert(d.take(e - ds) =~= d);
    Some(v)
}

/// The count that a `POINTS n ...` or `CELLS m ...` line declares: its
/// second field read as a `usize`.
pub open spec fn header_count(line: Seq<char>) -> Option<usize> {
    let f = fields(line);
    if f.len() >= 2 {
        parse_usize(f[1])
    } else {
        None
    }
}

/// A cell line of a triangle mesh: at least four fields, each an unsigned
/// number, the first of them `3`.
pub open spec fn is_triangle_line(f: Seq<Seq<char>>) -> bool {
    &&& f.len() >= 4
    &&& forall|k: int| 0 <= k < f.len() ==> (#[trigger] parse_usize(f[k])) is Some
    &&& parse_usize(f[0]) == Some(3usize)
}

/// Number of points of the lines `l` of a mesh text.
pub open spec fn point_count(l: Seq<Seq<char>>) -> int {
    header_count(l[4]).unwrap() as int
}

/// The point lines of the lines `l` of a mesh text.
pub open spec fn point_lines(l: Seq<Seq<char>>) -> Seq<Seq<char>> {
    l.subrange(5, 5 + point_count(l))
}

/// Number of cells of the lines `l` of a mesh text.
pub open spec fn cell_count(l: Seq<Seq<char>>) -> int {
    header_count(l[5 + point_count(l)]).unwrap() as int
}

/// The cell lines of the lines `l` of a mesh text.
pub open spec fn cell_lines(l: Seq<Seq<char>>) -> Seq<Seq<char>> {
    l.subrange(6 + point_count(l), 6 + point_count(l) + cell_count(l))
}

/// The text holds a triangle mesh: four header lines, a points header with
/// a count, as many point lines of at least two fields, a cells header with
/// a count and as many triangle lines. Lines after them are ignored.
pub open spec fn is_tri_mesh_text(t: Seq<char>) -> bool {
    let l = text_lines(t);
    &&& l.len() >= 5
    &&& header_count(l[4]) is Some
    &&& l.len() >= 6 + point_count(l)
    &&& forall|i: int| 0 <= i < point_count(l) ==> fields(#[trigger] point_lines(l)[i]).len() >= 2
    &&& header_count(l[5 + point_count(l)]) is Some
    &&& l.len() >= 6 + point_count(l) + cell_count(l)
    &&& forall|j: int|
        0 <= j < cell_count(l) ==> is_triangle_line(fields(#[trigger] cell_lines(l)[j]))
}

/// Corner `c` (1, 2 or 3) of the triangle on a cell line.
pub open spec fn corner(cell_line: Seq<char>, c: int) -> usize {
    parse_usize(fields(cell_line)[c]).unwrap()
}

/// A triangle mesh as read from its text: where the fields of each point
/// line stand in the text, and the three corners of each triangle.
pub struct TriMeshText {
    /// Per point, the spans `(start, end)` of the fields of its line.
    pub point_fields: Vec<Vec<(usize, usize)>>,
    /// First corner of each triangle.
    pub t0: Vec<usize>,
    /// Second corner of each triangle.
    pub t1: Vec<usize>,
    /// Third corner of each triangle.
    pub t2: Vec<usize>,
}

/// The next line from `pos`, as the spans of its fields, with where the line
/// after it starts.
fn next_line_fields(text: &Vec<char>, pos: usize) -> (r: Option<(Vec<(usize, usize)>, usize)>)
    requires
        pos <= text@.len(),
    ensures
        r is None <==> text_lines(text@.subrange(pos as int, text@.len() as int)).len() == 0,
        r matches Some((spans, next)) ==> {
            let rest = text_lines(text@.subrange(pos as int, text@.len() as int));
            &&& pos < next <= text@.len()
            &&& spans_within(spans@, 0, text@.len() as int)
            &&& spans_text(text@, spans@) == fields(rest[0])
            &&& text_lines(text@.subrange(next as int, text@.len() as int)) == rest.drop_first()
        },
{
    match next_line(text, pos) {
        None => None,
        Some((start, end, next)) => {
            let spans = field_spans(text, start, end);
            Some((spans, next))
        },
    }
}

/// The lines of `text` from `pos` on.
pub open spec fn lines_from(text: Seq<char>, pos: int) -> Seq<Seq<char>> {
    text_lines(text.subrange(pos, text.len() as int))
}

/// Steps over `k` lines from `pos`; `None` when fewer are left.
fn skip_lines(text: &Vec<char>, pos: usize, k: usize) -> (r: Option<usize>)
    requires
        pos <= text@.len(),
    ensures
        r is Some <==> lines_from(text@, pos as int).len() >= k,
        r matches Some(next) ==> next <= text@.len() && lines_from(text@, next as int)
            == lines_from(text@, pos as int).skip(k as int),
{
    let ghost rest = lines_from(text@, pos as int);
    let mut p: usize = pos;
    let mut i: usize = 0;
    assert(rest.skip(0) =~= rest);
    while i < k
        invariant
            i <= k,
            i <= rest.len(),
            p <= text@.len(),
            rest == lines_from(text@, pos as int),
            lines_from(text@, p as int) == rest.skip(i as int),
        decreases k - i,
    {
        match next_line(text, p) {
            None => {
                return None;
            },
            Some((_start, _end, next)) => {
                assert(rest.skip(i as int).drop_first() =~= rest.skip(i + 1));
                p = next;
            },
        }
        i = i + 1;
    }
    Some(p)
}

/// Reads a `POINTS n ...` or `CELLS m ...` line at `pos`: its count and
/// where the line after it starts.
fn read_count_line(text: &Vec<char>, pos: usize) -> (r: Option<(usize, usize)>)
    requires
        pos <= text@.len(),
    ensures
        r is Some <==> (lines_from(text@, pos as int).len() > 0 && header_count(
            lines_from(text@, pos as int)[0],
        ) is Some),
        r matches Some((n, next)) ==> {
            &&& next <= text@.len()
            &&& Some(n) == header_count(lines_from(text@, pos as int)[0])
            &&& lines_from(text@, next as int) == lines_from(text@, pos as int).drop_first()
        },
{
    match next_line_fields(text, pos) {
        None => None,
        Some((spans, next)) => {
            let ghost line = lines_from(text@, pos as int)[0];
            if spans.len() < 2 {
                return None;
            }
            assert(fields(line)[1] == span_text(text@, spans@[1]));
            match parse_span_usize(text, spans[1]) {
                None => None,
                Some(n) => Some((n, next)),
            }
        },
    }
}

/// Reads `np` point lines at `pos`: the spans of the fields of each, and
/// where the line after them starts.
fn read_point_lines(text: &Vec<char>, pos: usize, np: usize) -> (r: Option<
    (Vec<Vec<(usize, usize)>>, usize),
>)
    requires
        pos <= text@.len(),
    ensures
        ({
            let rest = lines_from(text@, pos as int);
            r is Some <==> (rest.len() >= np && forall|i: int|
                0 <= i < np ==> fields(#[trigger] rest[i]).len() >= 2)
        }),
        r matches Some((pf, next)) ==> {
            let rest = lines_from(text@, pos as int);
            &&& next <= text@.len()
            &&& pf@.len() == np
            &&& forall|i: int|
                0 <= i < np ==> {
                    &&& spans_within(#[trigger] pf@[i]@, 0, text@.len() as int)
                    &&& spans_text(text@, pf@[i]@) == fields(rest[i])
                }
            &&& lines_from(text@, next as int) == rest.skip(np as int)
        },
{
    let ghost rest = lines_from(text@, pos as int);
    let mut pf: Vec<Vec<(usize, usize)>> = Vec::new();
    let mut p: usize = pos;
    let mut i: usize = 0;
    assert(rest.skip(0) =~= rest);
    while i < np
        invariant
            i <= np,
            i <= rest.len(),
            p <= text@.len(),
            rest == lines_from(text@, pos as int),
            lines_from(text@, p as int) == rest.skip(i as int),
            pf@.len() == i,
            forall|q: int|
                0 <= q < i ==> {
                    &&& spans_within(#[trigger] pf@[q]@, 0, text@.len() as int)
                    &&& spans_text(text@, pf@[q]@) == fields(rest[q])
                    &&& fields(rest[q]).len() >= 2
                },
        decreases np - i,
    {
        match next_line_fields(text, p) {
            None => {
                return None;
            },
            Some((spans, next)) => {
                assert(rest.skip(i as int)[0] == rest[i as int]);
                assert(rest.skip(i as int).drop_first() =~= rest.skip(i + 1));
                assert(spans@.len() == fields(rest[i as int]).len());
                if spans.len() < 2 {
                    return None;
                }
                pf.push(spans);
                p = next;
            },
        }
        i = i + 1;
    }
    assert forall|q: int| 0 <= q < np implies fields(#[trigger] rest[q]).len() >= 2 by {
        assert(spans_text(text@, pf@[q]@) == fields(rest[q]));
    }
    Some((pf, p))
}

/// Reads a triangle line given the spans of its fields: its three corners.
fn read_triangle(text: &Vec<char>, spans: &Vec<(usize, usize)>) -> (r: Option<
    (usize, usize, usize),
>)
    requires
        spans_within(spans@, 0, text@.len() as int),
    ensures
        r is Some <==> is_triangle_line(spans_text(text@, spans@)),
        r matches Some((a, b, c)) ==> {
            let f = spans_text(text@, spans@);
            &&& Some(a) == parse_usize(f[1])
            &&& Some(b) == parse_usize(f[2])
            &&& Some(c) == parse_usize(f[3])
        },
{
    let ghost f = spans_text(text@, spans@);
    if spans.len() < 4 {
        return None;
    }
    let mut vals: Vec<usize> = Vec::new();
    let mut m: usize = 0;
    while m < spans.len()
        invariant
            m <= spans@.len(),
            spans_within(spans@, 0, text@.len() as int),
            f == spans_text(text@, spans@),
            vals@.len() == m,
            forall|x: int| 0 <= x < m ==> Some(#[trigger] vals@[x]) == parse_usize(f[x]),
        decreases spans@.len() - m,
    {
        assert(f[m as int] == span_text(text@, spans@[m as int]));
        match parse_span_usize(text, spans[m]) {
            None => {
                return None;
            },
            Some(v) => {
                vals.push(v);
            },
        }
        m = m + 1;
    }
    assert(Some(vals@[0]) == parse_usize(f[0]));
    if vals[0] != 3 {
        return None;
    }
    assert forall|x: int| 0 <= x < f.len() implies (#[trigger] parse_usize(f[x])) is Some by {
        assert(Some(vals@[x]) == parse_usize(f[x]));
    }
    assert(Some(vals@[1]) == parse_usize(f[1]));
    assert(Some(vals@[2]) == parse_usize(f[2]));
    assert(Some(vals@[3]) == parse_usize(f[3]));
    Some((vals[1], vals[2], vals[3]))
}

/// Line `q` of `lines` is a triangle line whose corners are entry `q` of
/// `t0`, `t1` and `t2`.
pub open spec fn triangle_read(
    lines: Seq<Seq<char>>,
    t0: Seq<usize>,
    t1: Seq<usize>,
    t2: Seq<usize>,
    q: int,
) -> bool {
    &&& is_triangle_line(fields(lines[q]))
    &&& t0[q] == corner(lines[q], 1)
    &&& t1[q] == corner(lines[q], 2)
    &&& t2[q] == corner(lines[q], 3)
}

/// Reads `nc` triangle lines at `pos`: the corners of each triangle.
fn read_cell_lines(text: &Vec<char>, pos: usize, nc: usize) -> (r: Option<
    (Vec<usize>, Vec<usize>, Vec<usize>),
>)
    requires
        pos <= text@.len(),
    ensures
        ({
            let rest = lines_from(text@, pos as int);
            r is Some <==> (rest.len() >= nc && forall|j: int|
                0 <= j < nc ==> is_triangle_line(fields(#[trigger] rest[j])))
        }),
        r matches Some((t0, t1, t2)) ==> {
            let rest = lines_from(text@, pos as int);
            &&& t0@.len() == nc
            &&& t1@.len() == nc
            &&& t2@.len() == nc
            &&& forall|j: int|
                0 <= j < nc ==> {
                    &&& #[trigger] t0@[j] == corner(rest[j], 1)
                    &&& t1@[j] == corner(rest[j], 2)
                    &&& t2@[j] == corner(rest[j], 3)
                }
        },
{
    let ghost rest = lines_from(text@, pos as int);
    let mut t0: Vec<usize> = Vec::new();
    let mut t1: Vec<usize> = Vec::new();
    let mut t2: Vec<usize> = Vec::new();
    let mut p: usize = pos;
    let mut j: usize = 0;
    assert(rest.skip(0) =~= rest);
    while j < nc
        invariant
            j <= nc,
            j <= rest.len(),
            p <= text@.len(),
            rest == lines_from(text@, pos as int),
            lines_from(text@, p as int) == rest.skip(j as int),
            t0@.len() == j,
            t1@.len() == j,
            t2@.len() == j,
            forall|q: int| 0 <= q < j ==> #[trigger] triangle_read(rest, t0@, t1@, t2@, q),
        decreases nc - j,
    {
        let (spans, next) = match next_line_fields(text, p) {
            None => {
                return None;
            },
            Some(x) => x,
        };
        assert(rest.skip(j as int)[0] == rest[j as int]);
        assert(rest.skip(j as int).drop_first() =~= rest.skip(j + 1));
        let (a, b, c) = match read_triangle(text, &spans) {
            None => {
                return None;
            },
            Some(x) => x,
        };
        assert(spans_text(text@, spans@) == fields(rest[j as int]));
        let ghost (o0, o1, o2) = (t0@, t1@, t2@);
        t0.push(a);
        t1.push(b);
        t2.push(c);
        p = next;
        proof {
            assert forall|q: int| 0 <= q < j + 1 implies #[trigger] triangle_read(
                rest,
                t0@,
                t1@,
                t2@,
                q,
            ) by {
                if q < j {
                    assert(triangle_read(rest, o0, o1, o2, q));
                    assert(t0@[q] == o0[q]);
                    assert(t1@[q] == o1[q]);
                    assert(t2@[q] == o2[q]);
                }
            }
        }
        j = j + 1;
    }
    assert forall|q: int| 0 <= q < nc implies is_triangle_line(fields(#[trigger] rest[q])) by {
        assert(triangle_read(rest, t0@, t1@, t2@, q));
    }
    assert forall|q: int| 0 <= q < nc implies #[trigger] t0@[q] == corner(rest[q], 1) && t1@[q]
        == corner(rest[q], 2) && t2@[q] == corner(rest[q], 3) by {
        assert(triangle_read(rest, t0@, t1@, t2@, q));
    }
    Some((t0, t1, t2))
}

/// Reads a triangle mesh from its text (see `is_tri_mesh_text`); `None`
/// when the text does not hold one.
pub fn parse_tri_mesh_text(text: &Vec<char>) -> (r: Option<TriMeshText>)
    ensures
        r is Some <==> is_tri_mesh_text(text@),
        r matches Some(m) ==> {
            let l = text_lines(text@);
            &&& m.point_fields@.len() == point_count(l)
            &&& forall|i: int|
                0 <= i < point_count(l) ==> {
                    &&& spans_within(#[trigger] m.point_fields@[i]@, 0, text@.len() as int)
                    &&& spans_text(text@, m.point_fields@[i]@) == fields(point_lines(l)[i])
                }
            &&& m.t0@.len() == cell_count(l)
            &&& m.t1@.len() == cell_count(l)
            &&& m.t2@.len() == cell_count(l)
            &&& forall|j: int|
                0 <= j < cell_count(l) ==> {
                    &&& #[trigger] m.t0@[j] == corner(cell_lines(l)[j], 1)
                    &&& m.t1@[j] == corner(cell_lines(l)[j], 2)
                    &&& m.t2@[j] == corner(cell_lines(l)[j], 3)
                }
        },
{
    let ghost l = text_lines(text@);
    assert(text@.subrange(0, text@.len() as int) =~= text@);
    assert(lines_from(text@, 0) == l);
    let p4 = match skip_lines(text, 0, 4) {
        None => {
            return None;
        },
        Some(p) => p,
    };
    assert(lines_from(text@, p4 as int) == l.skip(4));
    let (np, p5) = match read_count_line(text, p4) {
        None => {
            proof {
                if l.len() >= 5 {
                    assert(l.skip(4)[0] == l[4]);
                }
            }
            return None;
        },
        Some(x) => x,
    };
    assert(l.skip(4)[0] == l[4]);
    assert(l.skip(4).drop_first() =~= l.skip(5));
    assert(np as int == point_count(l));
    let (point_fields, p6) = match read_point_lines(text, p5, np) {
        None => {
            proof {
                let rest = l.skip(5);
                if l.len() >= 6 + np {
                    assert forall|i: int| 0 <= i < np implies #[trigger] rest[i] == point_lines(
                        l,
                    )[i] by {}
                }
            }
            return None;
        },
        Some(x) => x,
    };
    assert(l.skip(5).skip(np as int) =~= l.skip(5 + np));
    assert forall|i: int| 0 <= i < np implies #[trigger] point_lines(l)[i] == l.skip(5)[i] by {}
    let (nc, p7) = match read_count_line(text, p6) {
        None => {
            proof {
                if l.len() >= 6 + np {
                    assert(l.skip(5 + np)[0] == l[5 + np]);
                }
            }
            return None;
        },
        Some(x) => x,
    };
    assert(l.skip(5 + np)[0] == l[5 + np]);
    assert(l.skip(5 + np).drop_first() =~= l.skip(6 + np));
    assert(nc as int == cell_count(l));
    let (t0, t1, t2) = match read_cell_lines(text, p7, nc) {
        None => {
            proof {
                let rest = l.skip(6 + np);
                if l.len() >= 6 + np + nc {
                    assert forall|j: int| 0 <= j < nc implies #[trigger] rest[j] == cell_lines(
                        l,
                    )[j] by {}
                }
            }
            return None;
        },
        Some(x) => x,
    };
    proof {
        let pr = l.skip(5);
        let cr = l.skip(6 + np);
        assert(lines_from(text@, p7 as int) == cr);
        assert forall|i: int| 0 <= i < np implies spans_within(
            #[trigger] point_fields@[i]@,
            0,
            text@.len() as int,
        ) && spans_text(text@, point_fields@[i]@) == fields(point_lines(l)[i]) by {
            assert(point_lines(l)[i] == pr[i]);
        }
        assert forall|j: int| 0 <= j < nc implies #[trigger] t0@[j] == corner(cell_lines(l)[j], 1)
            && t1@[j] == corner(cell_lines(l)[j], 2) && t2@[j] == corner(cell_lines(l)[j], 3) by {
            assert(cell_lines(l)[j] == cr[j]);
            assert(t0@[j] == corner(cr[j], 1));
        }
    }
    Some(TriMeshText { point_fields, t0, t1, t2 })
}
} // verus!
