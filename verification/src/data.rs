//! Data set bookkeeping: the train/test split and the record layout of a CSV text.
use vstd::prelude::*;

verus! {

/// Number of samples that go to the training part: `n * train_perc / 100`.
pub open spec fn train_end(n: nat, train_perc: nat) -> nat {
    n * train_perc / 100
}

/// One past the last sample of the test part, which follows the training part and
/// holds `n * test_perc / 100` samples.
pub open spec fn test_end(n: nat, train_perc: nat, test_perc: nat) -> nat {
    train_end(n, train_perc) + n * test_perc / 100
}

/// Splits a data set into a training part and a test part: the first
/// `n * train_perc / 100` samples train, the next `n * test_perc / 100` samples
/// test, and any samples after those are left out. `n` is the number of points.
pub fn split_data<P, L>(train_perc: usize, test_perc: usize, points: Vec<P>, labels: Vec<L>) -> (res: (
    (Vec<P>, Vec<L>),
    (Vec<P>, Vec<L>),
))
    requires
        points.len() * train_perc <= usize::MAX,
        points.len() * test_perc <= usize::MAX,
        test_end(points.len() as nat, train_perc as nat, test_perc as nat) <= points.len(),
        test_end(points.len() as nat, train_perc as nat, test_perc as nat) <= labels.len(),
    ensures
        ({
            let a = train_end(points.len() as nat, train_perc as nat) as int;
            let b = test_end(points.len() as nat, train_perc as nat, test_perc as nat) as int;
            &&& res.0.0@ == points@.subrange(0, a)
            &&& res.0.1@ == labels@.subrange(0, a)
            &&& res.1.0@ == points@.subrange(a, b)
            &&& res.1.1@ == labels@.subrange(a, b)
        }),
        res.0.0.len() == points.len() * train_perc / 100,
        res.0.1.len() == points.len() * train_perc / 100,
        res.1.0.len() == points.len() * test_perc / 100,
        res.1.1.len() == points.len() * test_perc / 100,
        res.0.0@ == points@.subrange(0, (points.len() * train_perc / 100) as int),
        res.1.0@ == points@.subrange(
            (points.len() * train_perc / 100) as int,
            (points.len() * train_perc / 100 + points.len() * test_perc / 100) as int,
        ),
{
    let n = points.len();
    let train_stop = n * train_perc / 100;
    let test_stop = train_stop + n * test_perc / 100;
    let mut train_points = points;
    let mut train_labels = labels;
    train_points.truncate(test_stop);
    train_labels.truncate(test_stop);
    let test_points = train_points.split_off(train_stop);
    let test_labels = train_labels.split_off(train_stop);
    ((train_points, train_labels), (test_points, test_labels))
}

/// The training part holds `n * train_perc / 100` samples, rounded down, and the
/// test part `n * test_perc / 100`: each count times 100 is at most the product,
/// and one more sample would exceed it.
pub proof fn lemma_split_sizes(n: nat, train_perc: nat, test_perc: nat)
    ensures
        train_end(n, train_perc) * 100 <= n * train_perc < (train_end(n, train_perc) + 1) * 100,
        test_end(n, train_perc, test_perc) >= train_end(n, train_perc),
        ({
            let t = (test_end(n, train_perc, test_perc) - train_end(n, train_perc)) as nat;
            t * 100 <= n * test_perc < (t + 1) * 100
        }),
        train_perc == 100 ==> train_end(n, train_perc) == n,
{
    let p = n * train_perc;
    let q = n * test_perc;
    assert(0 <= p - (p / 100) * 100 < 100) by (nonlinear_arith);
    assert(0 <= q - (q / 100) * 100 < 100) by (nonlinear_arith);
    if train_perc == 100 {
        assert(n * 100 / 100 == n) by (nonlinear_arith);
    }
}

/// Byte that ends a line.
pub const NEWLINE: u8 = 10;

/// Byte that `BufRead::lines` strips in front of a line's newline.
pub const CARRIAGE_RETURN: u8 = 13;

/// Byte that separates the fields of a record.
pub const COMMA: u8 = 44;

/// The pieces of `s[lo..hi]` between the bytes equal to `sep`, as `(start, end)`
/// spans of `s`, in order; empty pieces count, so there is one more piece than
/// there are separators (Rust's `str::split`).
pub open spec fn pieces(s: Seq<u8>, sep: u8, lo: nat, hi: nat) -> Seq<(usize, usize)>
    decreases hi,
{
    if hi <= lo {
        seq![(lo as usize, lo as usize)]
    } else {
        let prev = pieces(s, sep, lo, (hi - 1) as nat);
        if s[hi - 1] == sep {
            prev.push((hi as usize, hi as usize))
        } else {
            prev.update(prev.len() - 1, (prev.last().0, hi as usize))
        }
    }
}

/// A line span loses one `'\r'` at its end.
pub open spec fn strip_cr(s: Seq<u8>, p: (usize, usize)) -> (usize, usize) {
    if p.0 < p.1 && s[p.1 - 1] == CARRIAGE_RETURN {
        (p.0, (p.1 - 1) as usize)
    } else {
        p
    }
}

/// The lines of a text as `BufRead::lines` yields them: the pieces between
/// newlines, without a last empty piece, and with a `'\r'` removed in front of
/// each newline.
pub open spec fn text_lines(s: Seq<u8>) -> Seq<(usize, usize)> {
    let raw = pieces(s, NEWLINE, 0, s.len());
    let body = raw.drop_last().map_values(|p: (usize, usize)| strip_cr(s, p));
    if raw.last().0 < raw.last().1 {
        body.push(raw.last())
    } else {
        body
    }
}

/// The lines that hold data: all lines, but the first when the text has a header.
pub open spec fn data_lines(s: Seq<u8>, has_header: bool) -> Seq<(usize, usize)> {
    let ls = text_lines(s);
    if has_header && ls.len() > 0 {
        ls.drop_first()
    } else {
        ls
    }
}

/// The comma-separated fields of a line.
pub open spec fn line_fields(s: Seq<u8>, line: (usize, usize)) -> Seq<(usize, usize)> {
    pieces(s, COMMA, line.0 as nat, line.1 as nat)
}

/// A line is a record when it has at least two fields: features, then a label.
pub open spec fn is_record(fields: Seq<(usize, usize)>) -> bool {
    fields.len() >= 2
}

/// `line_fields` of the text `s`, as a function of the line.
pub open spec fn fields_in(s: Seq<u8>) -> spec_fn((usize, usize)) -> Seq<(usize, usize)> {
    |p: (usize, usize)| line_fields(s, p)
}

/// `is_record`, as a function value.
pub open spec fn record_test() -> spec_fn(Seq<(usize, usize)>) -> bool {
    |f: Seq<(usize, usize)>| is_record(f)
}

/// The field spans of every record of a CSV text, in order.
pub open spec fn csv_layout(s: Seq<u8>, has_header: bool) -> Seq<Seq<(usize, usize)>> {
    data_lines(s, has_header).map_values(fields_in(s)).filter(record_test())
}

/// There is always at least one piece.
pub proof fn lemma_pieces_nonempty(s: Seq<u8>, sep: u8, lo: nat, hi: nat)
    ensures
        pieces(s, sep, lo, hi).len() >= 1,
    decreases hi,
{
    if hi > lo {
        lemma_pieces_nonempty(s, sep, lo, (hi - 1) as nat);
    }
}

/// Every piece is a span inside `lo..=hi`.
pub proof fn lemma_pieces_bounds(s: Seq<u8>, sep: u8, lo: nat, hi: nat)
    requires
        lo <= hi <= usize::MAX,
    ensures
        forall|t: int|
            0 <= t < pieces(s, sep, lo, hi).len() ==> lo <= (#[trigger] pieces(s, sep, lo, hi)[t]).0
                <= pieces(s, sep, lo, hi)[t].1 <= hi,
        pieces(s, sep, lo, hi).last().1 == hi,
    decreases hi,
{
    if hi > lo {
        lemma_pieces_bounds(s, sep, lo, (hi - 1) as nat);
        lemma_pieces_nonempty(s, sep, lo, (hi - 1) as nat);
    }
}

/// Splits `s[lo..hi]` at every byte equal to `sep`.
pub fn split_spans(s: &[u8], sep: u8, lo: usize, hi: usize) -> (res: Vec<(usize, usize)>)
    requires
        lo <= hi <= s.len(),
    ensures
        res@ == pieces(s@, sep, lo as nat, hi as nat),
{
    let mut done: Vec<(usize, usize)> = Vec::new();
    let mut cur: usize = lo;
    let mut i: usize = lo;
    while i < hi
        invariant
            lo <= cur <= i <= hi <= s.len(),
            done@.push((cur, i)) == pieces(s@, sep, lo as nat, i as nat),
        decreases hi - i,
    {
        let ghost prev = done@.push((cur, i));
        proof {
            lemma_pieces_nonempty(s@, sep, lo as nat, i as nat);
        }
        if s[i] == sep {
            done.push((cur, i));
            cur = i + 1;
            assert(done@.push((cur, (i + 1) as usize)) =~= prev.push(
                ((i + 1) as usize, (i + 1) as usize),
            ));
        } else {
            assert(done@.push((cur, (i + 1) as usize)) =~= prev.update(
                prev.len() - 1,
                (prev.last().0, (i + 1) as usize),
            ));
        }
        i = i + 1;
    }
    done.push((cur, hi));
    done
}

/// The spans of the lines of `text`, as `BufRead::lines` would give them.
pub fn line_spans(text: &[u8]) -> (res: Vec<(usize, usize)>)
    ensures
        res@ == text_lines(text@),
{
    let raw = split_spans(text, NEWLINE, 0, text.len());
    proof {
        lemma_pieces_nonempty(text@, NEWLINE, 0, text@.len());
        lemma_pieces_bounds(text@, NEWLINE, 0, text@.len());
    }
    let count = raw.len();
    let mut res: Vec<(usize, usize)> = Vec::new();
    let mut j: usize = 0;
    while j + 1 < count
        invariant
            raw@ == pieces(text@, NEWLINE, 0, text@.len()),
            count == raw.len() >= 1,
            j < count,
            res@ == raw@.take(j as int).map_values(|p: (usize, usize)| strip_cr(text@, p)),
            forall|t: int| 0 <= t < count ==> #[trigger] raw@[t].0 <= raw@[t].1 <= text.len(),
        decreases count - j,
    {
        let (a, b) = raw[j];
        let line = if a < b && text[b - 1] == CARRIAGE_RETURN {
            (a, b - 1)
        } else {
            (a, b)
        };
        res.push(line);
        j = j + 1;
        assert(res@ =~= raw@.take(j as int).map_values(|p: (usize, usize)| strip_cr(text@, p)));
    }
    let (a, b) = raw[count - 1];
    if a < b {
        res.push((a, b));
    }
    assert(raw@.take(j as int) =~= raw@.drop_last());
    res
}

/// The record layout of a CSV text, as the loader reads it: the lines of `text`,
/// without the first one when `has_header` holds, each split at its commas, and
/// only those with at least two fields (the last field is the label). Each record
/// is given as the `(start, end)` spans of its fields in `text`.
pub fn csv_records(text: &[u8], has_header: bool) -> (res: Vec<Vec<(usize, usize)>>)
    ensures
        res.len() == csv_layout(text@, has_header).len(),
        forall|i: int| 0 <= i < res.len() ==> (#[trigger] res@[i])@ == csv_layout(text@, has_header)[i],
        csv_layout(text@, has_header) == data_lines(text@, has_header).map_values(
            fields_in(text@),
        ).filter(|f: Seq<(usize, usize)>| f.len() >= 2),
{
    let text_len = text.len();
    let lines = line_spans(text);
    let ghost kept = data_lines(text@, has_header);
    let ghost fields_of = fields_in(text@);
    let ghost keep = record_test();
    proof {
        assert(text@.len() == text_len);
        lemma_lines_bounds(text@);
    }
    let first: usize = if has_header && lines.len() > 0 {
        1
    } else {
        0
    };
    assert(kept =~= lines@.subrange(first as int, lines@.len() as int));
    let mut res: Vec<Vec<(usize, usize)>> = Vec::new();
    let ghost mut out: Seq<Seq<(usize, usize)>> = Seq::empty();
    let mut j: usize = first;
    while j < lines.len()
        invariant
            first <= j <= lines.len(),
            kept == lines@.subrange(first as int, lines@.len() as int),
            fields_of == fields_in(text@),
            keep == record_test(),
            forall|t: int|
                0 <= t < lines.len() ==> (#[trigger] lines@[t]).0 <= lines@[t].1 <= text.len(),
            out == kept.take(j - first).map_values(fields_of).filter(keep),
            res.len() == out.len(),
            forall|i: int| 0 <= i < res.len() ==> (#[trigger] res@[i])@ == out[i],
        decreases lines.len() - j,
    {
        let (a, b) = lines[j];
        let fields = split_spans(text, COMMA, a, b);
        proof {
            assert(kept[j - first] == lines@[j as int]);
            lemma_map_filter_step(kept, fields_of, keep, j - first);
        }
        if fields.len() >= 2 {
            res.push(fields);
            proof {
                out = out.push(fields@);
            }
        }
        j = j + 1;
    }
    assert(kept.take(j - first) =~= kept);
    proof {
        lemma_records_are_lines_with_two_fields(text@, has_header);
    }
    res
}

/// Every line is a span inside the text.
pub proof fn lemma_lines_bounds(s: Seq<u8>)
    requires
        s.len() <= usize::MAX,
    ensures
        forall|t: int|
            0 <= t < text_lines(s).len() ==> (#[trigger] text_lines(s)[t]).0 <= text_lines(s)[t].1
                <= s.len(),
{
    lemma_pieces_nonempty(s, NEWLINE, 0, s.len());
    lemma_pieces_bounds(s, NEWLINE, 0, s.len());
    let raw = pieces(s, NEWLINE, 0, s.len());
    assert forall|t: int| 0 <= t < text_lines(s).len() implies (#[trigger] text_lines(s)[t]).0
        <= text_lines(s)[t].1 <= s.len() by {
        if t < raw.len() - 1 {
            assert(text_lines(s)[t] == strip_cr(s, raw[t]));
        } else {
            assert(text_lines(s)[t] == raw.last());
        }
    }
}

/// Mapping then filtering one more element of `xs` extends the result by that
/// element's image exactly when the image passes the filter.
proof fn lemma_map_filter_step<A, B>(
    xs: Seq<A>,
    f: spec_fn(A) -> B,
    keep: spec_fn(B) -> bool,
    m: int,
)
    requires
        0 <= m < xs.len(),
    ensures
        xs.take(m + 1).map_values(f).filter(keep) == if keep(f(xs[m])) {
            xs.take(m).map_values(f).filter(keep).push(f(xs[m]))
        } else {
            xs.take(m).map_values(f).filter(keep)
        },
{
    let before = xs.take(m).map_values(f);
    let after = xs.take(m + 1).map_values(f);
    assert(after =~= before.push(f(xs[m])));
    assert(after.drop_last() =~= before);
    reveal(Seq::filter);
}

/// No byte of the span `p` of `s` equals `b`.
pub open spec fn span_avoids(s: Seq<u8>, p: (usize, usize), b: u8) -> bool {
    forall|x: int| p.0 <= x < p.1 ==> #[trigger] s[x] != b
}

/// No piece holds the separator.
pub proof fn lemma_pieces_avoid_sep(s: Seq<u8>, sep: u8, lo: nat, hi: nat)
    requires
        lo <= hi <= usize::MAX,
    ensures
        forall|t: int|
            0 <= t < pieces(s, sep, lo, hi).len() ==> span_avoids(
                s,
                #[trigger] pieces(s, sep, lo, hi)[t],
                sep,
            ),
    decreases hi,
{
    if hi > lo {
        lemma_pieces_avoid_sep(s, sep, lo, (hi - 1) as nat);
        lemma_pieces_nonempty(s, sep, lo, (hi - 1) as nat);
        lemma_pieces_bounds(s, sep, lo, (hi - 1) as nat);
        let prev = pieces(s, sep, lo, (hi - 1) as nat);
        let cur = pieces(s, sep, lo, hi);
        assert forall|t: int| 0 <= t < cur.len() implies span_avoids(s, #[trigger] cur[t], sep) by {
            if t < prev.len() - 1 {
                assert(cur[t] == prev[t]);
            } else if t == prev.len() - 1 && s[hi - 1] != sep {
                assert(span_avoids(s, prev[t], sep));
                assert forall|x: int| cur[t].0 <= x < cur[t].1 implies #[trigger] s[x] != sep by {
                    if x < hi - 1 {
                        assert(prev[t].1 == hi - 1);
                    }
                }
            } else if t == prev.len() - 1 {
                assert(cur[t] == prev[t]);
            }
        }
    }
}

/// Every record of the layout has at least two fields, and every field is a span
/// of the text that holds neither a comma nor a newline.
pub proof fn lemma_csv_fields_clean(s: Seq<u8>, has_header: bool)
    requires
        s.len() <= usize::MAX,
    ensures
        forall|r: int|
            0 <= r < csv_layout(s, has_header).len() ==> {
                let rec = #[trigger] csv_layout(s, has_header)[r];
                &&& rec.len() >= 2
                &&& forall|f: int|
                    0 <= f < rec.len() ==> {
                        &&& (#[trigger] rec[f]).0 <= rec[f].1 <= s.len()
                        &&& span_avoids(s, rec[f], COMMA)
                        &&& span_avoids(s, rec[f], NEWLINE)
                    }
            },
{
    let layout = csv_layout(s, has_header);
    let kept = data_lines(s, has_header);
    let mapped = kept.map_values(fields_in(s));
    lemma_lines_clean(s);
    assert forall|r: int| 0 <= r < layout.len() implies {
        let rec = #[trigger] layout[r];
        &&& rec.len() >= 2
        &&& forall|f: int|
            0 <= f < rec.len() ==> {
                &&& (#[trigger] rec[f]).0 <= rec[f].1 <= s.len()
                &&& span_avoids(s, rec[f], COMMA)
                &&& span_avoids(s, rec[f], NEWLINE)
            }
    } by {
        let rec = layout[r];
        mapped.lemma_filter_pred(record_test(), r);
        assert(layout.contains(rec));
        mapped.lemma_filter_contains_rev(record_test(), rec);
        let w = choose|w: int| 0 <= w < mapped.len() && mapped[w] == rec;
        let line = kept[w];
        assert(rec == line_fields(s, line));
        assert(text_lines(s).contains(line)) by {
            if has_header && text_lines(s).len() > 0 {
                assert(line == text_lines(s)[w + 1]);
            } else {
                assert(line == text_lines(s)[w]);
            }
        }
        let v = choose|v: int| 0 <= v < text_lines(s).len() && text_lines(s)[v] == line;
        assert(line.0 <= line.1 <= s.len() && span_avoids(s, text_lines(s)[v], NEWLINE));
        lemma_pieces_bounds(s, COMMA, line.0 as nat, line.1 as nat);
        lemma_pieces_avoid_sep(s, COMMA, line.0 as nat, line.1 as nat);
        assert forall|f: int| 0 <= f < rec.len() implies {
            &&& (#[trigger] rec[f]).0 <= rec[f].1 <= s.len()
            &&& span_avoids(s, rec[f], COMMA)
            &&& span_avoids(s, rec[f], NEWLINE)
        } by {
            assert forall|x: int| rec[f].0 <= x < rec[f].1 implies #[trigger] s[x] != NEWLINE by {
                assert(line.0 <= x < line.1);
            }
        }
    }
}

/// Every line is a span of the text without a newline.
pub proof fn lemma_lines_clean(s: Seq<u8>)
    requires
        s.len() <= usize::MAX,
    ensures
        forall|t: int|
            0 <= t < text_lines(s).len() ==> (#[trigger] text_lines(s)[t]).0 <= text_lines(s)[t].1
                <= s.len() && span_avoids(s, text_lines(s)[t], NEWLINE),
{
    lemma_lines_bounds(s);
    lemma_pieces_nonempty(s, NEWLINE, 0, s.len());
    lemma_pieces_bounds(s, NEWLINE, 0, s.len());
    lemma_pieces_avoid_sep(s, NEWLINE, 0, s.len());
    let raw = pieces(s, NEWLINE, 0, s.len());
    assert forall|t: int| 0 <= t < text_lines(s).len() implies span_avoids(
        s,
        #[trigger] text_lines(s)[t],
        NEWLINE,
    ) by {
        if t < raw.len() - 1 {
            assert(text_lines(s)[t] == strip_cr(s, raw[t]));
            assert(span_avoids(s, raw[t], NEWLINE));
        } else {
            assert(text_lines(s)[t] == raw.last());
            assert(span_avoids(s, raw[raw.len() - 1], NEWLINE));
        }
    }
}

/// The spans `ps` moved `d` bytes to the right.
pub open spec fn shift_spans(ps: Seq<(usize, usize)>, d: nat) -> Seq<(usize, usize)> {
    ps.map_values(|p: (usize, usize)| ((p.0 + d) as usize, (p.1 + d) as usize))
}

/// `shift_spans` by `d`, as a function of a record.
pub open spec fn record_shift(d: nat) -> spec_fn(Seq<(usize, usize)>) -> Seq<(usize, usize)> {
    |r: Seq<(usize, usize)>| shift_spans(r, d)
}

/// A stretch without a separator is a single piece.
proof fn lemma_pieces_single(s: Seq<u8>, sep: u8, lo: nat, hi: nat)
    requires
        lo <= hi <= usize::MAX,
        forall|x: int| lo <= x < hi ==> #[trigger] s[x] != sep,
    ensures
        pieces(s, sep, lo, hi) == seq![(lo as usize, hi as usize)],
    decreases hi,
{
    if hi > lo {
        lemma_pieces_single(s, sep, lo, (hi - 1) as nat);
        assert(s[hi - 1] != sep);
        assert(pieces(s, sep, lo, hi) =~= seq![(lo as usize, hi as usize)]);
    }
}

/// Splitting behind a prefix `pre` is splitting the rest and moving the spans.
proof fn lemma_pieces_shift(pre: Seq<u8>, t: Seq<u8>, sep: u8, lo: nat, hi: nat)
    requires
        lo <= hi <= t.len(),
        pre.len() + t.len() <= usize::MAX,
    ensures
        pieces(pre + t, sep, lo + pre.len(), hi + pre.len()) == shift_spans(
            pieces(t, sep, lo, hi),
            pre.len(),
        ),
    decreases hi,
{
    let s = pre + t;
    let d = pre.len();
    if hi == lo {
        assert(pieces(s, sep, lo + d, hi + d) =~= shift_spans(pieces(t, sep, lo, hi), d));
    } else {
        let h1 = (hi - 1) as nat;
        lemma_pieces_shift(pre, t, sep, lo, h1);
        lemma_pieces_nonempty(t, sep, lo, h1);
        lemma_pieces_bounds(t, sep, lo, h1);
        assert(s[hi + d - 1] == t[hi - 1]);
        assert(((hi + d) - 1) as nat == h1 + d);
        let prev = pieces(t, sep, lo, h1);
        if t[hi - 1] == sep {
            assert(pieces(s, sep, lo + d, hi + d) =~= shift_spans(prev.push((hi as usize, hi as usize)), d));
        } else {
            assert(pieces(s, sep, lo + d, hi + d) =~= shift_spans(
                prev.update(prev.len() - 1, (prev.last().0, hi as usize)),
                d,
            ));
        }
    }
}

/// The newline-separated pieces of `h + "\n" + rest`, up to `hi` bytes into
/// `rest`, are `h` followed by the pieces of `rest` moved past `h` and its newline.
proof fn lemma_pieces_after_line(h: Seq<u8>, rest: Seq<u8>, hi: nat)
    requires
        forall|x: int| 0 <= x < h.len() ==> #[trigger] h[x] != NEWLINE,
        hi <= rest.len(),
        h.len() + 1 + rest.len() <= usize::MAX,
    ensures
        pieces(h.push(NEWLINE) + rest, NEWLINE, 0, h.len() + 1 + hi) == seq![
            (0usize, h.len() as usize),
        ] + shift_spans(pieces(rest, NEWLINE, 0, hi), h.len() + 1),
    decreases hi,
{
    let s = h.push(NEWLINE) + rest;
    let d = h.len() + 1;
    if hi == 0 {
        assert forall|x: int| 0 <= x < h.len() implies #[trigger] s[x] != NEWLINE by {
            assert(s[x] == h[x]);
        }
        lemma_pieces_single(s, NEWLINE, 0, h.len());
        assert(s[h.len() as int] == NEWLINE);
        assert(pieces(s, NEWLINE, 0, d) =~= seq![(0usize, h.len() as usize)] + shift_spans(
            pieces(rest, NEWLINE, 0, 0),
            d,
        ));
    } else {
        let h1 = (hi - 1) as nat;
        lemma_pieces_after_line(h, rest, h1);
        lemma_pieces_nonempty(rest, NEWLINE, 0, h1);
        lemma_pieces_bounds(rest, NEWLINE, 0, h1);
        assert(s[d + hi - 1] == rest[hi - 1]);
        assert(((d + hi) - 1) as nat == d + h1);
        let prev = pieces(rest, NEWLINE, 0, h1);
        let head = seq![(0usize, h.len() as usize)];
        if rest[hi - 1] == NEWLINE {
            assert(pieces(s, NEWLINE, 0, d + hi) =~= head + shift_spans(
                prev.push((hi as usize, hi as usize)),
                d,
            ));
        } else {
            assert(pieces(s, NEWLINE, 0, d + hi) =~= head + shift_spans(
                prev.update(prev.len() - 1, (prev.last().0, hi as usize)),
                d,
            ));
        }
    }
}

/// Behind a header line, the data lines are the lines of the rest, moved.
proof fn lemma_lines_after_header(h: Seq<u8>, rest: Seq<u8>)
    requires
        forall|x: int| 0 <= x < h.len() ==> #[trigger] h[x] != NEWLINE,
        h.len() + 1 + rest.len() <= usize::MAX,
    ensures
        data_lines(h.push(NEWLINE) + rest, true) == shift_spans(text_lines(rest), h.len() + 1),
{
    let s = h.push(NEWLINE) + rest;
    let d = h.len() + 1;
    assert(s.len() == d + rest.len());
    lemma_pieces_after_line(h, rest, rest.len());
    lemma_pieces_nonempty(rest, NEWLINE, 0, rest.len());
    lemma_pieces_bounds(rest, NEWLINE, 0, rest.len());
    let raw_r = pieces(rest, NEWLINE, 0, rest.len());
    let raw_s = pieces(s, NEWLINE, 0, s.len());
    let head = seq![(0usize, h.len() as usize)];
    assert(raw_s == head + shift_spans(raw_r, d));
    let sh = shift_spans(raw_r, d);
    assert(raw_s.last() == sh.last());
    assert(raw_s.drop_last() =~= head + sh.drop_last());
    let strip_s = |p: (usize, usize)| strip_cr(s, p);
    let strip_r = |p: (usize, usize)| strip_cr(rest, p);
    let body_s = raw_s.drop_last().map_values(strip_s);
    let body_r = raw_r.drop_last().map_values(strip_r);
    assert forall|t: int| 0 <= t < body_r.len() implies #[trigger] body_s[t + 1] == shift_spans(
        body_r,
        d,
    )[t] by {
        let p = raw_r[t];
        assert(raw_s.drop_last()[t + 1] == sh[t]);
        assert(s[p.1 + d - 1] == rest[p.1 - 1] || p.1 == 0);
        if p.0 < p.1 {
            assert(s[p.1 + d - 1] == rest[p.1 - 1]);
        }
    }
    let tl_s = text_lines(s);
    let tl_r = text_lines(rest);
    assert(tl_s.len() == tl_r.len() + 1);
    assert(tl_s.drop_first() =~= shift_spans(tl_r, d)) by {
        assert forall|t: int| 0 <= t < tl_r.len() implies #[trigger] tl_s.drop_first()[t]
            == shift_spans(tl_r, d)[t] by {
            if t < body_r.len() {
                assert(tl_s[t + 1] == body_s[t + 1]);
            } else {
                assert(tl_s[t + 1] == raw_s.last());
            }
        }
    }
}

/// Filtering commutes with a map that the filter cannot tell apart.
proof fn lemma_filter_map_commute<A>(xs: Seq<A>, g: spec_fn(A) -> A, keep: spec_fn(A) -> bool)
    requires
        forall|x: A| #[trigger] keep(g(x)) == keep(x),
    ensures
        xs.map_values(g).filter(keep) == xs.filter(keep).map_values(g),
    decreases xs.len(),
{
    reveal(Seq::filter);
    if xs.len() > 0 {
        let init = xs.drop_last();
        lemma_filter_map_commute(init, g, keep);
        assert(xs.map_values(g).drop_last() =~= init.map_values(g));
        assert(xs.map_values(g).last() == g(xs.last()));
        if keep(xs.last()) {
            assert(xs.filter(keep).map_values(g) =~= init.filter(keep).map_values(g).push(g(xs.last())));
        }
    } else {
        assert(xs.map_values(g) =~= Seq::<A>::empty());
        assert(xs.filter(keep).map_values(g) =~= Seq::<A>::empty());
    }
}

/// A header line is dropped unread, whatever it holds: reading `h + "\n" + rest`
/// with a header gives the records of `rest` read without one, field for field,
/// with the same texts (their spans moved past the header line).
pub proof fn lemma_header_line_dropped(h: Seq<u8>, rest: Seq<u8>)
    requires
        forall|x: int| 0 <= x < h.len() ==> #[trigger] h[x] != NEWLINE,
        h.len() + 1 + rest.len() <= usize::MAX,
    ensures
        csv_layout(h.push(NEWLINE) + rest, true) == csv_layout(rest, false).map_values(
            record_shift(h.len() + 1),
        ),
        csv_layout(h.push(NEWLINE) + rest, true).len() == csv_layout(rest, false).len(),
        forall|r: int|
            0 <= r < csv_layout(rest, false).len() ==> (#[trigger] csv_layout(
                h.push(NEWLINE) + rest,
                true,
            )[r]).len() == csv_layout(rest, false)[r].len() && forall|f: int|
                0 <= f < csv_layout(rest, false)[r].len() ==> {
                    let a = #[trigger] csv_layout(h.push(NEWLINE) + rest, true)[r][f];
                    let b = csv_layout(rest, false)[r][f];
                    (h.push(NEWLINE) + rest).subrange(a.0 as int, a.1 as int) == rest.subrange(
                        b.0 as int,
                        b.1 as int,
                    )
                },
{
    let s = h.push(NEWLINE) + rest;
    let pre = h.push(NEWLINE);
    let d = h.len() + 1;
    lemma_lines_after_header(h, rest);
    lemma_lines_bounds(rest);
    let tl = text_lines(rest);
    assert(data_lines(rest, false) == tl);
    let a_r = tl.map_values(fields_in(rest));
    let a_s = shift_spans(tl, d).map_values(fields_in(s));
    assert forall|t: int| 0 <= t < tl.len() implies #[trigger] a_s[t] == record_shift(d)(a_r[t]) by {
        let p = tl[t];
        lemma_pieces_shift(pre, rest, COMMA, p.0 as nat, p.1 as nat);
        assert(shift_spans(tl, d)[t] == ((p.0 + d) as usize, (p.1 + d) as usize));
    }
    assert(a_s =~= a_r.map_values(record_shift(d)));
    assert forall|x: Seq<(usize, usize)>| #[trigger] record_test()(record_shift(d)(x)) == record_test()(
        x,
    ) by {
        assert(shift_spans(x, d).len() == x.len());
    }
    lemma_filter_map_commute(a_r, record_shift(d), record_test());
    let lay_s = csv_layout(s, true);
    let lay_r = csv_layout(rest, false);
    assert(lay_s == lay_r.map_values(record_shift(d)));
    lemma_csv_fields_clean(rest, false);
    assert forall|r: int| 0 <= r < lay_r.len() implies (#[trigger] lay_s[r]).len() == lay_r[r].len()
        && forall|f: int|
        0 <= f < lay_r[r].len() ==> {
            let a = #[trigger] lay_s[r][f];
            let b = lay_r[r][f];
            s.subrange(a.0 as int, a.1 as int) == rest.subrange(b.0 as int, b.1 as int)
        } by {
        assert(lay_s[r] == shift_spans(lay_r[r], d));
        assert forall|f: int| 0 <= f < lay_r[r].len() implies {
            let a = #[trigger] lay_s[r][f];
            let b = lay_r[r][f];
            s.subrange(a.0 as int, a.1 as int) == rest.subrange(b.0 as int, b.1 as int)
        } by {
            let a = lay_s[r][f];
            let b = lay_r[r][f];
            assert(b.0 <= b.1 <= rest.len());
            assert(a.0 == b.0 + d && a.1 == b.1 + d);
            assert(s.subrange(a.0 as int, a.1 as int) =~= rest.subrange(b.0 as int, b.1 as int));
        }
    }
}

/// There is one more piece than there are separators between `lo` and `hi`.
pub proof fn lemma_pieces_count(s: Seq<u8>, sep: u8, lo: nat, hi: nat)
    requires
        lo <= hi,
    ensures
        pieces(s, sep, lo, hi).len() == 1 + Seq::new((hi - lo) as nat, |j: int| lo + j).filter(
            |x: int| s[x] == sep,
        ).len(),
    decreases hi,
{
    reveal(Seq::filter);
    let pos = Seq::new((hi - lo) as nat, |j: int| lo + j);
    if hi == lo {
        assert(pos.filter(|x: int| s[x] == sep) =~= Seq::<int>::empty());
    } else {
        let h1 = (hi - 1) as nat;
        lemma_pieces_count(s, sep, lo, h1);
        lemma_pieces_nonempty(s, sep, lo, h1);
        assert(pos.drop_last() =~= Seq::new((h1 - lo) as nat, |j: int| lo + j));
        assert(pos.last() == hi - 1);
    }
}

/// A record is any data line with at least two comma-separated fields, however
/// many it has; no other line is one.
pub proof fn lemma_records_are_lines_with_two_fields(s: Seq<u8>, has_header: bool)
    ensures
        csv_layout(s, has_header) == data_lines(s, has_header).map_values(fields_in(s)).filter(
            |f: Seq<(usize, usize)>| f.len() >= 2,
        ),
{
    assert(record_test() =~= (|f: Seq<(usize, usize)>| f.len() >= 2));
}

/// A text of one line of bytes `t[0..len]`, with neither newline nor carriage
/// return and optionally ended by a newline, read without a header, holds one
/// record exactly when the line has a comma; that record has one field more
/// than the line has commas, from the start of the line to its end.
pub proof fn lemma_single_line_record(t: Seq<u8>, len: nat)
    requires
        len > 0,
        t.len() <= usize::MAX,
        t.len() == len || (t.len() == len + 1 && t[len as int] == NEWLINE),
        forall|x: int| 0 <= x < len ==> #[trigger] t[x] != NEWLINE && t[x] != CARRIAGE_RETURN,
    ensures
        ({
            let commas = Seq::new(len, |i: int| i).filter(|i: int| t[i] == COMMA).len();
            let layout = csv_layout(t, false);
            &&& commas == 0 ==> layout.len() == 0
            &&& commas > 0 ==> layout.len() == 1 && layout[0].len() == commas + 1 && layout[0][0].0
                == 0 && layout[0].last().1 == len
        }),
{
    reveal(Seq::filter);
    lemma_pieces_single(t, NEWLINE, 0, len);
    if t.len() == len {
        assert(text_lines(t) =~= seq![(0usize, len as usize)]);
    } else {
        assert(pieces(t, NEWLINE, 0, len + 1) == pieces(t, NEWLINE, 0, len).push(
            ((len + 1) as usize, (len + 1) as usize),
        ));
        assert(text_lines(t) =~= seq![(0usize, len as usize)]);
    }
    assert(data_lines(t, false) == seq![(0usize, len as usize)]);
    let fields = pieces(t, COMMA, 0, len);
    assert(data_lines(t, false).map_values(fields_in(t)) =~= seq![fields]);
    lemma_pieces_count(t, COMMA, 0, len);
    lemma_pieces_bounds(t, COMMA, 0, len);
    lemma_pieces_nonempty(t, COMMA, 0, len);
    let pos = Seq::new(len, |i: int| i);
    assert(Seq::new((len - 0) as nat, |j: int| 0 + j) =~= pos);
    assert((|x: int| t[x] == COMMA) =~= (|i: int| t[i] == COMMA));
    let one = seq![fields];
    assert(one.drop_last() =~= Seq::<Seq<(usize, usize)>>::empty());
    assert(Seq::<Seq<(usize, usize)>>::empty().filter(record_test()) =~= Seq::<
        Seq<(usize, usize)>,
    >::empty());
    if fields.len() >= 2 {
        assert(one.filter(record_test()) =~= seq![fields]);
        // the first piece starts the line; it is the one whose start is 0
        lemma_first_piece_start(t, COMMA, 0, len);
    } else {
        assert(one.filter(record_test()) =~= Seq::<Seq<(usize, usize)>>::empty());
    }
}

/// The first piece starts at `lo`.
proof fn lemma_first_piece_start(s: Seq<u8>, sep: u8, lo: nat, hi: nat)
    requires
        lo <= hi <= usize::MAX,
    ensures
        pieces(s, sep, lo, hi)[0].0 == lo,
    decreases hi,
{
    if hi > lo {
        lemma_first_piece_start(s, sep, lo, (hi - 1) as nat);
        lemma_pieces_nonempty(s, sep, lo, (hi - 1) as nat);
    }
}

} // verus!
