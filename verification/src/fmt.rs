//! Rendering an [`Execution`] as stacked timeline tables.
//!
//! The init and post parts become single-column tables; the parallel
//! part becomes one column per thread, where each invocation's cell
//! spans the rows of its timestamp interval and empty gap cells fill
//! the rows in between. The row geometry — proved in
//! [`build_thread_spans`] against [`layout_from`] — makes overlapping
//! invocations occupy overlapping row ranges; the glyphs and widths
//! around it are cosmetic.

use vstd::prelude::*;
use vstd::string::StrSliceExecFns;
use vstd::string::StringExecFns;

use crate::execution::Execution;
use crate::execution::History;
use crate::execution::ParallelHistory;
use crate::execution::ParallelInvocation;
use crate::execution::thread_records;
use crate::recorder::thread_history_wf;

verus! {

/// A vertical run of table cells: `len_in_cells` cells high, holding
/// either one rendered invocation or nothing (a gap).
pub struct CellsSpan {
    /// The height of the span, in cells.
    pub len_in_cells: usize,
    /// The rendered invocation, or `None` for a gap.
    pub content: Option<String>,
}

/// One column of a table: a header and its spans, top to bottom.
pub struct Column {
    /// The column's header text.
    pub header: String,
    /// The column's spans, top to bottom.
    pub spans: Vec<CellsSpan>,
}

/// A table of columns rendered side by side.
pub struct Table {
    /// The number of text lines a single cell is high.
    pub cell_height: usize,
    /// The columns, left to right.
    pub columns: Vec<Column>,
}

impl CellsSpan {
    /// Creates a span of the given height. The content must be a
    /// single line, so that it occupies exactly one of the span's
    /// rows; the renderers establish this by truncating a rendered
    /// invocation at its first newline (see [`first_line`]).
    pub fn new(len_in_cells: usize, content: Option<String>) -> (r: CellsSpan)
        requires
            len_in_cells > 0,
            content is Some ==> single_line_text((content->Some_0)@),
        ensures
            r.len_in_cells == len_in_cells,
            r.content == content,
    {
        CellsSpan { len_in_cells, content }
    }

    /// The number of text lines the span occupies, excluding the
    /// separator line that follows it.
    pub fn len_in_lines(&self, cell_height: usize) -> (r: usize)
        requires
            self.len_in_cells >= 1,
            cell_height >= 1,
            self.len_in_cells * cell_height <= usize::MAX,
        ensures
            r == self.len_in_cells * cell_height - 1,
    {
        proof {
            assert(self.len_in_cells * cell_height >= 1) by (nonlinear_arith)
                requires
                    self.len_in_cells >= 1,
                    cell_height >= 1,
            ;
        }
        self.len_in_cells * cell_height - 1
    }
}

/// The geometry of one span: its height in cells and whether it holds
/// an invocation (as opposed to being an empty gap).
pub open spec fn span_shape(s: CellsSpan) -> (int, bool) {
    (s.len_in_cells as int, s.content is Some)
}

/// The column geometry a thread's records prescribe, with one cell row
/// per timestamp. Reading downward from row `prev` (exclusive) to row
/// `last` (inclusive): a gap up to each record's call row, a content
/// span covering exactly the rows from its call timestamp to its
/// return timestamp, and a final gap after the last record.
pub open spec fn layout_from<Op, Ret>(
    invs: Seq<ParallelInvocation<Op, Ret>>,
    prev: int,
    last: int,
) -> Seq<(int, bool)>
    decreases invs.len(),
{
    if invs.len() == 0 {
        if prev < last {
            seq![(last - prev, false)]
        } else {
            Seq::empty()
        }
    } else {
        let inv = invs[0];
        let rest = layout_from(invs.drop_first(), inv.return_timestamp as int, last);
        let content = seq![
            (inv.return_timestamp - inv.call_timestamp + 1, true),
        ] + rest;
        if inv.call_timestamp > prev + 1 {
            seq![(inv.call_timestamp - prev - 1, false)] + content
        } else {
            content
        }
    }
}

/// The total number of cell rows a sequence of span shapes covers.
pub open spec fn row_total(lay: Seq<(int, bool)>) -> int
    decreases lay.len(),
{
    if lay.len() == 0 {
        0
    } else {
        lay[0].0 + row_total(lay.drop_first())
    }
}

/// The starting row and height of each content span of `lay`, in
/// order, when `lay`'s first row is `offset`.
pub open spec fn content_rows(lay: Seq<(int, bool)>, offset: int) -> Seq<(int, int)>
    decreases lay.len(),
{
    if lay.len() == 0 {
        Seq::empty()
    } else if lay[0].1 {
        seq![(offset, lay[0].0)] + content_rows(lay.drop_first(), offset + lay[0].0)
    } else {
        content_rows(lay.drop_first(), offset + lay[0].0)
    }
}

/// `content_rows` distributes over concatenation, the offset advancing
/// by the rows of the first part.
proof fn lemma_content_rows_add(a: Seq<(int, bool)>, b: Seq<(int, bool)>, offset: int)
    ensures
        content_rows(a + b, offset) == content_rows(a, offset) + content_rows(
            b,
            offset + row_total(a),
        ),
    decreases a.len(),
{
    if a.len() == 0 {
        assert(a + b =~= b);
        assert(content_rows(a, offset) =~= Seq::<(int, int)>::empty());
        assert(content_rows(a, offset) + content_rows(b, offset + row_total(a)) =~= content_rows(
            b,
            offset,
        ));
    } else {
        assert((a + b)[0] == a[0]);
        assert((a + b).drop_first() =~= a.drop_first() + b);
        lemma_content_rows_add(a.drop_first(), b, offset + a[0].0);
        assert(content_rows(a + b, offset) =~= content_rows(a, offset) + content_rows(
            b,
            offset + row_total(a),
        ));
    }
}

/// The row coordinates of a rendered column, and with them the one
/// binding property of the timeline: in the layout of a thread's
/// records, the `k`-th content span starts exactly at row
/// `call_timestamp` and is `return_timestamp - call_timestamp + 1`
/// rows high — each invocation covers exactly the rows of its
/// timestamp interval, so two invocations overlap in row coordinates
/// iff their timestamp intervals overlap.
pub proof fn lemma_layout_content_rows<Op, Ret>(
    invs: Seq<ParallelInvocation<Op, Ret>>,
    prev: int,
    last: int,
)
    requires
        forall|k: int| 0 <= k < invs.len()
            ==> (#[trigger] invs[k]).call_timestamp < invs[k].return_timestamp,
        forall|k: int| 0 <= k && k + 1 < invs.len()
            ==> (#[trigger] invs[k]).return_timestamp < invs[k + 1].call_timestamp,
        invs.len() > 0 ==> prev < invs[0].call_timestamp,
    ensures
        content_rows(layout_from(invs, prev, last), prev + 1) == invs.map_values(
            |inv: ParallelInvocation<Op, Ret>| (
                inv.call_timestamp as int,
                inv.return_timestamp - inv.call_timestamp + 1,
            ),
        ),
    decreases invs.len(),
{
    let f = |inv: ParallelInvocation<Op, Ret>| (
        inv.call_timestamp as int,
        inv.return_timestamp - inv.call_timestamp + 1,
    );
    if invs.len() == 0 {
        if prev < last {
            assert(layout_from(invs, prev, last) == seq![(last - prev, false)]);
            assert(seq![(last - prev, false)].drop_first() =~= Seq::<(int, bool)>::empty());
            assert(content_rows(Seq::<(int, bool)>::empty(), prev + 1 + (last - prev))
                =~= Seq::<(int, int)>::empty());
            assert(content_rows(layout_from(invs, prev, last), prev + 1) =~= invs.map_values(f));
        } else {
            assert(content_rows(layout_from(invs, prev, last), prev + 1) =~= invs.map_values(f));
        }
    } else {
        let inv0 = invs[0];
        let rest_invs = invs.drop_first();
        let rest = layout_from(rest_invs, inv0.return_timestamp as int, last);
        let content = seq![(inv0.return_timestamp - inv0.call_timestamp + 1, true)] + rest;
        assert forall|k: int| 0 <= k && k + 1 < rest_invs.len()
            implies (#[trigger] rest_invs[k]).return_timestamp
                < rest_invs[k + 1].call_timestamp by {
            assert(rest_invs[k] == invs[k + 1]);
            assert(rest_invs[k + 1] == invs[k + 2]);
        }
        lemma_layout_content_rows(rest_invs, inv0.return_timestamp as int, last);
        lemma_content_rows_add(
            seq![(inv0.return_timestamp - inv0.call_timestamp + 1, true)],
            rest,
            inv0.call_timestamp as int,
        );
        let c0 = seq![(inv0.return_timestamp - inv0.call_timestamp + 1, true)];
        assert(c0.drop_first() =~= Seq::<(int, bool)>::empty());
        assert(row_total(Seq::<(int, bool)>::empty()) == 0);
        assert(row_total(c0) == inv0.return_timestamp - inv0.call_timestamp + 1);
        assert(content_rows(
            Seq::<(int, bool)>::empty(),
            inv0.call_timestamp + (inv0.return_timestamp - inv0.call_timestamp + 1),
        ) =~= Seq::<(int, int)>::empty());
        assert(content_rows(c0, inv0.call_timestamp as int) =~= seq![
            (inv0.call_timestamp as int, inv0.return_timestamp - inv0.call_timestamp + 1),
        ]);
        assert(inv0.call_timestamp + row_total(c0) == inv0.return_timestamp + 1);
        assert(content_rows(content, inv0.call_timestamp as int) =~= seq![
            (inv0.call_timestamp as int, inv0.return_timestamp - inv0.call_timestamp + 1),
        ] + content_rows(rest, inv0.return_timestamp + 1));
        assert(invs.map_values(f) =~= seq![f(inv0)] + rest_invs.map_values(f));
        if inv0.call_timestamp > prev + 1 {
            let gap = seq![(inv0.call_timestamp - prev - 1, false)];
            lemma_content_rows_add(gap, content, prev + 1);
            assert(gap.drop_first() =~= Seq::<(int, bool)>::empty());
            assert(content_rows(
                Seq::<(int, bool)>::empty(),
                prev + 1 + (inv0.call_timestamp - prev - 1),
            ) =~= Seq::<(int, int)>::empty());
            assert(content_rows(gap, prev + 1) =~= Seq::<(int, int)>::empty());
            assert(row_total(gap) == inv0.call_timestamp - prev - 1);
            assert(content_rows(layout_from(invs, prev, last), prev + 1) =~= invs.map_values(f));
        } else {
            assert(layout_from(invs, prev, last) == content);
            assert(prev + 1 == inv0.call_timestamp as int);
            assert(content_rows(layout_from(invs, prev, last), prev + 1) =~= invs.map_values(f));
        }
    }
}

/// Every element of a filtered sequence is an element of the original.
proof fn lemma_filter_subset<A>(h: Seq<A>, pred: spec_fn(A) -> bool)
    ensures
        forall|i: int|
            0 <= i < h.filter(pred).len() ==> h.contains(#[trigger] h.filter(pred)[i]),
    decreases h.len(),
{
    reveal(Seq::filter);
    if h.len() > 0 {
        lemma_filter_subset(h.drop_last(), pred);
        let f = h.filter(pred);
        let fd = h.drop_last().filter(pred);
        assert forall|i: int| 0 <= i < f.len() implies h.contains(#[trigger] f[i]) by {
            if i < fd.len() {
                assert(h.drop_last().contains(fd[i]));
                let j = choose|j: int|
                    0 <= j < h.drop_last().len() && h.drop_last()[j] == fd[i];
                assert(h[j] == f[i]);
            } else {
                assert(f[i] == h.last());
                assert(h[h.len() - 1] == h.last());
            }
        }
    }
}

/// Whether the text holds no newline, so it occupies exactly one
/// table line.
pub open spec fn single_line_text(s: Seq<char>) -> bool {
    forall|i: int| 0 <= i < s.len() ==> s[i] != '\n'
}

/// The longest single-line prefix of `s`: the text up to but not
/// including its first newline, or all of `s` when it has none.
fn first_line(s: &str) -> (t: &str)
    ensures
        single_line_text(t@),
        single_line_text(s@) ==> t@ == s@,
{
    let n = s.unicode_len();
    let mut i: usize = 0;
    while i < n
        invariant
            0 <= i <= n,
            n == s@.len(),
            forall|j: int| 0 <= j < i ==> s@[j] != '\n',
        decreases n - i,
    {
        if s.get_char(i) == '\n' {
            let t = s.substring_char(0, i);
            proof {
                assert(t@ == s@.subrange(0, i as int));
            }
            return t;
        }
        i = i + 1;
    }
    s
}

/// Relies on `core::fmt::Debug` to render an operation and the value
/// it returned; the text is cosmetic and nothing is assumed of it.
#[verifier::external_body]
fn debug_pair_string<Op: core::fmt::Debug, Ret: core::fmt::Debug>(op: &Op, ret: &Ret) -> String {
    format!("{:?} : {:?}", op, ret)
}

/// Builds the spans of one thread's column. The proved geometry is the
/// whole contract of the timeline: the spans follow [`layout_from`]
/// over the thread's records, so an invocation's cell covers exactly
/// the rows of its timestamp interval and overlapping invocations
/// overlap in row coordinates.
pub fn build_thread_spans<Op: core::fmt::Debug, Ret: core::fmt::Debug>(
    thread_part: &Vec<&ParallelInvocation<Op, Ret>>,
    max_return: usize,
) -> (spans: Vec<CellsSpan>)
    requires
        thread_history_wf(thread_part@.map_values(|x: &ParallelInvocation<Op, Ret>| *x)),
        forall|k: int| 0 <= k < thread_part@.len()
            ==> (*#[trigger] thread_part@[k]).return_timestamp <= max_return,
        max_return < usize::MAX,
    ensures
        spans@.map_values(|s: CellsSpan| span_shape(s)) == layout_from(
            thread_part@.map_values(|x: &ParallelInvocation<Op, Ret>| *x),
            -1,
            max_return as int,
        ),
        forall|k: int| 0 <= k < spans@.len()
            ==> ((#[trigger] spans@[k]).content is Some ==> single_line_text(
                (spans@[k].content->Some_0)@,
            )),
{
    let ghost full = thread_part@.map_values(|x: &ParallelInvocation<Op, Ret>| *x);
    let ghost last = max_return as int;
    let mut spans: Vec<CellsSpan> = Vec::new();
    let mut prev_plus_one: usize = 0;
    let mut k: usize = 0;
    proof {
        assert(full.skip(0) =~= full);
        assert(spans@.map_values(|s: CellsSpan| span_shape(s)) =~= Seq::<(int, bool)>::empty());
    }
    while k < thread_part.len()
        invariant
            0 <= k <= thread_part@.len(),
            full == thread_part@.map_values(|x: &ParallelInvocation<Op, Ret>| *x),
            full.len() == thread_part@.len(),
            thread_history_wf(full),
            forall|j: int| 0 <= j < full.len()
                ==> (#[trigger] full[j]).return_timestamp <= max_return,
            max_return < usize::MAX,
            last == max_return as int,
            k == 0 ==> prev_plus_one == 0,
            k > 0 ==> prev_plus_one == full[k - 1].return_timestamp + 1,
            spans@.map_values(|s: CellsSpan| span_shape(s)) + layout_from(
                full.skip(k as int),
                prev_plus_one as int - 1,
                last,
            ) == layout_from(full, -1, last),
            forall|j: int| 0 <= j < spans@.len()
                ==> ((#[trigger] spans@[j]).content is Some ==> single_line_text(
                    (spans@[j].content->Some_0)@,
                )),
        decreases thread_part@.len() - k,
    {
        let inv = thread_part[k];
        let ghost pre = spans@.map_values(|s: CellsSpan| span_shape(s));
        let ghost remaining = full.skip(k as int);
        proof {
            assert(remaining[0] == full[k as int]);
            assert(remaining.drop_first() =~= full.skip(k + 1));
            assert(full[k as int].call_timestamp < full[k as int].return_timestamp);
            if k > 0 {
                assert(full[k - 1].return_timestamp < full[k as int].call_timestamp);
            }
        }
        if inv.call_timestamp > prev_plus_one {
            spans.push(CellsSpan::new(inv.call_timestamp - prev_plus_one, None));
        }
        let text = debug_pair_string(&inv.op, &inv.ret);
        let line = String::from_str(first_line(text.as_str()));
        spans.push(
            CellsSpan::new(inv.return_timestamp - inv.call_timestamp + 1, Some(line)),
        );
        proof {
            let ghost shapes = spans@.map_values(|s: CellsSpan| span_shape(s));
            if full[k as int].call_timestamp > prev_plus_one {
                assert(shapes =~= pre + seq![
                    (full[k as int].call_timestamp - prev_plus_one as int, false),
                    (full[k as int].return_timestamp - full[k as int].call_timestamp + 1, true),
                ]);
                assert(layout_from(remaining, prev_plus_one as int - 1, last) =~= seq![
                    (full[k as int].call_timestamp - prev_plus_one as int, false),
                    (full[k as int].return_timestamp - full[k as int].call_timestamp + 1, true),
                ] + layout_from(full.skip(k + 1), full[k as int].return_timestamp as int, last));
                assert(shapes + layout_from(
                    full.skip(k + 1),
                    full[k as int].return_timestamp as int,
                    last,
                ) =~= layout_from(full, -1, last));
            } else {
                assert(shapes =~= pre + seq![
                    (full[k as int].return_timestamp - full[k as int].call_timestamp + 1, true),
                ]);
                assert(layout_from(remaining, prev_plus_one as int - 1, last) =~= seq![
                    (full[k as int].return_timestamp - full[k as int].call_timestamp + 1, true),
                ] + layout_from(full.skip(k + 1), full[k as int].return_timestamp as int, last));
                assert(shapes + layout_from(
                    full.skip(k + 1),
                    full[k as int].return_timestamp as int,
                    last,
                ) =~= layout_from(full, -1, last));
            }
        }
        prev_plus_one = inv.return_timestamp + 1;
        k = k + 1;
    }
    proof {
        assert(full.skip(full.len() as int) =~= Seq::<ParallelInvocation<Op, Ret>>::empty());
    }
    if prev_plus_one <= max_return {
        spans.push(CellsSpan::new(max_return - prev_plus_one + 1, None));
        proof {
            assert(spans@.map_values(|s: CellsSpan| span_shape(s)) =~= layout_from(full, -1, last));
        }
    } else {
        proof {
            assert(spans@.map_values(|s: CellsSpan| span_shape(s)) =~= layout_from(full, -1, last));
        }
    }
    spans
}

/// `n` copies of `s`, concatenated.
pub open spec fn repeat_text(s: Seq<char>, n: int) -> Seq<char>
    decreases n,
{
    if n <= 0 {
        Seq::empty()
    } else {
        repeat_text(s, n - 1) + s
    }
}

/// `s` centered in a field of `w` characters, padded with spaces; `s`
/// stands unpadded where it does not fit.
pub open spec fn center_text(s: Seq<char>, w: int) -> Seq<char> {
    let pad = if w >= s.len() {
        w - s.len()
    } else {
        0
    };
    repeat_text(" "@, pad / 2) + s + repeat_text(" "@, pad - pad / 2)
}

/// `n + 2`, clamped to `usize`.
pub open spec fn sat_plus2(n: int) -> int {
    if n + 2 > usize::MAX {
        usize::MAX as int
    } else {
        n + 2
    }
}

/// The width a column's first `i` spans demand, starting from `base`:
/// the running maximum of each content's length plus two.
pub open spec fn width_upto(spans: Seq<CellsSpan>, base: int, i: int) -> int
    decreases i,
{
    if i <= 0 {
        base
    } else {
        let prev = width_upto(spans, base, i - 1);
        if spans[i - 1].content is Some {
            let cw = sat_plus2((spans[i - 1].content->Some_0)@.len() as int);
            if cw > prev {
                cw
            } else {
                prev
            }
        } else {
            prev
        }
    }
}

/// The character width of a column: the maximum of its header's length
/// plus two and every content's length plus two.
pub open spec fn width_of(col: Column) -> int {
    width_upto(col.spans@, sat_plus2(col.header@.len() as int), col.spans@.len() as int)
}

/// The number of text lines a span of `cells` cells occupies at the
/// given cell height, excluding its separator line, with the products
/// clamped to `usize` as the executable arithmetic clamps them.
pub open spec fn span_lines_count(cells: int, h: int) -> int {
    let total = if cells * h > usize::MAX {
        usize::MAX as int
    } else {
        cells * h
    };
    if total >= 1 {
        total - 1
    } else {
        0
    }
}

/// The text lines of one span in a field of width `w`: blank lines
/// with the content centered on the middle line, closed by one dashed
/// separator line.
pub open spec fn span_block(s: CellsSpan, h: int, w: int) -> Seq<Seq<char>> {
    let l = span_lines_count(s.len_in_cells as int, h);
    Seq::new(
        (l + 1) as nat,
        |j: int|
            if j == l {
                repeat_text("-"@, w)
            } else if j == l / 2 && s.content is Some {
                center_text((s.content->Some_0)@, w)
            } else {
                repeat_text(" "@, w)
            },
    )
}

/// The text lines of a whole column: its spans' blocks, top to bottom.
pub open spec fn col_lines(spans: Seq<CellsSpan>, h: int, w: int) -> Seq<Seq<char>>
    decreases spans.len(),
{
    if spans.len() == 0 {
        Seq::empty()
    } else {
        col_lines(spans.drop_last(), h, w) + span_block(spans.last(), h, w)
    }
}

/// The number of body lines of the table: the tallest column among the
/// first `c`.
pub open spec fn nrows_upto(cols: Seq<Column>, h: int, c: int) -> int
    decreases c,
{
    if c <= 0 {
        0
    } else {
        let m = nrows_upto(cols, h, c - 1);
        let cl = col_lines(cols[c - 1].spans@, h, width_of(cols[c - 1])).len() as int;
        if cl > m {
            cl
        } else {
            m
        }
    }
}

/// The fields of a `===` separator line over the first `c` columns,
/// each closed by `|`.
pub open spec fn sep_fields(cols: Seq<Column>, c: int) -> Seq<char>
    decreases c,
{
    if c <= 0 {
        Seq::empty()
    } else {
        sep_fields(cols, c - 1) + repeat_text("="@, width_of(cols[c - 1])) + "|"@
    }
}

/// The fields of the header line over the first `c` columns, each
/// centered and closed by `|`.
pub open spec fn header_fields(cols: Seq<Column>, c: int) -> Seq<char>
    decreases c,
{
    if c <= 0 {
        Seq::empty()
    } else {
        header_fields(cols, c - 1) + center_text(cols[c - 1].header@, width_of(cols[c - 1]))
            + "|"@
    }
}

/// The fields of body row `r` over the first `c` columns: the row's
/// line of each column, or blanks where the column has ended, each
/// closed by `|`.
pub open spec fn row_fields(cols: Seq<Column>, h: int, r: int, c: int) -> Seq<char>
    decreases c,
{
    if c <= 0 {
        Seq::empty()
    } else {
        let cl = col_lines(cols[c - 1].spans@, h, width_of(cols[c - 1]));
        let field = if r < cl.len() {
            cl[r]
        } else {
            repeat_text(" "@, width_of(cols[c - 1]))
        };
        row_fields(cols, h, r, c - 1) + field + "|"@
    }
}

/// The first `r` body rows of the table, each opened by `|` and closed
/// by a newline.
pub open spec fn body_rows_text(cols: Seq<Column>, h: int, r: int) -> Seq<char>
    decreases r,
{
    if r <= 0 {
        Seq::empty()
    } else {
        body_rows_text(cols, h, r - 1) + "|"@ + row_fields(cols, h, r - 1, cols.len() as int)
            + "\n"@
    }
}

/// The complete text of a table: a `===` separator line, the centered
/// headers, a second separator line, then the body rows, in which each
/// span occupies `len_in_cells * cell_height - 1` lines with its
/// content centered on the middle one, followed by one dashed
/// separator line.
pub open spec fn table_text(cell_height: int, cols: Seq<Column>) -> Seq<char> {
    let h = if cell_height >= 1 {
        cell_height
    } else {
        1
    };
    let n = cols.len() as int;
    "|"@ + sep_fields(cols, n) + "\n|"@ + header_fields(cols, n) + "\n|"@ + sep_fields(cols, n)
        + "\n"@ + body_rows_text(cols, h, nrows_upto(cols, h, n))
}

/// A string of `n` copies of `s`.
fn repeat_str(s: &str, n: usize) -> (out: String)
    ensures
        out@ == repeat_text(s@, n as int),
{
    let mut out = String::new();
    let mut i: usize = 0;
    while i < n
        invariant
            0 <= i <= n,
            out@ == repeat_text(s@, i as int),
        decreases n - i,
    {
        out.append(s);
        i = i + 1;
    }
    out
}

/// Centers `s` in a field of `width` characters, best effort.
fn center(s: &str, width: usize) -> (out: String)
    ensures
        out@ == center_text(s@, width as int),
{
    let len = s.unicode_len();
    let pad = if width >= len {
        width - len
    } else {
        0
    };
    let left = pad / 2;
    let right = pad - left;
    let mut out = repeat_str(" ", left);
    out.append(s);
    out.append(repeat_str(" ", right).as_str());
    out
}

/// Computes the width of one column.
fn column_width(column: &Column) -> (w: usize)
    ensures
        w as int == width_of(*column),
{
    let mut w = column.header.unicode_len().saturating_add(2);
    let mut i: usize = 0;
    while i < column.spans.len()
        invariant
            0 <= i <= column.spans@.len(),
            w as int == width_upto(
                column.spans@,
                sat_plus2(column.header@.len() as int),
                i as int,
            ),
        decreases column.spans@.len() - i,
    {
        match &column.spans[i].content {
            Some(s) => {
                let cw = s.as_str().unicode_len().saturating_add(2);
                if cw > w {
                    w = cw;
                }
            },
            None => {},
        }
        i = i + 1;
    }
    w
}

/// Renders the text lines of one column.
fn column_lines(column: &Column, cell_height: usize, width: usize) -> (lines: Vec<String>)
    ensures
        lines@.map_values(|s: String| s@) == col_lines(
            column.spans@,
            cell_height as int,
            width as int,
        ),
{
    let ghost h = cell_height as int;
    let ghost w = width as int;
    let mut lines: Vec<String> = Vec::new();
    let mut sidx: usize = 0;
    proof {
        assert(column.spans@.take(0) =~= Seq::<CellsSpan>::empty());
        assert(lines@.map_values(|s: String| s@) =~= col_lines(column.spans@.take(0), h, w));
    }
    while sidx < column.spans.len()
        invariant
            0 <= sidx <= column.spans@.len(),
            h == cell_height as int,
            w == width as int,
            lines@.map_values(|s: String| s@) == col_lines(
                column.spans@.take(sidx as int),
                h,
                w,
            ),
        decreases column.spans@.len() - sidx,
    {
        let span = &column.spans[sidx];
        let ghost blk = span_block(column.spans@[sidx as int], h, w);
        let ghost base = lines@.map_values(|s: String| s@);
        let total_lines = match span.len_in_cells.checked_mul(cell_height) {
            Some(v) => v,
            None => usize::MAX,
        };
        let span_lines = total_lines.saturating_sub(1);
        proof {
            assert(span_lines as int == span_lines_count(
                column.spans@[sidx as int].len_in_cells as int,
                h,
            ));
            assert(blk.take(0) =~= Seq::<Seq<char>>::empty());
            assert(lines@.map_values(|s: String| s@) =~= base + blk.take(0));
        }
        let content_line = span_lines / 2;
        let mut j: usize = 0;
        while j < span_lines
            invariant
                0 <= j <= span_lines,
                h == cell_height as int,
                w == width as int,
                0 <= sidx < column.spans@.len(),
                *span == column.spans@[sidx as int],
                blk == span_block(column.spans@[sidx as int], h, w),
                span_lines as int == span_lines_count(
                    column.spans@[sidx as int].len_in_cells as int,
                    h,
                ),
                content_line == span_lines / 2,
                base == col_lines(column.spans@.take(sidx as int), h, w),
                lines@.map_values(|s: String| s@) == base + blk.take(j as int),
            decreases span_lines - j,
        {
            let new_line = if j == content_line {
                match &span.content {
                    Some(s) => center(s.as_str(), width),
                    None => repeat_str(" ", width),
                }
            } else {
                repeat_str(" ", width)
            };
            proof {
                assert(j != span_lines as int);
                assert(new_line@ == blk[j as int]);
            }
            lines.push(new_line);
            proof {
                assert(lines@.map_values(|s: String| s@) =~= (base + blk.take(j as int)).push(
                    blk[j as int],
                ));
                assert((base + blk.take(j as int)).push(blk[j as int]) =~= base + blk.take(
                    j + 1,
                ));
            }
            j = j + 1;
        }
        lines.push(repeat_str("-", width));
        proof {
            assert(blk.len() == span_lines as int + 1);
            assert(blk[span_lines as int] == repeat_text("-"@, w));
            assert(lines@.map_values(|s: String| s@) =~= (base + blk.take(
                span_lines as int,
            )).push(blk[span_lines as int]));
            assert((base + blk.take(span_lines as int)).push(blk[span_lines as int]) =~= base
                + blk);
            assert(lines@.map_values(|s: String| s@) =~= base + blk);
            assert(column.spans@.take(sidx + 1).drop_last() =~= column.spans@.take(sidx as int));
            assert(column.spans@.take(sidx + 1).last() == column.spans@[sidx as int]);
            assert(col_lines(column.spans@.take(sidx + 1), h, w) =~= col_lines(
                column.spans@.take(sidx as int),
                h,
                w,
            ) + blk);
        }
        sidx = sidx + 1;
    }
    proof {
        assert(column.spans@.take(column.spans@.len() as int) =~= column.spans@);
    }
    lines
}

impl Table {
    /// Renders the table line by line. The output is pinned exactly by
    /// [`table_text`]: three header lines, then one line per body row,
    /// with every span of every column occupying its prescribed lines.
    pub fn render(&self) -> (out: String)
        ensures
            out@ == table_text(self.cell_height as int, self.columns@),
    {
        let cell_height = if self.cell_height >= 1 {
            self.cell_height
        } else {
            1
        };
        let ghost h = cell_height as int;
        let ghost cols = self.columns@;
        let ncols = self.columns.len();
        let mut widths: Vec<usize> = Vec::new();
        let mut c: usize = 0;
        while c < ncols
            invariant
                0 <= c <= ncols,
                ncols == cols.len(),
                cols == self.columns@,
                widths@.len() == c,
                forall|u: int| 0 <= u < c ==> widths@[u] as int == width_of(#[trigger] cols[u]),
            decreases ncols - c,
        {
            let w = column_width(&self.columns[c]);
            widths.push(w);
            c = c + 1;
        }
        let mut all_lines: Vec<Vec<String>> = Vec::new();
        let mut c2: usize = 0;
        while c2 < ncols
            invariant
                0 <= c2 <= ncols,
                ncols == cols.len(),
                cols == self.columns@,
                h == cell_height as int,
                widths@.len() == ncols,
                forall|u: int| 0 <= u < ncols
                    ==> widths@[u] as int == width_of(#[trigger] cols[u]),
                all_lines@.len() == c2,
                forall|u: int| 0 <= u < c2
                    ==> (#[trigger] all_lines@[u])@.map_values(|s: String| s@) == col_lines(
                        cols[u].spans@,
                        h,
                        width_of(cols[u]),
                    ),
            decreases ncols - c2,
        {
            let lines = column_lines(&self.columns[c2], cell_height, widths[c2]);
            all_lines.push(lines);
            c2 = c2 + 1;
        }
        let mut nrows: usize = 0;
        let mut c3: usize = 0;
        while c3 < ncols
            invariant
                0 <= c3 <= ncols,
                ncols == cols.len(),
                h == cell_height as int,
                all_lines@.len() == ncols,
                forall|u: int| 0 <= u < ncols
                    ==> (#[trigger] all_lines@[u])@.map_values(|s: String| s@) == col_lines(
                        cols[u].spans@,
                        h,
                        width_of(cols[u]),
                    ),
                nrows as int == nrows_upto(cols, h, c3 as int),
            decreases ncols - c3,
        {
            if all_lines[c3].len() > nrows {
                nrows = all_lines[c3].len();
            }
            c3 = c3 + 1;
        }
        let mut out = String::new();
        out.append("|");
        let mut c4: usize = 0;
        proof {
            assert(out@ =~= "|"@ + sep_fields(cols, 0));
        }
        while c4 < ncols
            invariant
                0 <= c4 <= ncols,
                ncols == cols.len(),
                widths@.len() == ncols,
                forall|u: int| 0 <= u < ncols
                    ==> widths@[u] as int == width_of(#[trigger] cols[u]),
                out@ == "|"@ + sep_fields(cols, c4 as int),
            decreases ncols - c4,
        {
            out.append(repeat_str("=", widths[c4]).as_str());
            out.append("|");
            proof {
                assert(out@ =~= "|"@ + sep_fields(cols, c4 + 1));
            }
            c4 = c4 + 1;
        }
        let ghost pre1 = "|"@ + sep_fields(cols, ncols as int) + "\n|"@;
        out.append("\n|");
        let mut c5: usize = 0;
        proof {
            assert(out@ =~= pre1 + header_fields(cols, 0));
        }
        while c5 < ncols
            invariant
                0 <= c5 <= ncols,
                ncols == cols.len(),
                cols == self.columns@,
                widths@.len() == ncols,
                forall|u: int| 0 <= u < ncols
                    ==> widths@[u] as int == width_of(#[trigger] cols[u]),
                out@ == pre1 + header_fields(cols, c5 as int),
            decreases ncols - c5,
        {
            out.append(center(self.columns[c5].header.as_str(), widths[c5]).as_str());
            out.append("|");
            proof {
                assert(out@ =~= pre1 + header_fields(cols, c5 + 1));
            }
            c5 = c5 + 1;
        }
        let ghost pre2 = pre1 + header_fields(cols, ncols as int) + "\n|"@;
        out.append("\n|");
        let mut c6: usize = 0;
        proof {
            assert(out@ =~= pre2 + sep_fields(cols, 0));
        }
        while c6 < ncols
            invariant
                0 <= c6 <= ncols,
                ncols == cols.len(),
                widths@.len() == ncols,
                forall|u: int| 0 <= u < ncols
                    ==> widths@[u] as int == width_of(#[trigger] cols[u]),
                out@ == pre2 + sep_fields(cols, c6 as int),
            decreases ncols - c6,
        {
            out.append(repeat_str("=", widths[c6]).as_str());
            out.append("|");
            proof {
                assert(out@ =~= pre2 + sep_fields(cols, c6 + 1));
            }
            c6 = c6 + 1;
        }
        let ghost pre3 = pre2 + sep_fields(cols, ncols as int) + "\n"@;
        out.append("\n");
        let mut r: usize = 0;
        proof {
            assert(out@ =~= pre3 + body_rows_text(cols, h, 0));
        }
        while r < nrows
            invariant
                0 <= r <= nrows,
                ncols == cols.len(),
                h == cell_height as int,
                widths@.len() == ncols,
                all_lines@.len() == ncols,
                forall|u: int| 0 <= u < ncols
                    ==> widths@[u] as int == width_of(#[trigger] cols[u]),
                forall|u: int| 0 <= u < ncols
                    ==> (#[trigger] all_lines@[u])@.map_values(|s: String| s@) == col_lines(
                        cols[u].spans@,
                        h,
                        width_of(cols[u]),
                    ),
                out@ == pre3 + body_rows_text(cols, h, r as int),
            decreases nrows - r,
        {
            out.append("|");
            let mut c7: usize = 0;
            proof {
                assert(out@ =~= pre3 + body_rows_text(cols, h, r as int) + "|"@ + row_fields(
                    cols,
                    h,
                    r as int,
                    0,
                ));
            }
            while c7 < ncols
                invariant
                    0 <= c7 <= ncols,
                    0 <= r < nrows,
                    ncols == cols.len(),
                    h == cell_height as int,
                    widths@.len() == ncols,
                    all_lines@.len() == ncols,
                    forall|u: int| 0 <= u < ncols
                        ==> widths@[u] as int == width_of(#[trigger] cols[u]),
                    forall|u: int| 0 <= u < ncols
                        ==> (#[trigger] all_lines@[u])@.map_values(|s: String| s@) == col_lines(
                            cols[u].spans@,
                            h,
                            width_of(cols[u]),
                        ),
                    out@ == pre3 + body_rows_text(cols, h, r as int) + "|"@ + row_fields(
                        cols,
                        h,
                        r as int,
                        c7 as int,
                    ),
                decreases ncols - c7,
            {
                proof {
                    assert(all_lines@[c7 as int]@.map_values(|s: String| s@) == col_lines(
                        cols[c7 as int].spans@,
                        h,
                        width_of(cols[c7 as int]),
                    ));
                }
                if r < all_lines[c7].len() {
                    out.append(all_lines[c7][r].as_str());
                } else {
                    out.append(repeat_str(" ", widths[c7]).as_str());
                }
                out.append("|");
                proof {
                    assert(out@ =~= pre3 + body_rows_text(cols, h, r as int) + "|"@ + row_fields(
                        cols,
                        h,
                        r as int,
                        c7 + 1,
                    ));
                }
                c7 = c7 + 1;
            }
            out.append("\n");
            proof {
                assert(out@ =~= pre3 + body_rows_text(cols, h, r + 1));
            }
            r = r + 1;
        }
        proof {
            assert(out@ =~= table_text(self.cell_height as int, self.columns@));
        }
        out
    }
}

/// The largest return timestamp among the first `k` records (0 when
/// there are none).
pub open spec fn max_return_upto<Op, Ret>(p: Seq<ParallelInvocation<Op, Ret>>, k: int) -> int
    decreases k,
{
    if k <= 0 {
        0
    } else {
        let m = max_return_upto(p, k - 1);
        if p[k - 1].return_timestamp > m {
            p[k - 1].return_timestamp as int
        } else {
            m
        }
    }
}

/// The largest return timestamp of the history (0 when empty).
pub open spec fn max_return_of<Op, Ret>(p: Seq<ParallelInvocation<Op, Ret>>) -> int {
    max_return_upto(p, p.len() as int)
}

/// `text` is the rendered single-column table of the sequential phase
/// `h`: the column is headed `MAIN THREAD` and holds one two-cell
/// content span per invocation, in program order.
pub open spec fn is_history_table<Op, Ret>(
    h: Seq<crate::execution::Invocation<Op, Ret>>,
    text: Seq<char>,
) -> bool {
    exists|cols: Seq<Column>| #![trigger table_text(2, cols)] {
        &&& cols.len() == 1
        &&& cols[0].header@ == "MAIN THREAD"@
        &&& cols[0].spans@.len() == h.len()
        &&& (forall|k: int| 0 <= k < h.len()
            ==> (#[trigger] cols[0].spans@[k]).len_in_cells == 2 && cols[0].spans@[k].content
                is Some && single_line_text((cols[0].spans@[k].content->Some_0)@))
        &&& text == table_text(2, cols)
    }
}

/// `text` is the rendered timeline table of the parallel history `p`:
/// one column per thread id, headed `THREAD …`, whose spans follow
/// [`layout_from`] over that thread's records down to the last return
/// timestamp — an invocation's cell covers exactly the rows of its
/// timestamp interval, so overlapping invocations overlap in row
/// coordinates.
pub open spec fn is_parallel_table<Op, Ret>(
    p: Seq<ParallelInvocation<Op, Ret>>,
    text: Seq<char>,
) -> bool {
    exists|cols: Seq<Column>| #![trigger table_text(2, cols)] {
        &&& (forall|k: int| 0 <= k < p.len()
            ==> ((#[trigger] p[k]).thread_id as int) < cols.len())
        &&& (cols.len() > 0 ==> exists|k: int|
            0 <= k < p.len() && ((#[trigger] p[k]).thread_id as int) == cols.len() - 1)
        &&& (forall|t: int| 0 <= t < cols.len()
            ==> (#[trigger] cols[t]).spans@.map_values(|s: CellsSpan| span_shape(s))
                == layout_from(thread_records(p, t), -1, max_return_of(p)))
        &&& (forall|t: int| 0 <= t < cols.len()
            ==> "THREAD "@.is_prefix_of((#[trigger] cols[t]).header@))
        &&& (forall|t: int, k: int| #![trigger cols[t].spans@[k]]
            0 <= t < cols.len() && 0 <= k < cols[t].spans@.len()
                ==> (cols[t].spans@[k].content is Some ==> single_line_text(
                (cols[t].spans@[k].content->Some_0)@,
            )))
        &&& text == table_text(2, cols)
    }
}

impl<Op: core::fmt::Debug, Ret: core::fmt::Debug> History<Op, Ret> {
    /// Renders the history as a single-column table, one two-cell span
    /// per invocation, in program order; see [`is_history_table`].
    pub fn render(&self) -> (out: String)
        ensures
            is_history_table(self.inner@, out@),
    {
        let mut spans: Vec<CellsSpan> = Vec::new();
        let mut i: usize = 0;
        while i < self.inner.len()
            invariant
                0 <= i <= self.inner@.len(),
                spans@.len() == i,
                forall|k: int| 0 <= k < i
                    ==> (#[trigger] spans@[k]).len_in_cells == 2 && spans@[k].content is Some
                        && single_line_text((spans@[k].content->Some_0)@),
            decreases self.inner@.len() - i,
        {
            let text = debug_pair_string(&self.inner[i].op, &self.inner[i].ret);
            let line = String::from_str(first_line(text.as_str()));
            spans.push(CellsSpan::new(2, Some(line)));
            i = i + 1;
        }
        let header = String::from_str("MAIN THREAD");
        let table = Table { cell_height: 2, columns: vec![Column { header, spans }] };
        let out = table.render();
        proof {
            assert(table.columns@.len() == 1);
            assert(table_text(2, table.columns@) == out@);
            assert(is_history_table(self.inner@, out@));
        }
        out
    }
}

/// Relies on `usize`'s `Display` implementation: the decimal digits of
/// the value. The text is cosmetic and nothing is assumed of it.
#[verifier::external_body]
fn usize_to_string(n: usize) -> String {
    format!("{}", n)
}

impl<Op: core::fmt::Debug, Ret: core::fmt::Debug> ParallelHistory<Op, Ret> {
    /// Renders the parallel history as a table with one column per
    /// thread. Each invocation's cell spans the rows of its timestamp
    /// interval, so overlapping invocations visibly overlap in row
    /// coordinates; see [`is_parallel_table`] and
    /// [`build_thread_spans`].
    pub fn render(&self) -> (out: String)
        requires
            crate::recorder::parallel_history_wf(self.inner@),
        ensures
            is_parallel_table(self.inner@, out@),
    {
        let ghost p = self.inner@;
        let mut max_return: usize = 0;
        let mut k: usize = 0;
        while k < self.inner.len()
            invariant
                0 <= k <= self.inner@.len(),
                p == self.inner@,
                max_return as int == max_return_upto(p, k as int),
                forall|j: int| 0 <= j < k
                    ==> (#[trigger] self.inner@[j]).return_timestamp <= max_return,
                k > 0 ==> max_return < usize::MAX,
                k == 0 ==> max_return == 0,
                forall|j: int| 0 <= j < self.inner@.len()
                    ==> (#[trigger] self.inner@[j]).return_timestamp < usize::MAX,
            decreases self.inner@.len() - k,
        {
            if self.inner[k].return_timestamp > max_return {
                max_return = self.inner[k].return_timestamp;
            }
            k = k + 1;
        }
        let thread_parts = self.get_thread_parts();
        proof {
            if thread_parts@.len() > 0 {
                let w = choose|w: int|
                    0 <= w < self.inner@.len() && self.inner@[w].thread_id
                        == thread_parts@.len() - 1;
                assert(self.inner@.len() > 0);
            }
        }
        let mut columns: Vec<Column> = Vec::new();
        let mut t: usize = 0;
        while t < thread_parts.len()
            invariant
                0 <= t <= thread_parts@.len(),
                p == self.inner@,
                thread_parts@.len() > 0 ==> max_return < usize::MAX,
                max_return as int == max_return_of(p),
                columns@.len() == t,
                forall|u: int| 0 <= u < thread_parts@.len()
                    ==> (#[trigger] thread_parts@[u])@.map_values(
                        |x: &ParallelInvocation<Op, Ret>| *x,
                    ) == thread_records(self.inner@, u),
                forall|u: int|
                    thread_history_wf(
                        #[trigger] thread_records(self.inner@, u),
                    ),
                forall|j: int| 0 <= j < self.inner@.len()
                    ==> (#[trigger] self.inner@[j]).return_timestamp <= max_return,
                forall|u: int| 0 <= u < t
                    ==> (#[trigger] columns@[u]).spans@.map_values(|s: CellsSpan| span_shape(s))
                        == layout_from(
                        thread_records(p, u),
                        -1,
                        max_return_of(p),
                    ),
                forall|u: int| 0 <= u < t
                    ==> "THREAD "@.is_prefix_of((#[trigger] columns@[u]).header@),
                forall|u: int, k: int| #![trigger columns@[u].spans@[k]]
                    0 <= u < t && 0 <= k < columns@[u].spans@.len()
                        ==> (columns@[u].spans@[k].content is Some ==> single_line_text(
                        (columns@[u].spans@[k].content->Some_0)@,
                    )),
            decreases thread_parts@.len() - t,
        {
            let thread_part = &thread_parts[t];
            proof {
                let pred = |inv: ParallelInvocation<Op, Ret>| inv.thread_id == t as int;
                assert(thread_records(self.inner@, t as int)
                    == self.inner@.filter(pred));
                lemma_filter_subset(self.inner@, pred);
                assert forall|j: int| 0 <= j < thread_part@.len()
                    implies (*#[trigger] thread_part@[j]).return_timestamp <= max_return by {
                    assert(thread_part@.map_values(|x: &ParallelInvocation<Op, Ret>| *x)[j]
                        == self.inner@.filter(pred)[j]);
                    assert(self.inner@.contains(self.inner@.filter(pred)[j]));
                    let w = choose|w: int|
                        0 <= w < self.inner@.len() && self.inner@[w] == self.inner@.filter(
                            pred,
                        )[j];
                    assert(self.inner@[w].return_timestamp <= max_return);
                }
                if thread_part@.len() > 0 {
                    assert(self.inner@.filter(pred).len() > 0);
                    assert(self.inner@.len() > 0);
                }
            }
            let header_num = usize_to_string(t);
            let mut header = String::from_str("THREAD ");
            header.append(header_num.as_str());
            proof {
                assert("THREAD "@.is_prefix_of(header@)) by {
                    assert("THREAD "@ =~= header@.subrange(0, "THREAD "@.len() as int));
                }
            }
            let spans = build_thread_spans(thread_part, max_return);
            columns.push(Column { header, spans });
            t = t + 1;
        }
        let table = Table { cell_height: 2, columns };
        let out = table.render();
        proof {
            assert(table_text(2, table.columns@) == out@);
            assert(is_parallel_table(self.inner@, out@));
        }
        out
    }
}

/// The report text for an execution: the three phase tables stacked
/// under their captions.
pub open spec fn stitched_report(
    init_text: Seq<char>,
    parallel_text: Seq<char>,
    post_text: Seq<char>,
) -> Seq<char> {
    "INIT PART:\n"@ + init_text + "\nPARALLEL PART:\n"@ + parallel_text + "\nPOST PART:\n"@
        + post_text
}

impl<Op: core::fmt::Debug, Ret: core::fmt::Debug> Execution<Op, Ret> {
    /// Renders the execution as three stacked tables — init, parallel,
    /// post — each satisfying its table predicate.
    pub fn render(&self) -> (out: String)
        requires
            crate::recorder::parallel_history_wf(self.parallel_part.inner@),
        ensures
            exists|init_text: Seq<char>, parallel_text: Seq<char>, post_text: Seq<char>|
                #![trigger stitched_report(init_text, parallel_text, post_text)]
                is_history_table(self.init_part.inner@, init_text)
                    && is_parallel_table(self.parallel_part.inner@, parallel_text)
                    && is_history_table(self.post_part.inner@, post_text)
                    && out@ == stitched_report(init_text, parallel_text, post_text),
    {
        let init_text = self.init_part.render();
        let parallel_text = self.parallel_part.render();
        let post_text = self.post_part.render();
        let mut out = String::from_str("INIT PART:\n");
        out.append(init_text.as_str());
        out.append("\nPARALLEL PART:\n");
        out.append(parallel_text.as_str());
        out.append("\nPOST PART:\n");
        out.append(post_text.as_str());
        proof {
            assert(out@ == stitched_report(init_text@, parallel_text@, post_text@));
        }
        out
    }
}

} // verus!
