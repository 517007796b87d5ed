//! Layout of text records on a character grid: each record becomes whole
//! rows of cells, and the grid shows the last rows of the records laid out
//! oldest first, so that the newest record sits on the bottom row.

use crate::ringbuffer::Iter;
use vstd::prelude::*;

verus! {

pub const TAB: u8 = 9;

pub const NEWLINE: u8 = 10;

pub const CARRIAGE_RETURN: u8 = 13;

pub const NUL: u8 = 0;

/// The cell that pads lines and stands for tab stops.
pub const BLANK: u8 = 32;

/// Longest record that the layout takes: its cells must be countable in
/// `usize`.
pub const MAX_RECORD_LEN: usize = usize::MAX / 1024;

/// Most columns, and most rows, of a grid.
pub const MAX_GRID: usize = 255;

pub open spec fn blanks(n: nat) -> Seq<u8> {
    Seq::new(n, |i: int| BLANK)
}

/// The cells of one byte: a tab is `tab` blanks, carriage return and NUL take
/// none, any other byte is one cell.
pub open spec fn byte_cells(b: u8, tab: nat) -> Seq<u8> {
    if b == TAB {
        blanks(tab)
    } else if b == CARRIAGE_RETURN || b == NUL {
        Seq::empty()
    } else {
        seq![b]
    }
}

/// The cells of a line of text.
pub open spec fn expand(line: Seq<u8>, tab: nat) -> Seq<u8>
    decreases line.len(),
{
    if line.len() == 0 {
        Seq::empty()
    } else {
        expand(line.drop_last(), tab) + byte_cells(line.last(), tab)
    }
}

/// Number of bytes before the first newline of `text`.
pub open spec fn first_line_len(text: Seq<u8>) -> nat
    decreases text.len(),
{
    if text.len() == 0 || text[0] == NEWLINE {
        0
    } else {
        1 + first_line_len(text.drop_first())
    }
}

/// Blanks needed to fill `n` cells up to whole rows of `width`, with one row
/// at least.
pub open spec fn pad_len(n: nat, width: nat) -> nat {
    if n == 0 {
        width
    } else if n % width == 0 {
        0
    } else {
        (width - n % width) as nat
    }
}

pub open spec fn pad_rows(cells: Seq<u8>, width: nat) -> Seq<u8> {
    cells + blanks(pad_len(cells.len(), width))
}

/// The rows of `text`, one or more for each line: a line is wrapped onto
/// continuation rows, or, without wrapping, a line that reaches the last
/// column ends the text there. A final newline opens no further line.
pub open spec fn text_cells(text: Seq<u8>, width: nat, wrap: bool, tab: nat) -> Seq<u8>
    decreases text.len(),
{
    if text.len() == 0 {
        Seq::empty()
    } else {
        let n = first_line_len(text);
        let e = expand(text.take(n as int), tab);
        if !wrap && e.len() >= width {
            e.take(width as int)
        } else if n >= text.len() {
            pad_rows(e, width)
        } else {
            pad_rows(e, width) + text_cells(text.skip((n + 1) as int), width, wrap, tab)
        }
    }
}

/// The rows of one record; an empty record is one blank row.
pub open spec fn record_cells(record: Seq<u8>, width: nat, wrap: bool, tab: nat) -> Seq<u8> {
    if record.len() == 0 {
        blanks(width)
    } else {
        text_cells(record, width, wrap, tab)
    }
}

/// The rows of `records`, which are given newest first, laid out oldest
/// first.
pub open spec fn history_cells(records: Seq<Seq<u8>>, width: nat, wrap: bool, tab: nat) -> Seq<
    u8,
>
    decreases records.len(),
{
    if records.len() == 0 {
        Seq::empty()
    } else {
        history_cells(records.drop_first(), width, wrap, tab) + record_cells(
            records[0],
            width,
            wrap,
            tab,
        )
    }
}

/// What a grid of `height` rows shows of `records` (newest first): the last
/// `height` rows of their layout, to be placed on the grid's bottom rows.
pub open spec fn screen_cells(
    records: Seq<Seq<u8>>,
    width: nat,
    height: nat,
    wrap: bool,
    tab: nat,
) -> Seq<u8> {
    let h = history_cells(records, width, wrap, tab);
    if h.len() > width * height {
        h.skip(h.len() - width * height)
    } else {
        h
    }
}

proof fn lemma_first_line_len(text: Seq<u8>, n: int)
    requires
        0 <= n <= text.len(),
        forall|k: int| 0 <= k < n ==> text[k] != NEWLINE,
        n == text.len() || text[n] == NEWLINE,
    ensures
        first_line_len(text) == n,
    decreases n,
{
    if n > 0 {
        lemma_first_line_len(text.drop_first(), n - 1);
    }
}

proof fn lemma_history_split(rs: Seq<Seq<u8>>, k: int, width: nat, wrap: bool, tab: nat)
    requires
        0 <= k <= rs.len(),
    ensures
        history_cells(rs, width, wrap, tab) == history_cells(rs.skip(k), width, wrap, tab)
            + history_cells(rs.take(k), width, wrap, tab),
    decreases k,
{
    if k == 0 {
        assert(rs.skip(0) =~= rs);
        assert(history_cells(rs.take(0), width, wrap, tab) =~= Seq::empty());
        assert(history_cells(rs, width, wrap, tab) + Seq::empty() =~= history_cells(
            rs,
            width,
            wrap,
            tab,
        ));
    } else {
        let d = rs.drop_first();
        lemma_history_split(d, k - 1, width, wrap, tab);
        assert(d.skip(k - 1) =~= rs.skip(k));
        assert(rs.take(k).drop_first() =~= d.take(k - 1));
        assert(rs.take(k)[0] == rs[0]);
        assert(history_cells(rs, width, wrap, tab) =~= history_cells(rs.skip(k), width, wrap, tab)
            + history_cells(rs.take(k), width, wrap, tab));
    }
}

/// Appends `n` blanks.
fn push_blanks(out: &mut Vec<u8>, n: usize)
    ensures
        final(out)@ == old(out)@ + blanks(n as nat),
{
    let mut k: usize = 0;
    while k < n
        invariant
            k <= n,
            out@ == old(out)@ + blanks(k as nat),
        decreases n - k,
    {
        out.push(BLANK);
        k = k + 1;
        assert(out@ =~= old(out)@ + blanks(k as nat));
    }
}

/// Appends the cells of byte `b`.
fn push_byte_cells(out: &mut Vec<u8>, b: u8, tab: u8)
    ensures
        final(out)@ == old(out)@ + byte_cells(b, tab as nat),
        final(out)@.len() <= old(out)@.len() + 255,
{
    if b == TAB {
        push_blanks(out, tab as usize);
    } else if b == CARRIAGE_RETURN || b == NUL {
        assert(old(out)@ + byte_cells(b, tab as nat) =~= old(out)@);
    } else {
        out.push(b);
        assert(out@ =~= old(out)@ + seq![b]);
    }
}

/// Appends `src[from..to]`.
fn push_range(out: &mut Vec<u8>, src: &Vec<u8>, from: usize, to: usize)
    requires
        from <= to <= src@.len(),
    ensures
        final(out)@ == old(out)@ + src@.subrange(from as int, to as int),
{
    let mut k = from;
    while k < to
        invariant
            from <= k <= to <= src@.len(),
            out@ == old(out)@ + src@.subrange(from as int, k as int),
        decreases to - k,
    {
        out.push(src[k]);
        k = k + 1;
        assert(out@ =~= old(out)@ + src@.subrange(from as int, k as int));
    }
}

/// The number of blanks that completes `n` cells to whole rows of `width`.
fn pad_count(n: usize, width: usize) -> (r: usize)
    requires
        width >= 1,
    ensures
        r == pad_len(n as nat, width as nat),
        r <= width,
{
    if n == 0 {
        width
    } else if n % width == 0 {
        0
    } else {
        width - n % width
    }
}

/// The cells of `record` on rows of `width` columns, tabs `tab` blanks wide.
pub fn layout_record(record: &[u8], width: usize, wrap: bool, tab: u8) -> (cells: Vec<u8>)
    requires
        1 <= width <= MAX_GRID,
        record@.len() <= MAX_RECORD_LEN,
    ensures
        cells@ == record_cells(record@, width as nat, wrap, tab as nat),
        cells@.len() <= 510 * (record@.len() + 1),
{
    let mut out: Vec<u8> = Vec::new();
    if record.len() == 0 {
        push_blanks(&mut out, width);
        return out;
    }
    let ghost text = record@;
    let ghost (w, t) = (width as nat, tab as nat);
    let mut i: usize = 0;
    assert(text.skip(0) =~= text);
    assert(out@ + text_cells(text, w, wrap, t) =~= text_cells(text, w, wrap, t));
    loop
        invariant_except_break
            text == record@,
            w == width,
            t == tab,
            1 <= width <= MAX_GRID,
            i < record@.len(),
            out@ + text_cells(text.skip(i as int), w, wrap, t) == text_cells(text, w, wrap, t),
            out@.len() <= 510 * i,
        ensures
            text == record@,
            out@ == text_cells(text, w, wrap, t),
            out@.len() <= 510 * (record@.len() + 1),
        decreases record@.len() - i,
    {
        let mut j = i;
        while j < record.len() && record[j] != NEWLINE
            invariant
                text == record@,
                i <= j <= record@.len(),
                forall|k: int| i <= k < j ==> text[k] != NEWLINE,
            decreases record@.len() - j,
        {
            j = j + 1;
        }
        let mut e: Vec<u8> = Vec::new();
        let mut k = i;
        assert(expand(text.subrange(i as int, i as int), t) =~= Seq::empty());
        while k < j
            invariant
                text == record@,
                t == tab,
                i <= k <= j <= record@.len(),
                e@ == expand(text.subrange(i as int, k as int), t),
                e@.len() <= 255 * (k - i),
            decreases j - k,
        {
            push_byte_cells(&mut e, record[k], tab);
            k = k + 1;
            assert(text.subrange(i as int, k as int).drop_last() =~= text.subrange(
                i as int,
                k - 1 as int,
            ));
        }
        let ghost rest = text.skip(i as int);
        proof {
            lemma_first_line_len(rest, j - i);
            assert(rest.take(j - i) =~= text.subrange(i as int, j as int));
        }
        if !wrap && e.len() >= width {
            push_range(&mut out, &e, 0, width);
            assert(e@.subrange(0, width as int) =~= e@.take(width as int));
            break;
        }
        let pad = pad_count(e.len(), width);
        let ghost before = out@;
        let len_e = e.len();
        push_range(&mut out, &e, 0, len_e);
        push_blanks(&mut out, pad);
        assert(e@.subrange(0, len_e as int) =~= e@);
        assert(out@ =~= before + pad_rows(e@, w));
        assert(out@.len() <= 510 * (j + 1));
        if j >= record.len() {
            assert(out@ =~= before + text_cells(rest, w, wrap, t));
            break;
        }
        proof {
            assert(rest.skip(j - i + 1) =~= text.skip(j + 1));
            assert(before + text_cells(rest, w, wrap, t) =~= out@ + text_cells(
                text.skip(j + 1),
                w,
                wrap,
                t,
            ));
        }
        i = j + 1;
        if i >= record.len() {
            assert(text.skip(i as int).len() == 0);
            assert(out@ + text_cells(text.skip(i as int), w, wrap, t) =~= out@);
            break;
        }
    }
    out
}

proof fn lemma_history_one_more(rs: Seq<Seq<u8>>, b: int, width: nat, wrap: bool, tab: nat)
    requires
        0 <= b < rs.len(),
    ensures
        history_cells(rs.take(b + 1), width, wrap, tab) == record_cells(rs[b], width, wrap, tab)
            + history_cells(rs.take(b), width, wrap, tab),
        history_cells(rs.subrange(b, rs.len() as int), width, wrap, tab) == history_cells(
            rs.subrange(b + 1, rs.len() as int),
            width,
            wrap,
            tab,
        ) + record_cells(rs[b], width, wrap, tab),
{
    let p = rs.take(b + 1);
    lemma_history_split(p, b, width, wrap, tab);
    assert(p.take(b) =~= rs.take(b));
    let one = p.skip(b);
    assert(one.drop_first() =~= Seq::<Seq<u8>>::empty());
    assert(one[0] == rs[b]);
    assert(history_cells(one.drop_first(), width, wrap, tab) == Seq::<u8>::empty());
    assert(history_cells(one, width, wrap, tab) =~= record_cells(rs[b], width, wrap, tab));
    assert(rs.subrange(b, rs.len() as int).drop_first() =~= rs.subrange(b + 1, rs.len() as int));
}

/// A byte that takes exactly one cell and breaks no line.
pub open spec fn is_plain(b: u8) -> bool {
    b != TAB && b != NEWLINE && b != CARRIAGE_RETURN && b != NUL
}

proof fn lemma_expand_plain(line: Seq<u8>, tab: nat)
    requires
        forall|i: int| 0 <= i < line.len() ==> is_plain(#[trigger] line[i]),
    ensures
        expand(line, tab) == line,
    decreases line.len(),
{
    if line.len() > 0 {
        lemma_expand_plain(line.drop_last(), tab);
        assert(is_plain(line[line.len() - 1]));
        assert(line.drop_last() + seq![line.last()] =~= line);
    }
}

proof fn lemma_pad_to_rows(n: nat, width: nat)
    requires
        width >= 1,
        n >= 1,
    ensures
        n + pad_len(n, width) == ((n + width - 1) as int / width as int) * width,
{
    let q = (n / width) as int;
    let r = (n % width) as int;
    vstd::arithmetic::div_mod::lemma_fundamental_div_mod(n as int, width as int);
    assert(n == q * width + r) by (nonlinear_arith)
        requires
            n == width * q + r,
    ;
    if r == 0 {
        vstd::arithmetic::div_mod::lemma_fundamental_div_mod_converse(
            (n + width - 1) as int,
            width as int,
            q,
            width - 1,
        );
    } else {
        assert((q + 1) * width == q * width + width) by (nonlinear_arith);
        vstd::arithmetic::div_mod::lemma_fundamental_div_mod_converse(
            (n + width - 1) as int,
            width as int,
            q + 1,
            r - 1,
        );
    }
}

/// With wrapping, a record of `L >= 1` plain bytes, with or without a final
/// newline, takes `ceil(L / width)` rows, and the rows of the older records
/// come right before them.
pub proof fn lemma_wrapped_record_rows(
    records: Seq<Seq<u8>>,
    line: Seq<u8>,
    width: nat,
    tab: nat,
)
    requires
        width >= 1,
        records.len() >= 1,
        line.len() >= 1,
        forall|i: int| 0 <= i < line.len() ==> is_plain(#[trigger] line[i]),
        records[0] == line || records[0] == line.push(NEWLINE),
    ensures
        record_cells(records[0], width, true, tab).len() == ((line.len() + width - 1) as int
            / width as int) * width,
        history_cells(records, width, true, tab) == history_cells(
            records.drop_first(),
            width,
            true,
            tab,
        ) + record_cells(records[0], width, true, tab),
{
    let text = records[0];
    lemma_first_line_len(text, line.len() as int);
    assert(text.take(line.len() as int) =~= line);
    lemma_expand_plain(line, tab);
    lemma_pad_to_rows(line.len(), width);
    if text.len() > line.len() {
        assert(text.skip(line.len() + 1 as int) =~= Seq::<u8>::empty());
        assert(pad_rows(line, width) + text_cells(Seq::<u8>::empty(), width, true, tab)
            =~= pad_rows(line, width));
    }
}

proof fn lemma_mod_sum(a: int, b: int, w: int)
    requires
        w >= 1,
        a >= 0,
        b >= 0,
        a % w == 0,
        b % w == 0,
    ensures
        (a + b) % w == 0,
{
    vstd::arithmetic::div_mod::lemma_fundamental_div_mod(a, w);
    vstd::arithmetic::div_mod::lemma_fundamental_div_mod(b, w);
    assert(a + b == (a / w + b / w) * w) by (nonlinear_arith)
        requires
            a == w * (a / w),
            b == w * (b / w),
    ;
    vstd::arithmetic::div_mod::lemma_fundamental_div_mod_converse(a + b, w, a / w + b / w, 0);
}

proof fn lemma_pad_rows_whole(n: nat, w: nat)
    requires
        w >= 1,
    ensures
        ((n + pad_len(n, w)) as int) % (w as int) == 0,
{
    vstd::arithmetic::div_mod::lemma_fundamental_div_mod(n as int, w as int);
    if n == 0 {
        vstd::arithmetic::div_mod::lemma_fundamental_div_mod_converse(w as int, w as int, 1, 0);
    } else if n % w != 0 {
        let q = (n / w) as int;
        let r = (n % w) as int;
        let pad = pad_len(n, w) as int;
        assert(pad == w - r);
        assert(n + pad == (q + 1) * w) by (nonlinear_arith)
            requires
                n == w * q + r,
                pad == w - r,
        ;
        vstd::arithmetic::div_mod::lemma_fundamental_div_mod_converse(
            (n + pad_len(n, w)) as int,
            w as int,
            (n / w + 1) as int,
            0,
        );
    }
}

proof fn lemma_text_rows(text: Seq<u8>, width: nat, wrap: bool, tab: nat)
    requires
        width >= 1,
    ensures
        (text_cells(text, width, wrap, tab).len() as int) % (width as int) == 0,
    decreases text.len(),
{
    if text.len() == 0 {
        assert(text_cells(text, width, wrap, tab).len() == 0);
        vstd::arithmetic::div_mod::lemma_fundamental_div_mod_converse(0, width as int, 0, 0);
    } else {
        let n = first_line_len(text);
        let e = expand(text.take(n as int), tab);
        let row = pad_rows(e, width);
        lemma_pad_rows_whole(e.len(), width);
        assert(row.len() == e.len() + pad_len(e.len(), width));
        assert((row.len() as int) % (width as int) == 0);
        if !wrap && e.len() >= width {
            vstd::arithmetic::div_mod::lemma_fundamental_div_mod_converse(
                width as int,
                width as int,
                1,
                0,
            );
            assert(text_cells(text, width, wrap, tab) == e.take(width as int));
        } else if n >= text.len() {
            assert(text_cells(text, width, wrap, tab) == row);
        } else {
            let rest = text_cells(text.skip((n + 1) as int), width, wrap, tab);
            lemma_text_rows(text.skip((n + 1) as int), width, wrap, tab);
            lemma_mod_sum(row.len() as int, rest.len() as int, width as int);
            assert(text_cells(text, width, wrap, tab) == row + rest);
            assert((row + rest).len() == row.len() + rest.len());
        }
    }
}

proof fn lemma_history_rows(records: Seq<Seq<u8>>, width: nat, wrap: bool, tab: nat)
    requires
        width >= 1,
    ensures
        (history_cells(records, width, wrap, tab).len() as int) % (width as int) == 0,
    decreases records.len(),
{
    if records.len() == 0 {
        vstd::arithmetic::div_mod::lemma_fundamental_div_mod_converse(0, width as int, 0, 0);
    } else {
        lemma_history_rows(records.drop_first(), width, wrap, tab);
        assert(history_cells(records, width, wrap, tab) == history_cells(
            records.drop_first(),
            width,
            wrap,
            tab,
        ) + record_cells(records[0], width, wrap, tab));
        if records[0].len() == 0 {
            vstd::arithmetic::div_mod::lemma_fundamental_div_mod_converse(
                width as int,
                width as int,
                1,
                0,
            );
            assert(record_cells(records[0], width, wrap, tab).len() == width);
        } else {
            lemma_text_rows(records[0], width, wrap, tab);
            assert(record_cells(records[0], width, wrap, tab) == text_cells(records[0], width, wrap, tab));
        }
        lemma_mod_sum(
            history_cells(records.drop_first(), width, wrap, tab).len() as int,
            record_cells(records[0], width, wrap, tab).len() as int,
            width as int,
        );
    }
}

/// What the grid shows is whole rows, no more than the grid has.
pub proof fn lemma_screen_rows(
    records: Seq<Seq<u8>>,
    width: nat,
    height: nat,
    wrap: bool,
    tab: nat,
)
    requires
        width >= 1,
    ensures
        (screen_cells(records, width, height, wrap, tab).len() as int) % (width as int) == 0,
        screen_cells(records, width, height, wrap, tab).len() <= width * height,
{
    lemma_history_rows(records, width, wrap, tab);
    vstd::arithmetic::div_mod::lemma_fundamental_div_mod_converse(
        (width * height) as int,
        width as int,
        height as int,
        0,
    );
}

/// The cells that a grid of `width` columns and `height` rows shows of the
/// records that `lines` yields (newest first), to be placed on the grid's
/// bottom rows. Records are read only until the grid is full.
pub fn compose<const N: usize>(
    lines: Iter<'_, N>,
    width: usize,
    height: usize,
    wrap: bool,
    tab: u8,
) -> (cells: Vec<u8>)
    requires
        lines.wf(),
        1 <= width <= MAX_GRID,
        height <= MAX_GRID,
        N <= MAX_RECORD_LEN,
    ensures
        cells@ == screen_cells(lines.items(), width as nat, height as nat, wrap, tab as nat),
{
    let ghost all = lines.items();
    let ghost (w, t) = (width as nat, tab as nat);
    proof {
        lines.lemma_items_fit();
        assert(width * height <= MAX_GRID * MAX_GRID) by (nonlinear_arith)
            requires
                width <= MAX_GRID,
                height <= MAX_GRID,
        ;
    }
    let full = width * height;
    let mut lines = lines;
    let mut blocks: Vec<Vec<u8>> = Vec::new();
    let mut total: usize = 0;
    assert(history_cells(all.take(0), w, wrap, t) =~= Seq::empty());
    loop
        invariant
            lines.wf(),
            w == width,
            t == tab,
            1 <= width <= MAX_GRID,
            full == width * height,
            full <= MAX_GRID * MAX_GRID,
            blocks@.len() <= all.len(),
            lines.items() == all.skip(blocks@.len() as int),
            forall|k: int| 0 <= k < all.len() ==> #[trigger] all[k].len() <= N,
            N <= MAX_RECORD_LEN,
            forall|b: int|
                0 <= b < blocks@.len() ==> #[trigger] blocks@[b]@ == record_cells(
                    all[b],
                    w,
                    wrap,
                    t,
                ),
            history_cells(all.take(blocks@.len() as int), w, wrap, t).len() == total,
            total <= full + 510 * (N + 1),
        ensures
            blocks@.len() == all.len() || total >= full,
        decreases all.len() - blocks@.len(),
    {
        if total >= full {
            break;
        }
        match lines.next() {
            None => break,
            Some(rec) => {
                let ghost b = blocks@.len() as int;
                assert(rec@ == all[b]);
                let c = layout_record(rec, width, wrap, tab);
                total = total + c.len();
                blocks.push(c);
                proof {
                    lemma_history_one_more(all, b, w, wrap, t);
                    assert(all.skip(b).drop_first() =~= all.skip(b + 1));
                }
            },
        }
    }
    let n = blocks.len();
    let mut flat: Vec<u8> = Vec::new();
    let mut b = n;
    assert(history_cells(all.subrange(n as int, n as int), w, wrap, t) =~= Seq::empty());
    while b > 0
        invariant
            b <= n == blocks@.len() <= all.len(),
            forall|i: int|
                0 <= i < blocks@.len() ==> #[trigger] blocks@[i]@ == record_cells(
                    all[i],
                    w,
                    wrap,
                    t,
                ),
            flat@ == history_cells(all.subrange(b as int, n as int), w, wrap, t),
        decreases b,
    {
        b = b - 1;
        let len_b = blocks[b].len();
        push_range(&mut flat, &blocks[b], 0, len_b);
        proof {
            assert(blocks@[b as int]@.subrange(0, len_b as int) =~= blocks@[b as int]@);
            lemma_history_one_more(all.take(n as int), b as int, w, wrap, t);
            assert(all.take(n as int).subrange(b as int, n as int) =~= all.subrange(
                b as int,
                n as int,
            ));
            assert(all.take(n as int).subrange(b + 1, n as int) =~= all.subrange(
                b + 1,
                n as int,
            ));
        }
    }
    proof {
        assert(all.subrange(0, n as int) =~= all.take(n as int));
        lemma_history_split(all, n as int, w, wrap, t);
        if n == all.len() {
            assert(all.take(n as int) =~= all);
            assert(all.skip(n as int).len() == 0);
            assert(history_cells(all.skip(n as int), w, wrap, t) + flat@ =~= flat@);
        }
    }
    if flat.len() > full {
        let mut out: Vec<u8> = Vec::new();
        let from = flat.len() - full;
        let to = flat.len();
        push_range(&mut out, &flat, from, to);
        proof {
            let h = history_cells(all, w, wrap, t);
            assert(out@ =~= h.skip(h.len() - full));
        }
        out
    } else {
        proof {
            let h = history_cells(all, w, wrap, t);
            if h.len() > full {
                assert(flat@.len() == full);
                assert(h.skip(h.len() - full) =~= flat@);
            }
        }
        flat
    }
}

} // verus!
