//! The tree pane: which key moves the tree, what each row of the pane
//! shows, the text fitted to the pane's width, and the scrollbar thumb.
use vstd::prelude::*;
use crate::app::AppSignal;
use crate::text::chars_of;
use vstd::string::*;

verus! {

/// The display width that `unicode_width` gives a character (`None` for
/// control characters).
pub uninterp spec fn unicode_char_width(c: char) -> Option<usize>;

/// Calls `<char as unicode_width::UnicodeWidthChar>::width`.
/// Trusted: the result is the value named `unicode_char_width`; as the
/// crate's source shows, characters below U+0020 and from U+007F to U+009F
/// have no width, the other ASCII characters have width 1, and a width is
/// at most 255 (it comes from a `u8`).
#[verifier::external_body]
fn char_width(c: char) -> (r: Option<usize>)
    ensures
        r == unicode_char_width(c),
        (c as u32) < 0x20 ==> r is None,
        0x20 <= (c as u32) < 0x7F ==> r == Some(1usize),
        0x7F <= (c as u32) < 0xA0 ==> r is None,
        r matches Some(w) ==> w <= 255,
{
    unicode_width::UnicodeWidthChar::width(c)
}

/// The columns a character takes in the pane: its width, or 1 for a
/// character without one.
pub open spec fn cell_width(c: char) -> nat {
    match unicode_char_width(c) {
        Some(w) => w as nat,
        None => 1,
    }
}

/// How many leading characters of `s` fit in `budget` columns, taking
/// characters until the next one would not fit.
pub open spec fn fitting_len(s: Seq<char>, budget: nat) -> nat
    decreases s.len(),
{
    if s.len() == 0 || cell_width(s[0]) > budget {
        0
    } else {
        1 + fitting_len(s.drop_first(), (budget - cell_width(s[0])) as nat)
    }
}

/// The columns the first `n` characters of `s` take.
pub open spec fn width_of(s: Seq<char>) -> nat
    decreases s.len(),
{
    if s.len() == 0 {
        0
    } else {
        cell_width(s[0]) + width_of(s.drop_first())
    }
}

/// `n` spaces.
pub open spec fn spaces(n: nat) -> Seq<char> {
    Seq::new(n, |i: int| ' ')
}

/// The character that marks text cut short.
pub open spec fn ellipsis() -> char {
    '\u{2026}'
}

/// `s` fitted to exactly `max_width` columns: text that fits is padded with
/// spaces; longer text is cut to what fits before an ellipsis, which ends
/// it (then padded, when a wide character left a column free); when not
/// even the ellipsis fits, only spaces.
pub open spec fn fitted_text(s: Seq<char>, max_width: nat) -> Seq<char> {
    let e = cell_width(ellipsis());
    if width_of(s) <= max_width {
        s + spaces((max_width - width_of(s)) as nat)
    } else if e <= max_width {
        let b = (max_width - e) as nat;
        let p = s.take(fitting_len(s, b) as int);
        p + seq![ellipsis()] + spaces((b - width_of(p)) as nat)
    } else {
        spaces(max_width)
    }
}

proof fn lemma_fitting(s: Seq<char>, budget: nat)
    ensures
        fitting_len(s, budget) <= s.len(),
        width_of(s.take(fitting_len(s, budget) as int)) <= budget,
    decreases s.len(),
{
    if s.len() == 0 || cell_width(s[0]) > budget {
        assert(s.take(0) =~= Seq::<char>::empty());
    } else {
        let rest = s.drop_first();
        lemma_fitting(rest, (budget - cell_width(s[0])) as nat);
        let n = fitting_len(s, budget);
        assert(s.take(n as int).drop_first() =~= rest.take(n - 1));
        assert(s.take(n as int)[0] == s[0]);
    }
}

/// All of `s` fits in `budget` columns exactly when its width is at most
/// `budget`.
proof fn lemma_fits_all(s: Seq<char>, budget: nat)
    ensures
        (fitting_len(s, budget) == s.len()) == (width_of(s) <= budget),
    decreases s.len(),
{
    if s.len() > 0 && cell_width(s[0]) <= budget {
        lemma_fits_all(s.drop_first(), (budget - cell_width(s[0])) as nat);
    }
}

/// The number of leading characters of `chars` that fit in `budget`
/// columns, and the columns they take.
fn fit_prefix(chars: &Vec<char>, budget: usize) -> (r: (usize, usize))
    ensures
        r.0 == fitting_len(chars@, budget as nat),
        r.1 == width_of(chars@.take(r.0 as int)),
        r.1 <= budget,
{
    let mut width: usize = 0;
    let mut n: usize = 0;
    let mut fits = true;
    proof {
        assert(chars@.take(0) =~= Seq::<char>::empty());
        assert(chars@.skip(0) =~= chars@);
    }
    while n < chars.len() && fits
        invariant
            n <= chars@.len(),
            width <= budget,
            width == width_of(chars@.take(n as int)),
            fits ==> fitting_len(chars@, budget as nat) == n + fitting_len(
                chars@.skip(n as int),
                (budget - width) as nat,
            ),
            !fits ==> fitting_len(chars@, budget as nat) == n,
        decreases chars@.len() - n, if fits { 1int } else { 0int },
    {
        let c = chars[n];
        let w = match char_width(c) {
            Some(w) => w,
            None => 1,
        };
        proof {
            assert(chars@.skip(n as int)[0] == c);
            assert(chars@.skip(n as int).drop_first() =~= chars@.skip(n + 1));
            lemma_width_of_push(chars@.take(n as int), c);
            assert(chars@.take(n + 1) =~= chars@.take(n as int).push(c));
        }
        if w > budget - width {
            fits = false;
        } else {
            width = width + w;
            n = n + 1;
        }
    }
    proof {
        if fits {
            assert(chars@.skip(n as int).len() == 0);
        }
    }
    (n, width)
}

/// Appends `n` spaces.
fn push_spaces(r: &mut String, n: usize)
    ensures
        final(r)@ == old(r)@ + spaces(n as nat),
{
    let mut k: usize = 0;
    proof {
        assert(r@ =~= old(r)@ + spaces(0));
    }
    while k < n
        invariant
            k <= n,
            r@ == old(r)@ + spaces(k as nat),
        decreases n - k,
    {
        r.append(" ");
        proof {
            reveal_strlit(" ");
            assert(spaces((k + 1) as nat) =~= spaces(k as nat).push(' '));
        }
        k = k + 1;
    }
}

/// Text fitted to exactly `max_width` display columns: padded with spaces
/// when shorter, cut short with an ellipsis when longer.
pub fn truncate_to_width(s: &str, max_width: usize) -> (r: String)
    ensures
        r@ == fitted_text(s@, max_width as nat),
        width_of(r@) == max_width,
{
    let space_width = char_width(' ');
    let chars = chars_of(s);
    let (n, w1) = fit_prefix(&chars, max_width);
    proof {
        lemma_fits_all(chars@, max_width as nat);
        lemma_fitted_width(s@, max_width as nat);
    }
    if n == chars.len() {
        let mut r = String::from_str(s);
        proof {
            assert(chars@.take(n as int) =~= s@);
        }
        push_spaces(&mut r, max_width - w1);
        return r;
    }
    let ew = match char_width('\u{2026}') {
        Some(w) => w,
        None => 1,
    };
    if ew <= max_width {
        let (n2, w2) = fit_prefix(&chars, max_width - ew);
        proof {
            lemma_fitting(chars@, (max_width - ew) as nat);
        }
        let mut r = String::from_str(s.substring_char(0, n2));
        r.append("\u{2026}");
        proof {
            reveal_strlit("\u{2026}");
            assert(s@.take(n2 as int) =~= chars@.take(n2 as int));
        }
        push_spaces(&mut r, max_width - ew - w2);
        proof {
            assert(ew == cell_width(ellipsis()));
            assert(!(width_of(s@) <= max_width));
            assert(r@ =~= fitted_text(s@, max_width as nat));
        }
        r
    } else {
        let mut r = String::new();
        push_spaces(&mut r, max_width);
        proof {
            assert(r@ =~= spaces(max_width as nat));
        }
        r
    }
}

/// The width of a sequence with one more character.
proof fn lemma_width_of_push(s: Seq<char>, c: char)
    ensures
        width_of(s.push(c)) == width_of(s) + cell_width(c),
    decreases s.len(),
{
    if s.len() > 0 {
        lemma_width_of_push(s.drop_first(), c);
        assert(s.push(c).drop_first() =~= s.drop_first().push(c));
        assert(s.push(c)[0] == s[0]);
    } else {
        assert(s.push(c).drop_first() =~= Seq::<char>::empty());
        assert(s.push(c)[0] == c);
        assert(width_of(s.push(c).drop_first()) == 0);
    }
}

proof fn lemma_width_of_concat(a: Seq<char>, b: Seq<char>)
    ensures
        width_of(a + b) == width_of(a) + width_of(b),
    decreases a.len(),
{
    if a.len() > 0 {
        lemma_width_of_concat(a.drop_first(), b);
        assert((a + b).drop_first() =~= a.drop_first() + b);
        assert((a + b)[0] == a[0]);
    } else {
        assert(a + b =~= b);
    }
}

proof fn lemma_width_of_spaces(n: nat)
    requires
        cell_width(' ') == 1,
    ensures
        width_of(spaces(n)) == n,
    decreases n,
{
    if n > 0 {
        lemma_width_of_spaces((n - 1) as nat);
        assert(spaces(n).drop_first() =~= spaces((n - 1) as nat));
        assert(spaces(n)[0] == ' ');
    }
}

/// The text fitted to a width takes exactly that many columns (a space
/// taking one column, as `unicode_width` measures it).
pub proof fn lemma_fitted_width(s: Seq<char>, max_width: nat)
    requires
        unicode_char_width(' ') == Some(1usize),
    ensures
        width_of(fitted_text(s, max_width)) == max_width,
{
    let e = cell_width(ellipsis());
    if width_of(s) <= max_width {
        let pad = (max_width - width_of(s)) as nat;
        lemma_width_of_concat(s, spaces(pad));
        lemma_width_of_spaces(pad);
    } else if e <= max_width {
        let b = (max_width - e) as nat;
        lemma_fitting(s, b);
        let p = s.take(fitting_len(s, b) as int);
        let pad = (b - width_of(p)) as nat;
        lemma_width_of_concat(p, seq![ellipsis()]);
        lemma_width_of_concat(p + seq![ellipsis()], spaces(pad));
        lemma_width_of_spaces(pad);
        let one = seq![ellipsis()];
        assert(one.len() == 1);
        assert(one.drop_first() =~= Seq::<char>::empty());
        assert(width_of(one.drop_first()) == 0);
        assert(one[0] == ellipsis());
        assert(width_of(one) == cell_width(one[0]) + width_of(one.drop_first()));
    } else {
        lemma_width_of_spaces(max_width);
    }
}

/// The prefix that fits takes every character that still fits: the next
/// one, if any, would go past the budget.
proof fn lemma_fitting_maximal(s: Seq<char>, budget: nat)
    ensures
        fitting_len(s, budget) < s.len() ==> width_of(s.take(fitting_len(s, budget) as int + 1)) > budget,
    decreases s.len(),
{
    if s.len() == 0 {
    } else if cell_width(s[0]) > budget {
        assert(s.take(1).drop_first() =~= Seq::<char>::empty());
        assert(s.take(1)[0] == s[0]);
        assert(width_of(s.take(1).drop_first()) == 0);
    } else {
        let rest = s.drop_first();
        let b2 = (budget - cell_width(s[0])) as nat;
        lemma_fitting_maximal(rest, b2);
        let n = fitting_len(s, budget) as int;
        if n < s.len() {
            assert(s.take(n + 1).drop_first() =~= rest.take(n - 1 + 1));
            assert(s.take(n + 1)[0] == s[0]);
        }
    }
}

/// The shape of fitted text, character by character: text that fits comes
/// first, then only spaces; longer text (when the ellipsis fits) keeps its
/// longest prefix that leaves room for the ellipsis, then the ellipsis,
/// then only spaces; otherwise there are only spaces.
pub proof fn lemma_fitted_text_shape(s: Seq<char>, w: nat)
    ensures
        width_of(s) <= w ==> {
            let f = fitted_text(s, w);
            &&& f.len() >= s.len()
            &&& f.take(s.len() as int) == s
            &&& forall|i: int| s.len() <= i < f.len() ==> f[i] == ' '
        },
        width_of(s) > w && cell_width('\u{2026}') <= w ==> exists|n: int|
            #![trigger s.take(n)]
            0 <= n < s.len() && fitted_text(s, w).take(n) == s.take(n) && fitted_text(s, w)[n] == '\u{2026}'
                && (forall|i: int| n < i < fitted_text(s, w).len() ==> fitted_text(s, w)[i] == ' ')
                && width_of(s.take(n)) + cell_width('\u{2026}') <= w && width_of(s.take(n + 1)) + cell_width(
                '\u{2026}',
            ) > w,
        width_of(s) > w && cell_width('\u{2026}') > w ==> forall|i: int|
            0 <= i < fitted_text(s, w).len() ==> fitted_text(s, w)[i] == ' ',
{
    let f = fitted_text(s, w);
    let e = cell_width(ellipsis());
    lemma_fits_all(s, w);
    if width_of(s) <= w {
        assert(f.take(s.len() as int) =~= s);
    } else if e <= w {
        let b = (w - e) as nat;
        lemma_fitting(s, b);
        lemma_fitting_maximal(s, b);
        lemma_fits_all(s, b);
        let n = fitting_len(s, b) as int;
        if n == s.len() {
            lemma_width_monotone(s, b, w);
        }
        let p = s.take(n);
        assert(f.take(n) =~= p);
        assert(f[n] == ellipsis());
    }
}

/// Text no wider than a budget is no wider than a larger one.
proof fn lemma_width_monotone(s: Seq<char>, b: nat, w: nat)
    requires
        b <= w,
        width_of(s) <= b,
    ensures
        width_of(s) <= w,
{
}

/// The rows of the scrollbar track that the thumb covers, `(start, end)`.
pub open spec fn thumb_bounds(total: int, viewport: int, offset: int) -> (int, int) {
    if viewport == 0 || total <= viewport {
        (0, viewport)
    } else {
        let size = {
            let s = (viewport * viewport) / total;
            if s < 1 { 1 } else if s > viewport { viewport } else { s }
        };
        let max_start = viewport - size;
        let scrollable = total - viewport;
        let start = ((if offset < scrollable { offset } else { scrollable }) * max_start) / scrollable;
        let start = if start < max_start { start } else { max_start };
        (start, start + size)
    }
}

/// The scrollbar thumb for `total_lines` lines shown `viewport_rows` at a
/// time from `scroll_offset`: the whole track when everything fits, else a
/// thumb at least one row tall, proportional to the visible share and placed
/// in proportion to the offset.
pub fn scrollbar_thumb_bounds(total_lines: usize, viewport_rows: usize, scroll_offset: usize) -> (r: (
    usize,
    usize,
))
    requires
        viewport_rows * viewport_rows <= usize::MAX,
        total_lines * viewport_rows <= usize::MAX,
    ensures
        (r.0 as int, r.1 as int) == thumb_bounds(total_lines as int, viewport_rows as int, scroll_offset as int),
{
    if viewport_rows == 0 || total_lines <= viewport_rows {
        return (0, viewport_rows);
    }
    let raw = (viewport_rows * viewport_rows) / total_lines;
    let thumb_size = if raw < 1 { 1 } else if raw > viewport_rows { viewport_rows } else { raw };
    let max_start = viewport_rows - thumb_size;
    let scrollable = total_lines - viewport_rows;
    let offset = if scroll_offset < scrollable { scroll_offset } else { scrollable };
    proof {
        assert(offset * max_start <= total_lines * viewport_rows) by (nonlinear_arith)
            requires
                offset <= total_lines,
                max_start <= viewport_rows,
        ;
    }
    let start = (offset * max_start) / scrollable;
    let start = if start < max_start { start } else { max_start };
    (start, start + thumb_size)
}

/// A law of the thumb: it lies within the track, and is at least one row
/// tall whenever the track has rows.
pub proof fn lemma_thumb_within_track(total: int, viewport: int, offset: int)
    requires
        0 <= total,
        0 <= viewport,
        0 <= offset,
    ensures
        0 <= thumb_bounds(total, viewport, offset).0 <= thumb_bounds(total, viewport, offset).1 <= viewport,
        viewport > 0 ==> thumb_bounds(total, viewport, offset).1 - thumb_bounds(total, viewport, offset).0 >= 1,
{
    if viewport > 0 && total > viewport {
        let s = (viewport * viewport) / total;
        assert(s >= 0) by (nonlinear_arith)
            requires
                viewport >= 0,
                total > 0,
                s == (viewport * viewport) / total,
        ;
        let size = if s < 1 { 1 } else if s > viewport { viewport } else { s };
        let max_start = viewport - size;
        let scrollable = total - viewport;
        let o = if offset < scrollable { offset } else { scrollable };
        assert((o * max_start) / scrollable >= 0) by (nonlinear_arith)
            requires
                o >= 0,
                max_start >= 0,
                scrollable > 0,
        ;
    }
}

/// Where the thumb sits: when everything fits it fills the track; at the
/// top of the list it starts at the top of the track; scrolled to the end
/// (or past it) it ends at the bottom; it never moves up as the offset
/// grows; and its size does not depend on the offset.
pub proof fn lemma_thumb_follows_offset(total: int, viewport: int, o1: int, o2: int)
    requires
        0 <= total,
        0 < viewport,
        0 <= o1 <= o2,
    ensures
        total <= viewport ==> thumb_bounds(total, viewport, o1) == (0int, viewport),
        thumb_bounds(total, viewport, 0).0 == 0,
        total > viewport && o2 >= total - viewport ==> thumb_bounds(total, viewport, o2).1 == viewport,
        thumb_bounds(total, viewport, o1).0 <= thumb_bounds(total, viewport, o2).0,
        thumb_bounds(total, viewport, o1).1 - thumb_bounds(total, viewport, o1).0 == thumb_bounds(
            total,
            viewport,
            o2,
        ).1 - thumb_bounds(total, viewport, o2).0,
{
    if total > viewport {
        let s = (viewport * viewport) / total;
        let size = if s < 1 { 1 } else if s > viewport { viewport } else { s };
        let max_start = viewport - size;
        let scrollable = total - viewport;
        let a = if o1 < scrollable { o1 } else { scrollable };
        let b = if o2 < scrollable { o2 } else { scrollable };
        assert(a <= b);
        assert((a * max_start) / scrollable <= (b * max_start) / scrollable) by (nonlinear_arith)
            requires
                0 <= a <= b,
                max_start >= 0,
                scrollable > 0,
        ;
        assert((0 * max_start) / scrollable == 0) by (nonlinear_arith)
            requires
                scrollable > 0,
        ;
        assert((scrollable * max_start) / scrollable == max_start) by (nonlinear_arith)
            requires
                scrollable > 0,
        ;
    }
}

/// One content row of the tree pane.
pub struct PaneRow {
    /// The row's text, exactly as wide as the content area.
    pub text: String,
    /// Whether the row shows the selected entry (its line starts with `>`).
    pub selected: bool,
    /// The scrollbar cell of the row: `Some(true)` on the thumb,
    /// `Some(false)` on the track, `None` when there is no scrollbar.
    pub scrollbar: Option<bool>,
}

/// What the tree pane shows: a title row, then the content rows.
pub struct TreePane {
    pub title: String,
    pub rows: Vec<PaneRow>,
    /// The width of the content area; the scrollbar, when there is one, is
    /// the column after it.
    pub content_cols: usize,
}

/// The number of content rows under the title.
pub open spec fn content_rows(max_rows: int) -> int {
    if max_rows > 0 { max_rows - 1 } else { 0 }
}

/// Whether the pane draws a scrollbar.
pub open spec fn pane_scrolls(line_count: int, max_rows: int, max_cols: int) -> bool {
    content_rows(max_rows) > 0 && line_count > content_rows(max_rows) && max_cols > 1
}

/// The width of the content area.
pub open spec fn content_cols(line_count: int, max_rows: int, max_cols: int) -> int {
    if pane_scrolls(line_count, max_rows, max_cols) { max_cols - 1 } else { max_cols }
}

/// Whether a line marks the selected entry.
pub open spec fn marks_selection(line: Seq<char>) -> bool {
    line.len() > 0 && line[0] == '>'
}

/// Row `r` of the pane for `lines` scrolled by `offset`: exactly as wide as
/// the content area (the scrollbar cell, when there is one, follows it).
pub open spec fn pane_row_ok(
    row: PaneRow,
    r: int,
    lines: Seq<Seq<char>>,
    max_rows: int,
    max_cols: int,
    offset: int,
) -> bool {
    let cols = content_cols(lines.len() as int, max_rows, max_cols);
    let k = offset + r;
    &&& width_of(row.text@) == cols
    &&& if k < lines.len() {
        &&& row.text@ == fitted_text(lines[k], cols as nat)
        &&& row.selected == marks_selection(lines[k])
    } else {
        &&& row.text@ == fitted_text(seq![], cols as nat)
        &&& !row.selected
    }
    &&& row.scrollbar == if pane_scrolls(lines.len() as int, max_rows, max_cols) {
        let b = thumb_bounds(lines.len() as int, content_rows(max_rows), offset);
        Some(b.0 <= r < b.1)
    } else {
        None::<bool>
    }
}

/// The tree pane for `lines` in a box of `max_rows` by `max_cols` cells:
/// the title (the root's display path after a space) fitted to the width,
/// then one row per content line from `scroll_offset`, blank past the end,
/// with a scrollbar column when the lines do not all fit.
pub fn tree_pane(
    root_display: &str,
    lines: &Vec<String>,
    max_rows: usize,
    max_cols: usize,
    scroll_offset: usize,
) -> (pane: TreePane)
    requires
        max_rows * max_rows <= usize::MAX,
        lines@.len() * max_rows <= usize::MAX,
        scroll_offset + max_rows <= usize::MAX,
    ensures
        pane.title@ == fitted_text(seq![' '] + root_display@, max_cols as nat),
        width_of(pane.title@) == max_cols,
        pane.rows@.len() == content_rows(max_rows as int),
        pane.content_cols == content_cols(lines@.len() as int, max_rows as int, max_cols as int),
        forall|r: int|
            0 <= r < pane.rows@.len() ==> pane_row_ok(
                #[trigger] pane.rows@[r],
                r,
                lines@.map_values(|l: String| l@),
                max_rows as int,
                max_cols as int,
                scroll_offset as int,
            ),
{
    let ghost ls = lines@.map_values(|l: String| l@);
    let mut title_text = String::from_str(" ");
    title_text.append(root_display);
    proof {
        reveal_strlit(" ");
        assert(title_text@ =~= seq![' '] + root_display@);
    }
    let title = truncate_to_width(title_text.as_str(), max_cols);
    let rows_count = if max_rows > 0 { max_rows - 1 } else { 0 };
    let line_count = lines.len();
    let scrolls = rows_count > 0 && line_count > rows_count && max_cols > 1;
    let cols = if scrolls { max_cols - 1 } else { max_cols };
    proof {
        assert(rows_count * rows_count <= max_rows * max_rows) by (nonlinear_arith)
            requires
                rows_count <= max_rows,
        ;
        assert(line_count * rows_count <= line_count * max_rows) by (nonlinear_arith)
            requires
                rows_count <= max_rows,
        ;
    }
    let (thumb_start, thumb_end) = scrollbar_thumb_bounds(line_count, rows_count, scroll_offset);
    let mut rows: Vec<PaneRow> = Vec::new();
    let mut r: usize = 0;
    while r < rows_count
        invariant
            ls == lines@.map_values(|l: String| l@),
            line_count == lines@.len(),
            rows_count == content_rows(max_rows as int),
            scrolls == pane_scrolls(line_count as int, max_rows as int, max_cols as int),
            cols == content_cols(line_count as int, max_rows as int, max_cols as int),
            (thumb_start as int, thumb_end as int) == thumb_bounds(line_count as int, rows_count as int, scroll_offset as int),
            scroll_offset + max_rows <= usize::MAX,
            r <= rows_count,
            rows@.len() == r,
            forall|q: int|
                0 <= q < r ==> pane_row_ok(
                    #[trigger] rows@[q],
                    q,
                    ls,
                    max_rows as int,
                    max_cols as int,
                    scroll_offset as int,
                ),
        decreases rows_count - r,
    {
        let k = scroll_offset + r;
        let row = if k < lines.len() {
            let line = &lines[k];
            let text = truncate_to_width(line.as_str(), cols);
            let selected = line.as_str().unicode_len() > 0 && line.as_str().get_char(0) == '>';
            PaneRow { text, selected, scrollbar: if scrolls { Some(thumb_start <= r && r < thumb_end) } else { None } }
        } else {
            let text = truncate_to_width("", cols);
            proof {
                reveal_strlit("");
            }
            PaneRow { text, selected: false, scrollbar: if scrolls { Some(thumb_start <= r && r < thumb_end) } else { None } }
        };
        rows.push(row);
        r = r + 1;
    }
    TreePane { title, rows, content_cols: cols }
}

/// The keys that the tree pane reacts to, pressed without modifiers.
pub enum TreeKey {
    Up,
    Down,
    Right,
    Left,
    Enter,
    Backspace,
    /// Any other key.
    Other,
}

/// What a key does in the tree pane: the signal it sends (the key is then
/// consumed), or `None` when the key is left to propagate.
pub fn handle_event(key: TreeKey) -> (r: Option<AppSignal>)
    ensures
        r == match key {
            TreeKey::Up => Some(AppSignal::TreeMoveUp),
            TreeKey::Down => Some(AppSignal::TreeMoveDown),
            TreeKey::Right => Some(AppSignal::TreeExpand),
            TreeKey::Left => Some(AppSignal::TreeCollapse),
            TreeKey::Enter => Some(AppSignal::TreeEnter),
            TreeKey::Backspace => Some(AppSignal::TreeGoToParent),
            TreeKey::Other => None,
        },
{
    match key {
        TreeKey::Up => Some(AppSignal::TreeMoveUp),
        TreeKey::Down => Some(AppSignal::TreeMoveDown),
        TreeKey::Right => Some(AppSignal::TreeExpand),
        TreeKey::Left => Some(AppSignal::TreeCollapse),
        TreeKey::Enter => Some(AppSignal::TreeEnter),
        TreeKey::Backspace => Some(AppSignal::TreeGoToParent),
        TreeKey::Other => None,
    }
}

} // verus!
