//! A minimal ANSI terminal emulator whose contents can be read back as a
//! string.
//!
//! Raw terminal output — UTF-8 text interleaved with ANSI/VT escape
//! sequences — is fed to [`Term::feed`], which parses it into discrete
//! commands and applies each to a fixed-width, growing cell grid.
//! [`Term::contents_to_string`] renders the grid as plain text at any time.
use vstd::prelude::*;

pub mod parser;

use parser::{AnsiParser, TermCmd, parse_bytes, parser_init, utf8_prefix_ok, ParserView};
use vstd::arithmetic::div_mod::{
    lemma_basic_div, lemma_fundamental_div_mod, lemma_fundamental_div_mod_converse,
    lemma_mod_bound, lemma_small_mod,
};

verus! {

// ---------------------------------------------------------------------------
// The grid model, mathematically
// ---------------------------------------------------------------------------

/// Mathematical state of the cell grid: a `width * height` row-major sequence
/// of cells and the cursor position.
#[verifier::ext_equal]
pub struct GridView {
    /// Fixed number of columns.
    pub width: nat,
    /// Number of allocated rows.
    pub height: nat,
    /// Row-major cell contents, exactly `width * height` characters.
    pub cells: Seq<char>,
    /// Cursor column.
    pub x: nat,
    /// Cursor row.
    pub y: nat,
}

impl GridView {
    /// Well-formedness: positive width, a full rectangle of cells, and a
    /// cursor within machine bounds.
    pub open spec fn wf(&self) -> bool {
        &&& 1 <= self.width <= u16::MAX
        &&& self.cells.len() == self.width * self.height
        &&& self.x <= u16::MAX
        &&& self.y <= usize::MAX
    }

    /// No row has ever been allocated.
    pub open spec fn is_empty(&self) -> bool {
        self.cells.len() == 0
    }

    /// The grid as text: each row rendered as exactly `width` characters,
    /// each followed by one newline.
    pub open spec fn render(&self) -> Seq<char> {
        render_rows(self.cells, self.width, self.height)
    }
}

/// The grid of a freshly constructed terminal: no rows, cursor at origin.
pub open spec fn grid_init(width: nat) -> GridView {
    GridView { width, height: 0, cells: Seq::empty(), x: 0, y: 0 }
}

/// Addition saturating at `cap`.
pub open spec fn sat_add(a: nat, b: nat, cap: nat) -> nat {
    if a + b > cap {
        cap
    } else {
        a + b
    }
}

/// Subtraction saturating at zero.
pub open spec fn sat_sub(a: nat, b: nat) -> nat {
    if a >= b {
        (a - b) as nat
    } else {
        0
    }
}

/// Row `y` of the cells.
pub open spec fn row_chars(cells: Seq<char>, width: nat, y: nat) -> Seq<char> {
    cells.subrange((y * width) as int, (y * width + width) as int)
}

/// The first `h` rows as text, each row followed by one newline.
pub open spec fn render_rows(cells: Seq<char>, width: nat, h: nat) -> Seq<char>
    decreases h,
{
    if h == 0 {
        Seq::empty()
    } else {
        render_rows(cells, width, (h - 1) as nat) + row_chars(cells, width, (h - 1) as nat)
            + seq!['\n']
    }
}

/// Writing one character: the cursor's column overflow, if any, is first
/// resolved into the following rows; the grid grows to contain the cursor's
/// row; the character lands in the cursor's cell; then the column advances by
/// one, wrapping to the start of the next row at `width`.
pub open spec fn grid_put_char(g: GridView, c: char) -> GridView {
    let y1 = sat_add(g.y, g.x / g.width, usize::MAX as nat);
    let x1 = g.x % g.width;
    let h1 = if y1 + 1 > g.height {
        y1 + 1
    } else {
        g.height
    };
    let grown = g.cells + Seq::new((h1 - g.height) as nat * g.width, |i: int| ' ');
    let written = grown.update((y1 * g.width + x1) as int, c);
    if x1 + 1 == g.width {
        GridView {
            height: h1,
            cells: written,
            x: 0,
            y: sat_add(y1, 1, usize::MAX as nat),
            ..g
        }
    } else {
        GridView { height: h1, cells: written, x: x1 + 1, y: y1, ..g }
    }
}

/// Erasing to the end of the line blanks the cells at or after the cursor's
/// column on the cursor's row; no other cell changes and nothing grows.
pub open spec fn grid_erase_eol(g: GridView) -> GridView {
    GridView {
        cells: Seq::new(
            g.cells.len(),
            |i: int|
                if i / (g.width as int) == g.y && i % (g.width as int) >= g.x {
                    ' '
                } else {
                    g.cells[i]
                },
        ),
        ..g
    }
}

/// The effect of one command on the grid. Clearing blanks every allocated
/// cell whatever the mode; synchronized-update markers are advisory and do
/// not change the grid.
pub open spec fn grid_apply(g: GridView, cmd: TermCmd) -> GridView {
    match cmd {
        TermCmd::PutChar(c) => grid_put_char(g, c),
        TermCmd::CarriageReturn => GridView { x: 0, ..g },
        TermCmd::LineFeed => GridView { y: sat_add(g.y, 1, usize::MAX as nat), ..g },
        TermCmd::CursorUp(n) => GridView { y: sat_sub(g.y, n as nat), ..g },
        TermCmd::CursorDown(n) => GridView { y: sat_add(g.y, n as nat, usize::MAX as nat), ..g },
        TermCmd::CursorLeft(n) => GridView { x: sat_sub(g.x, n as nat), ..g },
        TermCmd::CursorRight(n) => GridView { x: sat_add(g.x, n as nat, u16::MAX as nat), ..g },
        TermCmd::CursorCrDown(n) => GridView {
            x: 0,
            y: sat_add(g.y, n as nat, usize::MAX as nat),
            ..g
        },
        TermCmd::CursorCrUp(n) => GridView { x: 0, y: sat_sub(g.y, n as nat), ..g },
        TermCmd::CursorSet { x, y } => GridView { x: x as nat, y: y as nat, ..g },
        TermCmd::EraseFromCursorToEol => grid_erase_eol(g),
        TermCmd::Clear(_mode) => GridView {
            cells: Seq::new(g.cells.len(), |i: int| ' '),
            ..g
        },
        TermCmd::BeginSyncUpdate => g,
        TermCmd::EndSyncUpdate => g,
    }
}

/// A whole command sequence applied in order.
pub open spec fn grid_apply_all(g: GridView, cmds: Seq<TermCmd>) -> GridView
    decreases cmds.len(),
{
    if cmds.len() == 0 {
        g
    } else {
        grid_apply_all(grid_apply(g, cmds[0]), cmds.subrange(1, cmds.len() as int))
    }
}

/// Every command preserves grid well-formedness.
pub proof fn lemma_grid_apply_wf(g: GridView, cmd: TermCmd)
    requires
        g.wf(),
    ensures
        grid_apply(g, cmd).wf(),
{
    match cmd {
        TermCmd::PutChar(c) => {
            let y1 = sat_add(g.y, g.x / g.width, usize::MAX as nat);
            let x1 = g.x % g.width;
            let h1 = if y1 + 1 > g.height {
                y1 + 1
            } else {
                g.height
            };
            lemma_mod_bound(g.x as int, g.width as int);
            let gw = g.width;
            let gh = g.height;
            let n = g.cells.len();
            assert(n + (h1 - gh) as nat * gw == gw * h1) by (nonlinear_arith)
                requires
                    n == gw * gh,
                    gh <= h1,
            ;
            let grown = g.cells + Seq::new((h1 - g.height) as nat * g.width, |i: int| ' ');
            assert(grown.len() == n + (h1 - gh) as nat * gw);
            lemma_cell_index(gw as int, h1 as int, y1 as int, x1 as int);
            assert(grid_put_char(g, c).cells.len() == g.width * h1);
            assert(grid_put_char(g, c).height == h1);
            assert(grid_put_char(g, c).x <= u16::MAX);
        },
        _ => {},
    }
}

/// Applying a concatenation is applying the parts in turn.
pub proof fn lemma_grid_apply_all_concat(g: GridView, a: Seq<TermCmd>, b: Seq<TermCmd>)
    ensures
        grid_apply_all(g, a + b) == grid_apply_all(grid_apply_all(g, a), b),
    decreases a.len(),
{
    if a.len() == 0 {
        assert(a + b =~= b);
    } else {
        let ab = a + b;
        assert(ab[0] == a[0]);
        assert(ab.subrange(1, ab.len() as int) =~= a.subrange(1, a.len() as int) + b);
        lemma_grid_apply_all_concat(grid_apply(g, a[0]), a.subrange(1, a.len() as int), b);
    }
}

/// Applying one more command at the end.
pub proof fn lemma_grid_apply_all_snoc(g: GridView, cmds: Seq<TermCmd>, cmd: TermCmd)
    ensures
        grid_apply_all(g, cmds.push(cmd)) == grid_apply(grid_apply_all(g, cmds), cmd),
{
    assert(cmds.push(cmd) =~= cmds + seq![cmd]);
    lemma_grid_apply_all_concat(g, cmds, seq![cmd]);
    let g1 = grid_apply_all(g, cmds);
    assert(seq![cmd].subrange(1, 1) =~= Seq::<TermCmd>::empty());
    assert(seq![cmd][0] == cmd);
    assert(grid_apply_all(g1, seq![cmd]) == grid_apply_all(
        grid_apply(g1, cmd),
        seq![cmd].subrange(1, 1),
    ));
    assert(grid_apply_all(grid_apply(g1, cmd), Seq::<TermCmd>::empty()) == grid_apply(g1, cmd));
}

/// Division and modulus of a row-major cell index.
proof fn lemma_cell_index(w: int, h: int, y: int, x: int)
    requires
        1 <= w,
        0 <= y < h,
        0 <= x < w,
    ensures
        0 <= y * w + x,
        y * w + x < w * h,
        y * w + w <= w * h,
        (y * w + x) / w == y,
        (y * w + x) % w == x,
{
    lemma_fundamental_div_mod_converse(y * w + x, w, y, x);
    assert(0 <= y * w + x && y * w + x < w * h && y * w + w <= w * h) by (nonlinear_arith)
        requires
            1 <= w,
            0 <= y < h,
            0 <= x < w,
    ;
}

/// A cell index decomposed into its row and column.
proof fn lemma_index_cell(w: int, h: int, i: int)
    requires
        1 <= w,
        0 <= h,
        0 <= i < w * h,
    ensures
        0 <= i % w < w,
        0 <= i / w < h,
        i == (i / w) * w + (i % w),
{
    lemma_fundamental_div_mod(i, w);
    lemma_mod_bound(i, w);
    assert((i / w) * w == w * (i / w)) by (nonlinear_arith);
    assert(0 <= i / w < h) by (nonlinear_arith)
        requires
            1 <= w,
            0 <= h,
            0 <= i < w * h,
            i == w * (i / w) + (i % w),
            0 <= i % w < w,
    ;
}

// ---------------------------------------------------------------------------
// The executable grid
// ---------------------------------------------------------------------------

/// Cursor position: column `x`, row `y`.
#[derive(Debug, Clone, Copy)]
struct Cursor {
    x: u16,
    y: usize,
}

impl Cursor {
    /// Row-major cell index of this position.
    fn index(&self, width: u16) -> (r: usize)
        requires
            self.y * width + self.x <= usize::MAX,
        ensures
            r == self.y * width + self.x,
    {
        self.y * (width as usize) + (self.x as usize)
    }
}

/// The cell grid and cursor, owned by a [`Term`].
struct TermState {
    width: u16,
    height: usize,
    cells: Vec<char>,
    cursor: Cursor,
}

impl View for TermState {
    type V = GridView;

    closed spec fn view(&self) -> GridView {
        GridView {
            width: self.width as nat,
            height: self.height as nat,
            cells: self.cells@,
            x: self.cursor.x as nat,
            y: self.cursor.y as nat,
        }
    }
}

/// Relies on `String::push`: appends exactly the given character.
#[verifier::external_body]
fn push_char(s: &mut String, c: char)
    ensures
        final(s)@ == old(s)@.push(c),
{
    s.push(c);
}

impl TermState {
    spec fn wf(&self) -> bool {
        self@.wf()
    }

    fn new(width: u16) -> (r: Self)
        requires
            width >= 1,
        ensures
            r@ == grid_init(width as nat),
            r.wf(),
    {
        let r = TermState { width, height: 0, cells: Vec::new(), cursor: Cursor { x: 0, y: 0 } };
        proof {
            assert(r@ =~= grid_init(width as nat));
        }
        r
    }

    /// Append one blank row.
    fn extend(&mut self)
        requires
            old(self).wf(),
        ensures
            final(self).wf(),
            final(self)@.width == old(self)@.width,
            final(self)@.x == old(self)@.x,
            final(self)@.y == old(self)@.y,
            final(self)@.height == old(self)@.height + 1,
            final(self)@.cells == old(self)@.cells + Seq::new(old(self)@.width, |i: int| ' '),
    {
        let w = self.width;
        let mut k: u16 = 0;
        while k < w
            invariant
                k <= w,
                self.width == old(self).width,
                self.height == old(self).height,
                self.cursor == old(self).cursor,
                self.cells@ == old(self).cells@ + Seq::new(k as nat, |i: int| ' '),
            decreases w - k,
        {
            self.cells.push(' ');
            proof {
                assert(self.cells@ =~= old(self).cells@ + Seq::new((k + 1) as nat, |i: int| ' '));
            }
            k = k + 1;
        }
        proof {
            vstd::std_specs::vec::axiom_spec_len(&self.cells);
            let gw = old(self)@.width;
            let gh = old(self)@.height;
            assert(self.cells@.len() == gw * gh + gw);
            assert(gw * gh + gw == gw * (gh + 1) && gh + 1 <= gw * (gh + 1)) by (nonlinear_arith)
                requires
                    gw >= 1,
                    gh >= 0,
            ;
        }
        self.height = self.height + 1;
    }

    /// Grow until the cursor's row exists.
    fn extend_while_cursor_past(&mut self)
        requires
            old(self).wf(),
        ensures
            final(self).wf(),
            final(self)@.width == old(self)@.width,
            final(self)@.x == old(self)@.x,
            final(self)@.y == old(self)@.y,
            final(self)@.height == (if old(self)@.y + 1 > old(self)@.height {
                old(self)@.y + 1
            } else {
                old(self)@.height
            }),
            final(self)@.cells == old(self)@.cells + Seq::new(
                (final(self)@.height - old(self)@.height) as nat * old(self)@.width,
                |i: int| ' ',
            ),
            old(self)@.y < final(self)@.height,
    {
        proof {
            let d0 = (self@.height - old(self)@.height) as nat;
            let gw = old(self)@.width;
            assert(d0 == 0);
            assert(d0 * gw == 0) by (nonlinear_arith)
                requires
                    d0 == 0,
            ;
            assert(self@.cells =~= old(self)@.cells + Seq::new(d0 * gw, |i: int| ' '));
        }
        while self.cursor.y >= self.height
            invariant
                self.wf(),
                self.width == old(self).width,
                self.cursor == old(self).cursor,
                old(self)@.height <= self@.height,
                self@.height == old(self)@.height || self@.height <= old(self)@.y + 1,
                self@.cells == old(self)@.cells + Seq::new(
                    (self@.height - old(self)@.height) as nat * old(self)@.width,
                    |i: int| ' ',
                ),
            decreases old(self)@.y + 1 - self@.height,
        {
            let ghost pre = self@;
            self.extend();
            proof {
                let d = (pre.height - old(self)@.height) as nat;
                let gw = old(self)@.width;
                assert((d + 1) * gw == d * gw + gw) by (nonlinear_arith);
                assert(self@.cells =~= old(self)@.cells + Seq::new(
                    (self@.height - old(self)@.height) as nat * old(self)@.width,
                    |i: int| ' ',
                ));
            }
        }
    }

    /// Write one character at the cursor and advance it.
    fn put_char(&mut self, ch: char)
        requires
            old(self).wf(),
        ensures
            final(self).wf(),
            final(self)@ == grid_put_char(old(self)@, ch),
    {
        let ghost g = old(self)@;
        let w = self.width;
        // Resolve any column overflow into the rows below.
        let dy = self.cursor.x / w;
        self.cursor.y = self.cursor.y.saturating_add(dy as usize);
        self.cursor.x = self.cursor.x % w;
        proof {
            lemma_mod_bound(g.x as int, g.width as int);
        }
        let ghost y1 = sat_add(g.y, g.x / g.width, usize::MAX as nat);
        let ghost x1 = g.x % g.width;
        self.extend_while_cursor_past();
        let ghost h1 = self@.height;
        proof {
            lemma_cell_index(g.width as int, h1 as int, y1 as int, x1 as int);
            vstd::std_specs::vec::axiom_spec_len(&self.cells);
        }
        let idx = self.cursor.index(w);
        self.cells.set(idx, ch);
        self.cursor.x = self.cursor.x + 1;
        if self.cursor.x >= w {
            self.cursor.x = 0;
            self.cursor.y = self.cursor.y.saturating_add(1);
        }
        proof {
            assert(final(self)@ =~= grid_put_char(g, ch));
        }
    }

    /// Blank the cells from the cursor to the end of its row.
    fn erase_from_cursor_to_eol(&mut self)
        requires
            old(self).wf(),
        ensures
            final(self).wf(),
            final(self)@ == grid_erase_eol(old(self)@),
    {
        let ghost g = old(self)@;
        let w = self.width;
        if self.cursor.y < self.height {
            proof {
                lemma_cell_index(g.width as int, g.height as int, g.y as int, 0);
                vstd::std_specs::vec::axiom_spec_len(&self.cells);
            }
            let base = self.cursor.y * (w as usize);
            let mut x = self.cursor.x;
            while x < w
                invariant
                    self.width == old(self).width,
                    self.height == old(self).height,
                    self.cursor == old(self).cursor,
                    g == old(self)@,
                    g.wf(),
                    g.y < g.height,
                    base == g.y * g.width,
                    base + w <= self.cells@.len(),
                    self.cells@.len() <= usize::MAX,
                    g.x <= x <= w || (x == g.x && g.x > w),
                    self.cells@.len() == g.cells.len(),
                    forall|i: int|
                        0 <= i < g.cells.len() ==> #[trigger] self.cells@[i] == (if base + g.x <= i
                            < base + x {
                            ' '
                        } else {
                            g.cells[i]
                        }),
                decreases w - x,
            {
                self.cells.set(base + (x as usize), ' ');
                x = x + 1;
            }
            proof {
                assert(base + w == (g.y + 1) * g.width) by (nonlinear_arith)
                    requires
                        base == g.y * g.width,
                        w == g.width,
                ;
                assert(final(self)@ =~= grid_erase_eol(g)) by {
                    assert forall|i: int| 0 <= i < g.cells.len() implies final(self)@.cells[i]
                        == grid_erase_eol(g).cells[i] by {
                        lemma_index_cell(g.width as int, g.height as int, i);
                        let q = i / (g.width as int);
                        let r = i % (g.width as int);
                        if q == g.y && r >= g.x {
                            assert(base + g.x <= i < base + w) by (nonlinear_arith)
                                requires
                                    base == g.y * g.width,
                                    i == q * g.width + r,
                                    q == g.y,
                                    r >= g.x,
                                    0 <= r < g.width,
                                    w == g.width,
                            ;
                        } else {
                            assert(!(base + g.x <= i < base + w)) by (nonlinear_arith)
                                requires
                                    base == g.y * g.width,
                                    i == q * g.width + r,
                                    !(q == g.y && r >= g.x),
                                    0 <= r < g.width,
                                    w == g.width,
                            ;
                        }
                    }
                }
            }
        } else {
            proof {
                assert(final(self)@ =~= grid_erase_eol(g)) by {
                    assert forall|i: int| 0 <= i < g.cells.len() implies final(self)@.cells[i]
                        == grid_erase_eol(g).cells[i] by {
                        lemma_index_cell(g.width as int, g.height as int, i);
                    }
                }
            }
        }
    }

    /// Blank every allocated cell; the height and cursor are unchanged.
    /// Mode 2 (clear the entire screen) is the one defined mode; the clear
    /// is performed the same way whatever the mode.
    fn clear(&mut self, _mode: u8)
        requires
            old(self).wf(),
        ensures
            final(self).wf(),
            final(self)@ == grid_apply(old(self)@, TermCmd::Clear(_mode)),
    {
        let n = self.cells.len();
        let mut i: usize = 0;
        while i < n
            invariant
                n == self.cells@.len(),
                self.width == old(self).width,
                self.height == old(self).height,
                self.cursor == old(self).cursor,
                self.cells@.len() == old(self).cells@.len(),
                i <= n,
                forall|j: int|
                    0 <= j < n ==> #[trigger] self.cells@[j] == (if j < i {
                        ' '
                    } else {
                        old(self).cells@[j]
                    }),
            decreases n - i,
        {
            self.cells.set(i, ' ');
            i = i + 1;
        }
        proof {
            assert(final(self)@ =~= grid_apply(old(self)@, TermCmd::Clear(_mode)));
        }
    }

    /// Apply one command to the grid.
    fn apply_cmd(&mut self, cmd: TermCmd)
        requires
            old(self).wf(),
        ensures
            final(self).wf(),
            final(self)@ == grid_apply(old(self)@, cmd),
    {
        match cmd {
            TermCmd::PutChar(c) => self.put_char(c),
            TermCmd::CarriageReturn => {
                self.cursor.x = 0;
            },
            TermCmd::LineFeed => {
                self.cursor.y = self.cursor.y.saturating_add(1);
            },
            TermCmd::CursorUp(n) => {
                self.cursor.y = self.cursor.y.saturating_sub(n as usize);
            },
            TermCmd::CursorDown(n) => {
                self.cursor.y = self.cursor.y.saturating_add(n as usize);
            },
            TermCmd::CursorLeft(n) => {
                self.cursor.x = self.cursor.x.saturating_sub(n as u16);
            },
            TermCmd::CursorRight(n) => {
                self.cursor.x = self.cursor.x.saturating_add(n as u16);
            },
            TermCmd::CursorCrDown(n) => {
                self.cursor.y = self.cursor.y.saturating_add(n as usize);
                self.cursor.x = 0;
            },
            TermCmd::CursorCrUp(n) => {
                self.cursor.y = self.cursor.y.saturating_sub(n as usize);
                self.cursor.x = 0;
            },
            TermCmd::CursorSet { x, y } => {
                self.cursor.x = x as u16;
                self.cursor.y = y as usize;
            },
            TermCmd::EraseFromCursorToEol => self.erase_from_cursor_to_eol(),
            TermCmd::Clear(mode) => self.clear(mode),
            TermCmd::BeginSyncUpdate => {},
            TermCmd::EndSyncUpdate => {},
        }
        proof {
            assert(final(self)@ =~= grid_apply(old(self)@, cmd));
        }
    }

    /// Render the grid as text.
    fn contents_to_string(&self) -> (r: String)
        requires
            self.wf(),
        ensures
            r@ == self@.render(),
    {
        let ghost g = self@;
        let w = self.width;
        let mut buf = String::new();
        let mut y: usize = 0;
        while y < self.height
            invariant
                self.wf(),
                g == self@,
                w == self.width,
                y <= g.height,
                buf@ == render_rows(g.cells, g.width, y as nat),
            decreases self@.height - y,
        {
            proof {
                lemma_cell_index(g.width as int, g.height as int, y as int, 0);
                vstd::std_specs::vec::axiom_spec_len(&self.cells);
            }
            let base = y * (w as usize);
            let mut x: u16 = 0;
            while x < w
                invariant
                    self.wf(),
                    g == self@,
                    w == self.width,
                    y < g.height,
                    base == y * g.width,
                    base + w <= g.cells.len(),
                    g.cells.len() <= usize::MAX,
                    x <= w,
                    buf@ == render_rows(g.cells, g.width, y as nat) + g.cells.subrange(
                        base as int,
                        base + x,
                    ),
                decreases w - x,
            {
                let c = self.cells[base + (x as usize)];
                push_char(&mut buf, c);
                proof {
                    assert(buf@ =~= render_rows(g.cells, g.width, y as nat) + g.cells.subrange(
                        base as int,
                        base + x + 1,
                    ));
                }
                x = x + 1;
            }
            push_char(&mut buf, '\n');
            proof {
                assert(buf@ =~= render_rows(g.cells, g.width, (y + 1) as nat));
            }
            y = y + 1;
        }
        buf
    }
}

// ---------------------------------------------------------------------------
// The terminal: parser and grid composed
// ---------------------------------------------------------------------------

/// Mathematical state of the whole terminal.
#[verifier::ext_equal]
pub struct TermView {
    /// The cell grid and cursor.
    pub grid: GridView,
    /// The escape-sequence parser.
    pub parser: ParserView,
}

impl TermView {
    /// Well-formedness of both components.
    pub open spec fn wf(&self) -> bool {
        self.grid.wf() && utf8_prefix_ok(self.parser.pending)
    }
}

/// The state of a freshly constructed terminal.
pub open spec fn term_init(width: nat) -> TermView {
    TermView { grid: grid_init(width), parser: parser_init() }
}

/// Feeding bytes: the parser turns them into commands, each applied to the
/// grid in emission order.
pub open spec fn term_feed(t: TermView, bytes: Seq<u8>) -> TermView {
    TermView {
        grid: grid_apply_all(t.grid, parse_bytes(t.parser, bytes).1),
        parser: parse_bytes(t.parser, bytes).0,
    }
}

/// Minimalistic ANSI terminal emulator.
///
/// Use [`feed`] to feed it data, [`contents_to_string`] to get its contents
/// as a string.
///
/// [`feed`]: Self::feed
/// [`contents_to_string`]: Self::contents_to_string
pub struct Term {
    term_state: TermState,
    ansi_parser: AnsiParser,
}

impl View for Term {
    type V = TermView;

    closed spec fn view(&self) -> TermView {
        TermView { grid: self.term_state@, parser: self.ansi_parser@ }
    }
}

impl Term {
    /// The terminal's internal invariant, established by [`Term::new`] and
    /// preserved by every operation.
    pub open spec fn wf(&self) -> bool {
        self@.wf()
    }

    /// Create a new terminal with the specified, positive width.
    pub fn new(width: u16) -> (t: Self)
        requires
            width >= 1,
        ensures
            t@ == term_init(width as nat),
            t.wf(),
    {
        let t = Term { term_state: TermState::new(width), ansi_parser: AnsiParser::default() };
        proof {
            assert(t@ =~= term_init(width as nat));
        }
        t
    }

    /// Feed bytes to the terminal, updating its state. Malformed input never
    /// fails: unrecognized sequences are consumed without effect and
    /// ill-formed UTF-8 is replaced by U+FFFD.
    pub fn feed(&mut self, data: &[u8])
        requires
            old(self).wf(),
        ensures
            final(self).wf(),
            final(self)@ == term_feed(old(self)@, data@),
    {
        let cmds = self.ansi_parser.advance(data);
        let ghost all = cmds@;
        let ghost g0 = self.term_state@;
        proof {
            assert(all.subrange(0, 0) =~= Seq::<TermCmd>::empty());
        }
        let n = cmds.len();
        let mut i: usize = 0;
        while i < n
            invariant
                i <= n,
                n == all.len(),
                cmds@ == all,
                self.term_state.wf(),
                self.term_state@ == grid_apply_all(g0, all.subrange(0, i as int)),
                self.ansi_parser@ == parse_bytes(old(self)@.parser, data@).0,
                utf8_prefix_ok(self.ansi_parser@.pending),
            decreases n - i,
        {
            proof {
                lemma_grid_apply_all_snoc(g0, all.subrange(0, i as int), all[i as int]);
                assert(all.subrange(0, i as int).push(all[i as int]) =~= all.subrange(
                    0,
                    i + 1,
                ));
            }
            self.term_state.apply_cmd(cmds[i]);
            i = i + 1;
        }
        proof {
            assert(all.subrange(0, all.len() as int) =~= all);
            assert(final(self)@ =~= term_feed(old(self)@, data@));
        }
    }

    /// Completely reset the terminal to its initial state: the grid is
    /// emptied, the cursor returns to the origin, and the parser starts
    /// over, all in one step.
    pub fn reset(&mut self)
        requires
            old(self).wf(),
        ensures
            final(self).wf(),
            final(self)@ == term_init(old(self)@.grid.width),
    {
        self.term_state.cursor = Cursor { x: 0, y: 0 };
        self.term_state.cells = Vec::new();
        self.term_state.height = 0;
        self.ansi_parser = AnsiParser::default();
        proof {
            let gw = old(self)@.grid.width;
            assert(gw * 0 == 0) by (nonlinear_arith);
            assert(final(self)@ =~= term_init(old(self)@.grid.width));
        }
    }

    /// Get the contents of the terminal as a string: each allocated row as
    /// exactly `width` characters, each row followed by one newline.
    pub fn contents_to_string(&self) -> (r: String)
        requires
            self.wf(),
        ensures
            r@ == self@.grid.render(),
    {
        self.term_state.contents_to_string()
    }

    /// Returns whether the terminal buffer is "empty" (nothing has been
    /// written to it yet).
    pub fn is_empty(&self) -> (r: bool)
        requires
            self.wf(),
        ensures
            r == self@.grid.is_empty(),
            r == (self@.grid.height == 0),
    {
        let n = self.term_state.cells.len();
        proof {
            let g = self@.grid;
            assert((g.cells.len() == 0) == (g.height == 0)) by (nonlinear_arith)
                requires
                    g.cells.len() == g.width * g.height,
                    g.width >= 1,
            ;
        }
        n == 0
    }
}

// ---------------------------------------------------------------------------
// Laws
// ---------------------------------------------------------------------------

/// A freshly constructed or freshly reset terminal renders as the empty
/// string and is empty.
pub proof fn lemma_fresh_is_empty(width: nat)
    ensures
        term_init(width).grid.render() == Seq::<char>::empty(),
        term_init(width).grid.is_empty(),
{
}

/// After writing any single character the grid is no longer empty.
pub proof fn lemma_put_char_not_empty(g: GridView, c: char)
    requires
        g.wf(),
    ensures
        !grid_apply(g, TermCmd::PutChar(c)).is_empty(),
{
    lemma_grid_apply_wf(g, TermCmd::PutChar(c));
    let gp = grid_apply(g, TermCmd::PutChar(c));
    assert(gp.height >= 1);
    assert(gp.width * gp.height >= 1) by (nonlinear_arith)
        requires
            gp.width >= 1,
            gp.height >= 1,
    ;
}

/// A line feed moves the cursor down one row and does not move the column.
pub proof fn lemma_line_feed(g: GridView)
    requires
        g.y < usize::MAX,
    ensures
        grid_apply(g, TermCmd::LineFeed).y == g.y + 1,
        grid_apply(g, TermCmd::LineFeed).x == g.x,
        grid_apply(g, TermCmd::LineFeed).cells == g.cells,
{
}

/// Moving the cursor up by any amount at least the current row saturates at
/// the top row; the row index never goes negative.
pub proof fn lemma_cursor_up_saturates(g: GridView, n: u8)
    requires
        n as nat >= g.y,
    ensures
        grid_apply(g, TermCmd::CursorUp(n)).y == 0,
{
}

/// Erasing to the end of the line blanks exactly the cells at or after the
/// cursor's column on the cursor's row; every other cell is unchanged.
pub proof fn lemma_erase_eol_local(g: GridView, i: int)
    requires
        g.wf(),
        0 <= i < g.cells.len(),
    ensures
        ({
            let e = grid_apply(g, TermCmd::EraseFromCursorToEol);
            &&& e.cells.len() == g.cells.len()
            &&& e.height == g.height
            &&& (i / (g.width as int) != g.y || i % (g.width as int) < g.x) ==> e.cells[i]
                == g.cells[i]
            &&& (i / (g.width as int) == g.y && i % (g.width as int) >= g.x) ==> e.cells[i]
                == ' '
        }),
{
}

/// Characterizes the rendered text cell by cell: row `y` occupies positions
/// `y * (width + 1)` onward, with a newline in position `width` of each row.
pub proof fn lemma_render_index(cells: Seq<char>, width: nat, h: nat)
    requires
        width >= 1,
        cells.len() >= width * h,
    ensures
        render_rows(cells, width, h).len() == h * (width + 1),
        forall|i: int|
            0 <= i < h * (width + 1) ==> #[trigger] render_rows(cells, width, h)[i] == (if i % (
            width as int + 1) == width {
                '\n'
            } else {
                cells[(i / (width as int + 1)) * (width as int) + (i % (width as int + 1))]
            }),
    decreases h,
{
    if h > 0 {
        let h0 = (h - 1) as nat;
        let w1 = width as int + 1;
        assert(width * h0 <= width * h) by (nonlinear_arith)
            requires
                h0 <= h,
                width >= 0,
        ;
        lemma_render_index(cells, width, h0);
        let r0 = render_rows(cells, width, h0);
        let row = row_chars(cells, width, h0);
        let r = render_rows(cells, width, h);
        assert(h0 * width + width <= cells.len()) by (nonlinear_arith)
            requires
                cells.len() >= width * h,
                h == h0 + 1,
                width >= 1,
                h0 >= 0,
        ;
        assert(row.len() == width);
        assert(h0 * (width + 1) + (width + 1) == h * (width + 1)) by (nonlinear_arith)
            requires
                h == h0 + 1,
        ;
        assert forall|i: int| 0 <= i < h * (width + 1) implies #[trigger] r[i] == (if i % (
        width as int + 1) == width {
            '\n'
        } else {
            cells[(i / (width as int + 1)) * (width as int) + (i % (width as int + 1))]
        }) by {
            if i < h0 * (width + 1) {
                assert(r[i] == r0[i]);
            } else {
                let x = i - h0 * w1;
                assert(i == h0 * w1 + x);
                lemma_fundamental_div_mod_converse(i, w1, h0 as int, x);
                if x < width {
                    assert(r[i] == row[x]);
                    assert(row[x] == cells[h0 * width + x]);
                } else {
                    assert(r[i] == '\n');
                }
            }
        }
    }
}

/// After a clear, every rendered character is a space or a newline, and the
/// height is unchanged.
pub proof fn lemma_clear_blanks(g: GridView, mode: u8)
    requires
        g.wf(),
    ensures
        grid_apply(g, TermCmd::Clear(mode)).height == g.height,
        forall|i: int|
            0 <= i < grid_apply(g, TermCmd::Clear(mode)).render().len() ==> (grid_apply(
                g,
                TermCmd::Clear(mode),
            ).render()[i] == ' ' || grid_apply(g, TermCmd::Clear(mode)).render()[i] == '\n'),
{
    let gc = grid_apply(g, TermCmd::Clear(mode));
    assert(gc.cells.len() == g.cells.len());
    lemma_render_index(gc.cells, gc.width, gc.height);
    let w1 = gc.width as int + 1;
    assert(gc.render().len() == gc.height * w1);
    assert forall|i: int| 0 <= i < gc.render().len() implies (gc.render()[i] == ' '
        || gc.render()[i] == '\n') by {
        let hh = gc.height as int;
        let ww = gc.width as int;
        assert(hh * (ww + 1) == (ww + 1) * hh) by (nonlinear_arith);
        assert(gc.render().len() == w1 * hh);
        lemma_index_cell(w1, gc.height as int, i);
        let y = i / w1;
        let x = i % w1;
        if x != gc.width {
            assert(0 <= y * gc.width + x < gc.width * gc.height) by (nonlinear_arith)
                requires
                    0 <= y < gc.height,
                    0 <= x < gc.width,
            ;
            assert(gc.render()[i] == gc.cells[y * gc.width + x]);
        }
    }
}

/// Setting the cursor absolutely and then writing lands the character at
/// exactly the requested cell, growing the grid if that row did not exist.
/// The requested column must lie inside the grid's width; a column past the
/// width would wrap into a later row instead.
pub proof fn lemma_cursor_set_put(g: GridView, x: u8, y: u8, c: char)
    requires
        g.wf(),
        (x as nat) < g.width,
    ensures
        ({
            let g2 = grid_apply_all(g, seq![TermCmd::CursorSet { x, y }, TermCmd::PutChar(c)]);
            &&& g2.height == (if y as nat + 1 > g.height {
                y as nat + 1
            } else {
                g.height
            })
            &&& g2.cells[y as int * g.width as int + x as int] == c
        }),
{
    let s = seq![TermCmd::CursorSet { x, y }, TermCmd::PutChar(c)];
    let cs = TermCmd::CursorSet { x, y };
    assert(s[0] == cs);
    let g1 = grid_apply(g, cs);
    lemma_grid_apply_all_snoc(g, seq![cs], TermCmd::PutChar(c));
    assert(seq![cs].push(TermCmd::PutChar(c)) =~= s);
    assert(seq![cs][0] == cs);
    assert(seq![cs].subrange(1, 1) =~= Seq::<TermCmd>::empty());
    assert(grid_apply_all(g, seq![cs]) == grid_apply_all(g1, seq![cs].subrange(1, 1)));
    assert(grid_apply_all(g1, Seq::<TermCmd>::empty()) == g1);
    let g2 = grid_apply(g1, TermCmd::PutChar(c));
    assert(grid_apply_all(g, s) == g2);
    vstd::arithmetic::div_mod::lemma_basic_div(x as int, g.width as int);
    vstd::arithmetic::div_mod::lemma_small_mod(x as nat, g.width);
    let y1 = sat_add(g1.y, g1.x / g1.width, usize::MAX as nat);
    assert(y1 == y as nat);
    let h1 = if y1 + 1 > g.height {
        y1 + 1
    } else {
        g.height
    };
    lemma_cell_index(g.width as int, h1 as int, y as int, x as int);
    let grown = g1.cells + Seq::new((h1 - g.height) as nat * g.width, |i: int| ' ');
    assert(grown.len() == g.cells.len() + (h1 - g.height) as nat * g.width);
    assert(g.cells.len() + (h1 - g.height) as nat * g.width == g.width * h1) by (nonlinear_arith)
        requires
            g.cells.len() == g.width * g.height,
            g.height <= h1,
    ;
    assert(g2.cells[y as int * g.width as int + x as int] == c);
}

/// Plain text fills the grid row-major: after `k` put-character commands the
/// grid has `ceil(k / width)` rows, the first `k` cells hold the text in
/// order, every later cell is a space, and the cursor stands at offset `k`.
pub proof fn lemma_fill_text(width: nat, bytes: Seq<u8>)
    requires
        1 <= width <= u16::MAX,
        bytes.len() <= usize::MAX,
    ensures
        ({
            let g = grid_apply_all(grid_init(width), parser::ascii_cmds(bytes));
            let k = bytes.len() as int;
            let w = width as int;
            &&& g.width == width
            &&& g.height == (k + w - 1) / w
            &&& g.cells.len() == width * g.height
            &&& g.x == (k % w)
            &&& g.y == (k / w)
            &&& (forall|i: int| 0 <= i < k ==> g.cells[i] == (bytes[i] as char))
            &&& (forall|i: int| k <= i < g.cells.len() ==> g.cells[i] == ' ')
        }),
    decreases bytes.len(),
{
    let cmds = parser::ascii_cmds(bytes);
    let k = bytes.len() as int;
    let w = width as int;
    parser::lemma_ascii_cmds_index(bytes);
    if bytes.len() == 0 {
        assert(cmds =~= Seq::<TermCmd>::empty());
        lemma_basic_div(w - 1, w);
        lemma_basic_div(0, w);
        lemma_small_mod(0, width);
        assert(width * 0 == 0) by (nonlinear_arith);
    } else {
        let t0 = bytes.drop_last();
        lemma_fill_text(width, t0);
        let cmds0 = parser::ascii_cmds(t0);
        let g1 = grid_apply_all(grid_init(width), cmds0);
        let c = bytes[k - 1] as char;
        assert(c == bytes.last() as char);
        lemma_grid_apply_all_snoc(grid_init(width), cmds0, TermCmd::PutChar(c));
        parser::lemma_ascii_cmds_snoc(bytes);
        assert(cmds0.push(TermCmd::PutChar(c)) == cmds);
        let g2 = grid_apply(g1, TermCmd::PutChar(c));
        assert(grid_apply_all(grid_init(width), cmds) == g2);
        let k0 = k - 1;
        let q = k0 / w;
        let r = k0 % w;
        lemma_fundamental_div_mod(k0, w);
        lemma_mod_bound(k0, w);
        assert(q * w == w * q) by (nonlinear_arith);
        assert((q + 1) * w == q * w + w) by (nonlinear_arith);
        assert(q <= q * w) by (nonlinear_arith)
            requires
                q >= 0,
                w >= 1,
        ;
        // The height before this write.
        if r == 0 {
            lemma_fundamental_div_mod_converse(k0 + w - 1, w, q, w - 1);
            assert(g1.height == q);
        } else {
            lemma_fundamental_div_mod_converse(k0 + w - 1, w, q + 1, r - 1);
            assert(g1.height == q + 1);
        }
        // The height after: one more character always needs `q + 1` rows.
        lemma_fundamental_div_mod_converse(k + w - 1, w, q + 1, r);
        assert((k + w - 1) / w == q + 1);
        // The written cell is cell `k0`.
        lemma_basic_div(r, w);
        lemma_small_mod(r as nat, width);
        let y1 = sat_add(g1.y, g1.x / g1.width, usize::MAX as nat);
        assert(y1 == q);
        let h1 = if y1 + 1 > g1.height {
            y1 + 1
        } else {
            g1.height
        };
        assert(h1 == q + 1);
        lemma_cell_index(w, h1 as int, q, r);
        assert(q * w + r == k0);
        let grown = g1.cells + Seq::new((h1 - g1.height) as nat * width, |i: int| ' ');
        let gw0 = g1.height;
        assert(g1.cells.len() + (h1 - gw0) as nat * width == width * h1) by (nonlinear_arith)
            requires
                g1.cells.len() == width * gw0,
                gw0 <= h1,
        ;
        assert(g2.cells == grown.update(k0, c));
        assert(g2.cells.len() == width * (q + 1));
        assert(k0 < width * h1);
        // The cursor after the write.
        if r + 1 == w {
            lemma_fundamental_div_mod_converse(k, w, q + 1, 0);
            assert(g2.x == (k % w));
            assert(g2.y == (k / w));
        } else {
            lemma_fundamental_div_mod_converse(k, w, q, r + 1);
            assert(g2.x == (k % w));
            assert(g2.y == (k / w));
        }
        // The cells: text in order, spaces beyond.
        assert(k0 <= width * gw0) by (nonlinear_arith)
            requires
                k0 == q * w + r,
                0 <= r < w,
                w == width,
                gw0 == q || gw0 == q + 1,
                r != 0 ==> gw0 == q + 1,
                r == 0 ==> k0 == q * w,
        ;
        assert forall|i: int| 0 <= i < k implies g2.cells[i] == (bytes[i] as char) by {
            if i < k0 {
                assert(g1.cells[i] == (t0[i] as char));
                assert(t0[i] == bytes[i]);
                assert(grown[i] == g1.cells[i]);
            } else {
                assert(i == k0);
            }
        }
        assert forall|i: int| k <= i < g2.cells.len() implies g2.cells[i] == ' ' by {
            if i < width * gw0 {
                assert(grown[i] == g1.cells[i]);
                assert(g1.cells[i] == ' ');
            } else {
                assert(grown[i] == ' ');
            }
        }
    }
}

/// Feeding plain printable text into a fresh terminal lays it out row-major:
/// the grid gets exactly `ceil(k / width)` full rows, the first `k` cells
/// read back the input in order, and every later cell is a space.
pub proof fn lemma_plain_text_layout(width: u16, bytes: Seq<u8>)
    requires
        width >= 1,
        bytes.len() <= usize::MAX,
        forall|i: int| 0 <= i < bytes.len() ==> 0x20 <= #[trigger] bytes[i] <= 0x7E,
    ensures
        ({
            let g = term_feed(term_init(width as nat), bytes).grid;
            let k = bytes.len() as int;
            let w = width as int;
            &&& g.height == (k + w - 1) / w
            &&& g.cells.len() == (width as nat) * g.height
            &&& (forall|i: int| 0 <= i < k ==> g.cells[i] == (bytes[i] as char))
            &&& (forall|i: int| k <= i < g.cells.len() ==> g.cells[i] == ' ')
        }),
{
    parser::lemma_parse_plain_text(bytes);
    lemma_fill_text(width as nat, bytes);
}

/// Feeding input split at any point equals feeding it whole.
pub proof fn lemma_feed_split(t: TermView, a: Seq<u8>, b: Seq<u8>)
    ensures
        term_feed(t, a + b) == term_feed(term_feed(t, a), b),
{
    parser::lemma_parse_bytes_concat(t.parser, a, b);
    lemma_grid_apply_all_concat(
        t.grid,
        parse_bytes(t.parser, a).1,
        parse_bytes(parse_bytes(t.parser, a).0, b).1,
    );
    assert(term_feed(t, a + b) =~= term_feed(term_feed(t, a), b));
}






} // verus!
