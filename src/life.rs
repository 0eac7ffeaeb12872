use crate::cell::{cell_of, next_state, Cell};
use crate::rng::{fresh_rng, gen_ratio};
use rand::rngs::StdRng;
use crate::positions::{lemma_row_major_index, lemma_row_major_split, row_major, IndicesEnumerate};


use vstd::arithmetic::div_mod::{
    lemma_add_mod_noop_right, lemma_fundamental_div_mod_converse, lemma_sub_mod_noop,
};
use vstd::prelude::*;

verus! {

/// The number of the line that the character at `i` of `text` stands on: the
/// line breaks before it.
pub open spec fn row_of(text: Seq<char>, i: int) -> int
    decreases i,
{
    if i <= 0 {
        0
    } else {
        row_of(text, i - 1) + if text[i - 1] == '\n' { 1int } else { 0int }
    }
}

/// The column of the character at `i` of `text`: the characters between it
/// and the line break before it.
pub open spec fn col_of(text: Seq<char>, i: int) -> int
    decreases i,
{
    if i <= 0 {
        0
    } else if text[i - 1] == '\n' {
        0
    } else {
        col_of(text, i - 1) + 1
    }
}

/// Unicode's White_Space property.
pub open spec fn is_white_space(c: char) -> bool {
    ('\u{9}' <= c && c <= '\u{d}') || c == ' ' || c == '\u{85}' || c == '\u{a0}' || c
        == '\u{1680}' || ('\u{2000}' <= c && c <= '\u{200a}') || c == '\u{2028}' || c
        == '\u{2029}' || c == '\u{202f}' || c == '\u{205f}' || c == '\u{3000}'
}

/// A character of a pattern marks a live cell unless it is white space or `|`.
pub open spec fn marks_live(c: char) -> bool {
    !is_white_space(c) && c != '|'
}

/// Whether one of the first `n` characters of `text` marks the cell `(x, y)`
/// live.
pub open spec fn marked_within(text: Seq<char>, n: int, x: int, y: int) -> bool {
    exists|i: int|
        0 <= i < n && marks_live(#[trigger] text[i]) && col_of(text, i) == x && row_of(text, i)
            == y
}

/// Whether the pattern `text` marks the cell `(x, y)` live.
pub open spec fn marked(text: Seq<char>, x: int, y: int) -> bool {
    marked_within(text, text.len() as int, x, y)
}

/// The characters of `s` in order.
fn chars_of(s: &str) -> (r: Vec<char>)
    ensures
        r@ == s@,
{
    broadcast use vstd::string::axiom_spec_iter;

    let mut out: Vec<char> = Vec::new();
    for c in it: s.chars()
        invariant
            it.seq() == s@,
            out@ == s@.take(it.index() as int),
    {
        out.push(c);
    }
    proof {
        assert(out@ =~= s@.take(s@.len() as int));
    }
    out
}

/// Whether `c` has Unicode's White_Space property.
fn is_blank(c: char) -> (r: bool)
    ensures
        r == is_white_space(c),
{
    ('\u{9}' <= c && c <= '\u{d}') || c == ' ' || c == '\u{85}' || c == '\u{a0}' || c
        == '\u{1680}' || ('\u{2000}' <= c && c <= '\u{200a}') || c == '\u{2028}' || c
        == '\u{2029}' || c == '\u{202f}' || c == '\u{205f}' || c == '\u{3000}'
}

/// One generation of the game: a `width` by `height` grid of cells, stored row
/// by row, that wraps around at its edges.
#[derive(Clone, Debug, PartialEq, Eq)]
pub struct Life {
    width: usize,
    height: usize,
    data: Vec<Cell>,
}

/// `(value + offset) % span` for an offset of at most one either way.
fn offset_wrapped(value: usize, offset: i8, span: usize) -> (r: usize)
    requires
        value < span,
        -1 <= offset <= 1,
    ensures
        r == (value + offset) % (span as int),
        r < span,
{
    if offset < 0 {
        if value == 0 {
            proof {
                lemma_fundamental_div_mod_converse(-1, span as int, -1, span - 1);
            }
            span - 1
        } else {
            proof {
                lemma_fundamental_div_mod_converse(value - 1, span as int, 0, value - 1);
            }
            value - 1
        }
    } else if offset > 0 {
        if value + 1 == span {
            proof {
                lemma_fundamental_div_mod_converse(span as int, span as int, 1, 0);
            }
            0
        } else {
            proof {
                lemma_fundamental_div_mod_converse(value + 1, span as int, 0, value + 1);
            }
            value + 1
        }
    } else {
        proof {
            lemma_fundamental_div_mod_converse(value as int, span as int, 0, value as int);
        }
        value
    }
}

impl Life {
    /// The number of columns.
    pub closed spec fn width_spec(&self) -> nat {
        self.width as nat
    }

    /// The number of rows.
    pub closed spec fn height_spec(&self) -> nat {
        self.height as nat
    }

    /// The cells, row by row.
    pub closed spec fn cells(&self) -> Seq<Cell> {
        self.data@
    }

    /// There is one cell for each coordinate.
    pub open spec fn wf(&self) -> bool {
        &&& self.width_spec() * self.height_spec() <= usize::MAX
        &&& self.cells().len() == self.width_spec() * self.height_spec()
    }

    /// The cell at column `x` of row `y`.
    pub open spec fn cell(&self, x: int, y: int) -> Cell {
        self.cells()[x + y * self.width_spec()]
    }

    /// 1 where the cell at `(x, y)`, taken around the edges, is alive; else 0.
    pub open spec fn live_wrapped(&self, x: int, y: int) -> int {
        if self.cell(x % (self.width_spec() as int), y % (self.height_spec() as int))
            == Cell::Alive {
            1
        } else {
            0
        }
    }

    /// The number of live cells among the eight around `(x, y)`, the grid
    /// wrapping around at its edges.
    pub open spec fn neighbours(&self, x: int, y: int) -> int {
        self.live_wrapped(x - 1, y - 1) + self.live_wrapped(x - 1, y) + self.live_wrapped(
            x - 1,
            y + 1,
        ) + self.live_wrapped(x, y - 1) + self.live_wrapped(x, y + 1) + self.live_wrapped(
            x + 1,
            y - 1,
        ) + self.live_wrapped(x + 1, y) + self.live_wrapped(x + 1, y + 1)
    }

    /// The cells of the next generation, row by row.
    pub open spec fn successor_cells(&self) -> Seq<Cell> {
        let w = self.width_spec() as int;
        Seq::new(
            self.cells().len(),
            |i: int| next_state(self.cells()[i], self.neighbours(i % w, i / w)),
        )
    }

    /// A `width` by `height` grid of dead cells.
    pub fn new(width: usize, height: usize) -> (r: Life)
        requires
            width * height <= usize::MAX,
        ensures
            r.wf(),
            r.width_spec() == width,
            r.height_spec() == height,
            forall|x: int, y: int| 0 <= x < width && 0 <= y < height ==> r.cell(x, y) == Cell::Dead,
    {
        let n = width * height;
        let mut data: Vec<Cell> = Vec::new();
        let mut i: usize = 0;
        while i < n
            invariant
                i <= n,
                data@.len() == i,
                forall|j: int| 0 <= j < i ==> data@[j] == Cell::Dead,
            decreases n - i,
        {
            data.push(Cell::Dead);
            i = i + 1;
        }
        let r = Life { width, height, data };
        proof {
            assert forall|x: int, y: int| 0 <= x < width && 0 <= y < height implies r.cell(x, y)
                == Cell::Dead by {
                lemma_row_major_index(x, y, width as int, height as int);
            }
        }
        r
    }

    /// The number of columns.
    pub fn width(&self) -> (r: usize)
        ensures
            r == self.width_spec(),
    {
        self.width
    }

    /// The number of rows.
    pub fn height(&self) -> (r: usize)
        ensures
            r == self.height_spec(),
    {
        self.height
    }

    /// The offset of `(x, y)` in the row-major storage.
    fn index(&self, x: usize, y: usize) -> (r: usize)
        requires
            self.wf(),
            x < self.width_spec(),
            y < self.height_spec(),
        ensures
            r == x + y * self.width_spec(),
            r < self.cells().len(),
    {
        proof {
            lemma_row_major_index(x as int, y as int, self.width as int, self.height as int);
        }
        x + y * self.width
    }

    /// The cell at column `x` of row `y`; no wrapping.
    pub fn get(&self, x: usize, y: usize) -> (r: Cell)
        requires
            self.wf(),
            x < self.width_spec(),
            y < self.height_spec(),
        ensures
            r == self.cell(x as int, y as int),
    {
        let i = self.index(x, y);
        self.data[i]
    }

    /// Sets the cell at column `x` of row `y`; no wrapping.
    pub fn set(&mut self, x: usize, y: usize, c: Cell)
        requires
            old(self).wf(),
            x < old(self).width_spec(),
            y < old(self).height_spec(),
        ensures
            final(self).wf(),
            final(self).width_spec() == old(self).width_spec(),
            final(self).height_spec() == old(self).height_spec(),
            final(self).cells() == old(self).cells().update(
                x + y * old(self).width_spec(),
                c,
            ),
    {
        let i = self.index(x, y);
        self.data.set(i, c);
    }

    /// 1 where the cell at `(x, y)` is alive, else 0.
    fn alive_count(&self, x: usize, y: usize) -> (r: usize)
        requires
            self.wf(),
            x < self.width_spec(),
            y < self.height_spec(),
        ensures
            r == (if self.cell(x as int, y as int) == Cell::Alive { 1int } else { 0int }),
    {
        if self.get(x, y) == Cell::Alive {
            1
        } else {
            0
        }
    }

    /// The number of live cells among the eight around `(x, y)`, the grid
    /// wrapping around at its edges.
    pub fn count_neigbours(&self, pos: (usize, usize)) -> (r: usize)
        requires
            self.wf(),
            pos.0 < self.width_spec(),
            pos.1 < self.height_spec(),
        ensures
            r == self.neighbours(pos.0 as int, pos.1 as int),
            r <= 8,
    {
        let (x, y) = pos;
        let w = self.width;
        let h = self.height;
        let left = offset_wrapped(x, -1, w);
        let right = offset_wrapped(x, 1, w);
        let up = offset_wrapped(y, -1, h);
        let down = offset_wrapped(y, 1, h);
        let here_x = offset_wrapped(x, 0, w);
        let here_y = offset_wrapped(y, 0, h);
        self.alive_count(left, up) + self.alive_count(left, here_y) + self.alive_count(left, down)
            + self.alive_count(here_x, up) + self.alive_count(here_x, down) + self.alive_count(
            right,
            up,
        ) + self.alive_count(right, here_y) + self.alive_count(right, down)
    }

    /// The next generation, computed from this one alone: a dead cell with
    /// exactly three live neighbours comes alive, a live cell with two or
    /// three stays alive, every other cell is dead. `self` is left as it is.
    pub fn next(&self) -> (r: Life)
        requires
            self.wf(),
        ensures
            r.wf(),
            r.width_spec() == self.width_spec(),
            r.height_spec() == self.height_spec(),
            r.cells() == self.successor_cells(),
            forall|x: int, y: int|
                0 <= x < self.width_spec() && 0 <= y < self.height_spec() ==> #[trigger] r.cell(x, y)
                    == next_state(self.cell(x, y), self.neighbours(x, y)),
    {
        let n = self.data.len();
        let w = self.width;
        let h = self.height;
        let mut data: Vec<Cell> = Vec::new();
        let mut i: usize = 0;
        while i < n
            invariant
                self.wf(),
                n == self.cells().len(),
                w == self.width_spec(),
                h == self.height_spec(),
                i <= n,
                data@.len() == i,
                forall|j: int| 0 <= j < i ==> data@[j] == #[trigger] self.successor_cells()[j],
            decreases n - i,
        {
            proof {
                lemma_row_major_split(i as int, w as int, h as int);
            }
            let x = i % w;
            let y = i / w;
            let count = self.count_neigbours((x, y));
            let c = self.get(x, y);
            let next_cell = match c {
                Cell::Dead => if count == 3 { Cell::Alive } else { Cell::Dead },
                Cell::Alive => if count == 2 || count == 3 { Cell::Alive } else { Cell::Dead },
            };
            data.push(next_cell);
            i = i + 1;
        }
        let r = Life { width: w, height: h, data };
        proof {
            assert(r.cells() =~= self.successor_cells());
            assert forall|x: int, y: int|
                0 <= x < self.width_spec() && 0 <= y < self.height_spec() implies #[trigger] r.cell(
                x,
                y,
            ) == next_state(self.cell(x, y), self.neighbours(x, y)) by {
                lemma_row_major_index(x, y, w as int, h as int);
            }
        }
        r
    }

    /// Sets every cell to dead.
    fn clear(&mut self)
        requires
            old(self).wf(),
        ensures
            final(self).wf(),
            final(self).width_spec() == old(self).width_spec(),
            final(self).height_spec() == old(self).height_spec(),
            forall|i: int| 0 <= i < final(self).cells().len() ==> final(self).cells()[i] == Cell::Dead,
    {
        let n = self.data.len();
        let mut i: usize = 0;
        while i < n
            invariant
                self.wf(),
                self.width_spec() == old(self).width_spec(),
                self.height_spec() == old(self).height_spec(),
                n == self.cells().len(),
                i <= n,
                forall|j: int| 0 <= j < i ==> self.cells()[j] == Cell::Dead,
            decreases n - i,
        {
            self.data.set(i, Cell::Dead);
            i = i + 1;
        }
    }

    /// Replaces the live cells by those that the pattern `contents` marks:
    /// line `y` of the text is row `y`, character `x` of a line is column `x`,
    /// and a character marks a live cell unless it is white space or `|`.
    /// Every other cell is dead afterwards. Marks beyond the last column or
    /// the last row are dropped.
    pub fn read_from(&mut self, contents: &str)
        requires
            old(self).wf(),
        ensures
            final(self).wf(),
            final(self).width_spec() == old(self).width_spec(),
            final(self).height_spec() == old(self).height_spec(),
            forall|x: int, y: int|
                0 <= x < final(self).width_spec() && 0 <= y < final(self).height_spec()
                    ==> #[trigger] final(self).cell(x, y) == cell_of(marked(contents@, x, y)),
    {
        let text = chars_of(contents);
        let ghost t = contents@;
        self.clear();
        let w = self.width;
        let h = self.height;
        proof {
            assert forall|cx: int, cy: int| 0 <= cx < w && 0 <= cy < h implies #[trigger] self.cell(
                cx,
                cy,
            ) == cell_of(marked_within(t, 0, cx, cy)) by {
                lemma_row_major_index(cx, cy, w as int, h as int);
            }
        }
        let mut x: usize = 0;
        let mut y: usize = 0;
        let mut k: usize = 0;
        while k < text.len()
            invariant
                text@ == t,
                self.wf(),
                w == self.width_spec(),
                h == self.height_spec(),
                w == old(self).width_spec(),
                h == old(self).height_spec(),
                k <= text@.len(),
                x == col_of(t, k as int),
                y == row_of(t, k as int),
                x <= k,
                y <= k,
                forall|cx: int, cy: int|
                    0 <= cx < w && 0 <= cy < h ==> #[trigger] self.cell(cx, cy) == cell_of(
                        marked_within(t, k as int, cx, cy),
                    ),
            decreases text@.len() - k,
        {
            let c = text[k];
            let live = !is_blank(c) && c != '|';
            let ghost before = *self;
            assert(live == marks_live(t[k as int]));
            if live && x < w && y < h {
                self.set(x, y, Cell::Alive);
            }
            proof {
                assert forall|cx: int, cy: int| 0 <= cx < w && 0 <= cy < h implies #[trigger] self.cell(
                    cx,
                    cy,
                ) == cell_of(marked_within(t, k + 1, cx, cy)) by {
                    lemma_row_major_index(cx, cy, w as int, h as int);
                    let set_here = live && x < w && y < h;
                    if set_here {
                        lemma_row_major_index(x as int, y as int, w as int, h as int);
                    }
                    assert(before.cell(cx, cy) == cell_of(marked_within(t, k as int, cx, cy)));
                    if set_here && cx == x && cy == y {
                        assert(marks_live(t[k as int]));
                        assert(marked_within(t, k + 1, cx, cy));
                    } else {
                        assert(self.cell(cx, cy) == before.cell(cx, cy));
                        if marked_within(t, k + 1, cx, cy) {
                            let i = choose|i: int|
                                0 <= i < k + 1 && marks_live(#[trigger] t[i]) && col_of(t, i)
                                    == cx && row_of(t, i) == cy;
                            assert(i != k);
                            assert(marked_within(t, k as int, cx, cy));
                        }
                        if marked_within(t, k as int, cx, cy) {
                            let i = choose|i: int|
                                0 <= i < k && marks_live(#[trigger] t[i]) && col_of(t, i) == cx
                                    && row_of(t, i) == cy;
                            assert(marked_within(t, k + 1, cx, cy));
                        }
                    }
                }
            }
            if c == '\n' {
                x = 0;
                y = y + 1;
            } else {
                x = x + 1;
            }
            k = k + 1;
        }
    }

    /// Sets the cell at row-major offset `i` alive where `draws[i]` holds,
    /// and dead elsewhere.
    pub fn apply_draws(&mut self, draws: &Vec<bool>)
        requires
            old(self).wf(),
            draws@.len() == old(self).cells().len(),
        ensures
            final(self).wf(),
            final(self).width_spec() == old(self).width_spec(),
            final(self).height_spec() == old(self).height_spec(),
            forall|i: int|
                0 <= i < final(self).cells().len() ==> #[trigger] final(self).cells()[i] == cell_of(
                    draws@[i],
                ),
    {
        let n = self.data.len();
        let mut i: usize = 0;
        while i < n
            invariant
                self.wf(),
                self.width_spec() == old(self).width_spec(),
                self.height_spec() == old(self).height_spec(),
                n == self.cells().len(),
                draws@.len() == n,
                i <= n,
                forall|j: int| 0 <= j < i ==> #[trigger] self.cells()[j] == cell_of(draws@[j]),
            decreases n - i,
        {
            self.data.set(i, Cell::from(draws[i]));
            i = i + 1;
        }
    }

    /// Makes each cell alive with probability one in four, independently,
    /// drawing from `rng` in row-major order. Returns the draws: the cell at
    /// row-major offset `i` is alive exactly where draw `i` is `true`.
    pub fn randomize_with(&mut self, rng: &mut StdRng) -> (draws: Vec<bool>)
        requires
            old(self).wf(),
        ensures
            final(self).wf(),
            final(self).width_spec() == old(self).width_spec(),
            final(self).height_spec() == old(self).height_spec(),
            draws@.len() == final(self).cells().len(),
            forall|i: int|
                0 <= i < draws@.len() ==> #[trigger] final(self).cells()[i] == cell_of(draws@[i]),
    {
        let n = self.data.len();
        let mut draws: Vec<bool> = Vec::new();
        let mut i: usize = 0;
        while i < n
            invariant
                i <= n,
                draws@.len() == i,
            decreases n - i,
        {
            draws.push(gen_ratio(rng, 1, 4));
            i = i + 1;
        }
        self.apply_draws(&draws);
        draws
    }

    /// Makes each cell alive with probability one in four, independently,
    /// from a generator seeded by the operating system. Returns `false`, and
    /// leaves every cell as it was, where no seed could be had.
    pub fn randomize(&mut self) -> (ok: bool)
        requires
            old(self).wf(),
        ensures
            final(self).wf(),
            final(self).width_spec() == old(self).width_spec(),
            final(self).height_spec() == old(self).height_spec(),
            !ok ==> final(self).cells() == old(self).cells(),
    {
        match fresh_rng() {
            Some(mut rng) => {
                self.randomize_with(&mut rng);
                true
            },
            None => false,
        }
    }

    /// A cursor over every coordinate of the grid, in row-major order.
    pub fn enumerate_indices(&self) -> (r: IndicesEnumerate)
        requires
            self.wf(),
        ensures
            r.wf(),
            r.remaining() == row_major(self.width_spec() as usize, self.height_spec() as usize),
    {
        IndicesEnumerate::new(self.width, self.height)
    }
}

/// The neighbour count of a cell lies between 0 and 8; in the next
/// generation a live cell with fewer than two or more than three live
/// neighbours is dead, and a dead cell with other than three live neighbours
/// stays dead.
pub proof fn lemma_rule_deaths(g: Life, x: int, y: int)
    requires
        g.wf(),
        0 <= x < g.width_spec(),
        0 <= y < g.height_spec(),
    ensures
        0 <= g.neighbours(x, y) <= 8,
        g.cell(x, y) == Cell::Alive && g.neighbours(x, y) != 2 && g.neighbours(x, y) != 3
            ==> g.successor_cells()[x + y * g.width_spec()] == Cell::Dead,
        g.cell(x, y) == Cell::Dead && g.neighbours(x, y) != 3 ==> g.successor_cells()[x + y
            * g.width_spec()] == Cell::Dead,
{
    lemma_row_major_index(x, y, g.width_spec() as int, g.height_spec() as int);
}

/// The next generation depends on the current one alone: two grids that each
/// meet what `next` promises for the same `g` are equal in size and cells.
pub proof fn lemma_next_deterministic(g: Life, r1: Life, r2: Life)
    requires
        g.wf(),
        r1.width_spec() == g.width_spec(),
        r1.height_spec() == g.height_spec(),
        r1.cells() == g.successor_cells(),
        r2.width_spec() == g.width_spec(),
        r2.height_spec() == g.height_spec(),
        r2.cells() == g.successor_cells(),
    ensures
        r1.width_spec() == r2.width_spec(),
        r1.height_spec() == r2.height_spec(),
        r1.cells() == r2.cells(),
        forall|x: int, y: int| 0 <= x < g.width_spec() && 0 <= y < g.height_spec()
            ==> #[trigger] r1.cell(x, y) == r2.cell(x, y),
{
}

/// `v % n` for `v` at most one step outside `0 .. n`.
proof fn lemma_wrap_step(v: int, n: int)
    requires
        n > 0,
        -1 <= v <= n,
    ensures
        v % n == (if v < 0 {
            n - 1
        } else if v == n {
            0
        } else {
            v
        }),
{
    if v < 0 {
        lemma_fundamental_div_mod_converse(v, n, -1, n - 1);
    } else if v == n {
        lemma_fundamental_div_mod_converse(v, n, 1, 0);
    } else {
        lemma_fundamental_div_mod_converse(v, n, 0, v);
    }
}

/// Whether `(x, y)` is one of the four cells of the 2 by 2 block whose top
/// left cell is `(a, b)`.
pub open spec fn in_block(x: int, y: int, a: int, b: int) -> bool {
    a <= x <= a + 1 && b <= y <= b + 1
}

/// A 2 by 2 block of live cells, with every other cell dead and at least one
/// column and one row of dead cells on each side of it (so that nothing
/// reaches it around the edges), is unchanged by a generation.
pub proof fn lemma_block_still_life(g: Life, a: int, b: int)
    requires
        g.wf(),
        1 <= a,
        a + 3 <= g.width_spec(),
        1 <= b,
        b + 3 <= g.height_spec(),
        forall|x: int, y: int|
            0 <= x < g.width_spec() && 0 <= y < g.height_spec() ==> #[trigger] g.cell(x, y)
                == cell_of(in_block(x, y, a, b)),
    ensures
        g.successor_cells() == g.cells(),
{
    let w = g.width_spec() as int;
    let h = g.height_spec() as int;
    assert forall|i: int| 0 <= i < g.cells().len() implies #[trigger] g.successor_cells()[i]
        == g.cells()[i] by {
        lemma_row_major_split(i, w, h);
        let x = i % w;
        let y = i / w;
        lemma_wrap_step(x - 1, w);
        lemma_wrap_step(x, w);
        lemma_wrap_step(x + 1, w);
        lemma_wrap_step(y - 1, h);
        lemma_wrap_step(y, h);
        lemma_wrap_step(y + 1, h);
        assert(g.cells()[i] == g.cell(x, y));
        let xs = seq![(x - 1) % w, x % w, (x + 1) % w];
        let ys = seq![(y - 1) % h, y % h, (y + 1) % h];
        assert(g.cell(xs[0], ys[0]) == cell_of(in_block(x - 1, y - 1, a, b)));
        assert(g.cell(xs[0], ys[1]) == cell_of(in_block(x - 1, y, a, b)));
        assert(g.cell(xs[0], ys[2]) == cell_of(in_block(x - 1, y + 1, a, b)));
        assert(g.cell(xs[1], ys[0]) == cell_of(in_block(x, y - 1, a, b)));
        assert(g.cell(xs[1], ys[1]) == cell_of(in_block(x, y, a, b)));
        assert(g.cell(xs[1], ys[2]) == cell_of(in_block(x, y + 1, a, b)));
        assert(g.cell(xs[2], ys[0]) == cell_of(in_block(x + 1, y - 1, a, b)));
        assert(g.cell(xs[2], ys[1]) == cell_of(in_block(x + 1, y, a, b)));
        assert(g.cell(xs[2], ys[2]) == cell_of(in_block(x + 1, y + 1, a, b)));
    }
    assert(g.successor_cells() =~= g.cells());
}

/// The five live cells of a glider in each of its four phases, in
/// coordinates relative to the corner of the box that holds it; phase 4 is
/// phase 0 moved one column right and one row down.
pub open spec fn glider_phase(phase: int, x: int, y: int) -> bool {
    if phase == 0 {
        (x == 1 && y == 0) || (x == 2 && y == 1) || (x == 0 && y == 2) || (x == 1 && y == 2) || (
        x == 2 && y == 2)
    } else if phase == 1 {
        (x == 0 && y == 1) || (x == 2 && y == 1) || (x == 1 && y == 2) || (x == 2 && y == 2) || (
        x == 1 && y == 3)
    } else if phase == 2 {
        (x == 2 && y == 1) || (x == 0 && y == 2) || (x == 2 && y == 2) || (x == 1 && y == 3) || (
        x == 2 && y == 3)
    } else if phase == 3 {
        (x == 1 && y == 1) || (x == 2 && y == 2) || (x == 3 && y == 2) || (x == 1 && y == 3) || (
        x == 2 && y == 3)
    } else {
        (x == 2 && y == 1) || (x == 3 && y == 2) || (x == 1 && y == 3) || (x == 2 && y == 3) || (
        x == 3 && y == 3)
    }
}

/// Every cell of `g` is alive exactly where the glider in phase `phase`,
/// with its box's corner at `(a, b)`, has a live cell, the grid wrapping
/// around at its edges.
pub open spec fn holds_glider(g: Life, phase: int, a: int, b: int) -> bool {
    forall|x: int, y: int|
        0 <= x < g.width_spec() && 0 <= y < g.height_spec() ==> #[trigger] g.cell(x, y)
            == cell_of(
            glider_phase(
                phase,
                (x - a) % (g.width_spec() as int),
                (y - b) % (g.height_spec() as int),
            ),
        )
}

/// Moving to a neighbour and then to coordinates relative to `a` is the same
/// as moving to coordinates relative to `a` and then to the neighbour.
proof fn lemma_relative_step(x: int, d: int, a: int, n: int)
    requires
        0 < n,
        0 <= a < n,
    ensures
        ((x + d) % n - a) % n == ((x - a) % n + d) % n,
{
    lemma_sub_mod_noop(x + d, a, n);
    lemma_fundamental_div_mod_converse(a, n, 0, a);
    lemma_add_mod_noop_right(d, x - a, n);
    assert(d + (x - a) == x + d - a);
}

/// One generation takes a glider in phase `phase` to phase `phase + 1`.
proof fn lemma_glider_step(g: Life, phase: int, a: int, b: int)
    requires
        g.wf(),
        g.width_spec() >= 8,
        g.height_spec() >= 8,
        0 <= a < g.width_spec(),
        0 <= b < g.height_spec(),
        0 <= phase < 4,
        holds_glider(g, phase, a, b),
    ensures
        forall|i: int|
            0 <= i < g.cells().len() ==> #[trigger] g.successor_cells()[i] == cell_of(
                glider_phase(
                    phase + 1,
                    (i % (g.width_spec() as int) - a) % (g.width_spec() as int),
                    (i / (g.width_spec() as int) - b) % (g.height_spec() as int),
                ),
            ),
{
    let w = g.width_spec() as int;
    let h = g.height_spec() as int;
    assert forall|i: int| 0 <= i < g.cells().len() implies #[trigger] g.successor_cells()[i]
        == cell_of(glider_phase(phase + 1, (i % w - a) % w, (i / w - b) % h)) by {
        lemma_row_major_split(i, w, h);
        let x = i % w;
        let y = i / w;
        lemma_wrap_step(x - 1, w);
        lemma_wrap_step(x, w);
        lemma_wrap_step(x + 1, w);
        lemma_wrap_step(y - 1, h);
        lemma_wrap_step(y, h);
        lemma_wrap_step(y + 1, h);
        lemma_relative_step(x, -1, a, w);
        lemma_relative_step(x, 0, a, w);
        lemma_relative_step(x, 1, a, w);
        lemma_relative_step(y, -1, b, h);
        lemma_relative_step(y, 0, b, h);
        lemma_relative_step(y, 1, b, h);
        let rx = (x - a) % w;
        let ry = (y - b) % h;
        lemma_fundamental_div_mod_converse(rx, w, 0, rx);
        lemma_fundamental_div_mod_converse(ry, h, 0, ry);
        lemma_wrap_step(rx - 1, w);
        lemma_wrap_step(rx + 1, w);
        lemma_wrap_step(ry - 1, h);
        lemma_wrap_step(ry + 1, h);
        assert(g.cells()[i] == g.cell(x, y));
        assert(g.cell((x - 1) % w, (y - 1) % h) == cell_of(glider_phase(phase, (rx - 1) % w, (ry - 1) % h)));
        assert(g.cell((x - 1) % w, y % h) == cell_of(glider_phase(phase, (rx - 1) % w, ry % h)));
        assert(g.cell((x - 1) % w, (y + 1) % h) == cell_of(glider_phase(phase, (rx - 1) % w, (ry + 1) % h)));
        assert(g.cell(x % w, (y - 1) % h) == cell_of(glider_phase(phase, rx % w, (ry - 1) % h)));
        assert(g.cell(x % w, y % h) == cell_of(glider_phase(phase, rx, ry)));
        assert(g.cell(x % w, (y + 1) % h) == cell_of(glider_phase(phase, rx % w, (ry + 1) % h)));
        assert(g.cell((x + 1) % w, (y - 1) % h) == cell_of(glider_phase(phase, (rx + 1) % w, (ry - 1) % h)));
        assert(g.cell((x + 1) % w, y % h) == cell_of(glider_phase(phase, (rx + 1) % w, ry % h)));
        assert(g.cell((x + 1) % w, (y + 1) % h) == cell_of(glider_phase(phase, (rx + 1) % w, (ry + 1) % h)));
    }
}

/// A grid that is the next generation of a grid holding a glider in phase
/// `phase` holds it in phase `phase + 1`.
proof fn lemma_glider_next(g: Life, r: Life, phase: int, a: int, b: int)
    requires
        g.wf(),
        g.width_spec() >= 8,
        g.height_spec() >= 8,
        0 <= a < g.width_spec(),
        0 <= b < g.height_spec(),
        0 <= phase < 4,
        holds_glider(g, phase, a, b),
        r.width_spec() == g.width_spec(),
        r.height_spec() == g.height_spec(),
        r.cells() == g.successor_cells(),
    ensures
        r.wf(),
        holds_glider(r, phase + 1, a, b),
{
    let w = g.width_spec() as int;
    let h = g.height_spec() as int;
    lemma_glider_step(g, phase, a, b);
    assert forall|x: int, y: int| 0 <= x < w && 0 <= y < h implies #[trigger] r.cell(x, y)
        == cell_of(glider_phase(phase + 1, (x - a) % w, (y - b) % h)) by {
        lemma_row_major_index(x, y, w, h);
        assert(r.cell(x, y) == g.successor_cells()[x + y * w]);
    }
}

/// A glider on a grid of at least 8 by 8 cells, every other cell dead, is
/// after four generations the same glider moved one column right and one
/// row down (around the edges where it reaches them).
pub proof fn lemma_glider_moves(g: Life, r1: Life, r2: Life, r3: Life, r4: Life, a: int, b: int)
    requires
        g.wf(),
        g.width_spec() >= 8,
        g.height_spec() >= 8,
        0 <= a < g.width_spec(),
        0 <= b < g.height_spec(),
        holds_glider(g, 0, a, b),
        r1.width_spec() == g.width_spec() && r1.height_spec() == g.height_spec(),
        r1.cells() == g.successor_cells(),
        r2.width_spec() == r1.width_spec() && r2.height_spec() == r1.height_spec(),
        r2.cells() == r1.successor_cells(),
        r3.width_spec() == r2.width_spec() && r3.height_spec() == r2.height_spec(),
        r3.cells() == r2.successor_cells(),
        r4.width_spec() == r3.width_spec() && r4.height_spec() == r3.height_spec(),
        r4.cells() == r3.successor_cells(),
    ensures
        holds_glider(r4, 0, a + 1, b + 1),
{
    let w = g.width_spec() as int;
    let h = g.height_spec() as int;
    lemma_glider_next(g, r1, 0, a, b);
    lemma_glider_next(r1, r2, 1, a, b);
    lemma_glider_next(r2, r3, 2, a, b);
    lemma_glider_next(r3, r4, 3, a, b);
    assert forall|x: int, y: int| 0 <= x < w && 0 <= y < h implies #[trigger] r4.cell(x, y)
        == cell_of(glider_phase(0, (x - (a + 1)) % w, (y - (b + 1)) % h)) by {
        let rx = (x - a) % w;
        let ry = (y - b) % h;
        lemma_fundamental_div_mod_converse(rx, w, 0, rx);
        lemma_fundamental_div_mod_converse(ry, h, 0, ry);
        lemma_add_mod_noop_right(-1, x - a, w);
        lemma_add_mod_noop_right(-1, y - b, h);
        assert(-1 + (x - a) == x - (a + 1));
        assert(-1 + (y - b) == y - (b + 1));
        lemma_wrap_step(rx - 1, w);
        lemma_wrap_step(ry - 1, h);
        assert(r4.cell(x, y) == cell_of(glider_phase(4, rx, ry)));
    }
}

} // verus!
