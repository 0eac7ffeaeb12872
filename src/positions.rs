use vstd::arithmetic::div_mod::{lemma_fundamental_div_mod, lemma_fundamental_div_mod_converse};
use vstd::prelude::*;

verus! {

/// Every coordinate of a `width` by `height` grid, in row-major order: the
/// item at position `k` is the column `k % width` of the row `k / width`.
pub open spec fn row_major(width: usize, height: usize) -> Seq<(usize, usize)> {
    Seq::new(
        (width * height) as nat,
        |k: int| ((k % (width as int)) as usize, (k / (width as int)) as usize),
    )
}

/// The offset `x + y * width` of a coordinate in a row-major sequence is in
/// range, and gives the coordinate back by remainder and quotient.
pub proof fn lemma_row_major_index(x: int, y: int, width: int, height: int)
    requires
        0 <= x < width,
        0 <= y < height,
    ensures
        0 <= x + y * width < width * height,
        (x + y * width) % width == x,
        (x + y * width) / width == y,
{
    assert(0 <= x + y * width < width * height) by (nonlinear_arith)
        requires
            0 <= x < width,
            0 <= y < height,
    ;
    lemma_fundamental_div_mod_converse(x + y * width, width, y, x);
}

/// Each offset below `width * height` is the offset of one coordinate of the
/// grid.
pub proof fn lemma_row_major_split(k: int, width: int, height: int)
    requires
        0 <= height,
        0 <= k < width * height,
    ensures
        width > 0,
        0 <= k % width < width,
        0 <= k / width < height,
        k == k % width + (k / width) * width,
{
    if width <= 0 {
        assert(width * height <= 0) by (nonlinear_arith)
            requires
                width <= 0,
                0 <= height,
        ;
    }
    lemma_fundamental_div_mod(k, width);
    assert(width * (k / width) == (k / width) * width) by (nonlinear_arith);
    assert(k / width < height) by (nonlinear_arith)
        requires
            width > 0,
            k == width * (k / width) + k % width,
            0 <= k % width,
            k < width * height,
    ;
    assert(k / width >= 0) by (nonlinear_arith)
        requires
            width > 0,
            k == width * (k / width) + k % width,
            k % width < width,
            k >= 0,
    ;
}

/// The enumeration of a grid's coordinates holds `width * height` items, no
/// two of them equal, and every coordinate of the grid among them.
pub proof fn lemma_row_major_positions(width: usize, height: usize)
    ensures
        row_major(width, height).len() == width * height,
        row_major(width, height).no_duplicates(),
        forall|x: usize, y: usize|
            x < width && y < height ==> row_major(width, height).contains((x, y)),
{
    let s = row_major(width, height);
    assert forall|i: int, j: int| 0 <= i < s.len() && 0 <= j < s.len() && i != j implies s[i]
        != s[j] by {
        lemma_row_major_split(i, width as int, height as int);
        lemma_row_major_split(j, width as int, height as int);
    }
    assert forall|x: usize, y: usize| x < width && y < height implies s.contains((x, y)) by {
        lemma_row_major_index(x as int, y as int, width as int, height as int);
        let k = x + y * width;
        assert(s[k] == (x, y));
    }
}

/// The enumeration starts at `(0, 0)`, and after `(x, y)` comes `(x + 1, y)`,
/// or `(0, y + 1)` where `x` is the last column.
pub proof fn lemma_row_major_order(width: usize, height: usize)
    ensures
        width > 0 && height > 0 ==> row_major(width, height)[0] == (0usize, 0usize),
        forall|k: int|
            0 <= k && k + 1 < row_major(width, height).len() ==> {
                let (x, y) = #[trigger] row_major(width, height)[k];
                row_major(width, height)[k + 1] == if x + 1 < width {
                    ((x + 1) as usize, y)
                } else {
                    (0usize, (y + 1) as usize)
                }
            },
{
    let s = row_major(width, height);
    if width > 0 && height > 0 {
        assert(0 < width * height) by (nonlinear_arith)
            requires
                width > 0,
                height > 0,
        ;
        lemma_row_major_index(0, 0, width as int, height as int);
    }
    assert forall|k: int| 0 <= k && k + 1 < s.len() implies {
        let (x, y) = #[trigger] s[k];
        s[k + 1] == if x + 1 < width {
            ((x + 1) as usize, y)
        } else {
            (0usize, (y + 1) as usize)
        }
    } by {
        let w = width as int;
        let h = height as int;
        lemma_row_major_split(k, w, h);
        lemma_row_major_split(k + 1, w, h);
        let x = k % w;
        let y = k / w;
        if x + 1 < w {
            lemma_fundamental_div_mod_converse(k + 1, w, y, x + 1);
        } else {
            assert(k + 1 == 0 + (y + 1) * w) by (nonlinear_arith)
                requires
                    k == x + y * w,
                    x + 1 == w,
            ;
            lemma_fundamental_div_mod_converse(k + 1, w, y + 1, 0);
        }
    }
}

/// A cursor over the coordinates of a grid in row-major order: column by
/// column within a row, then the next row.
pub struct IndicesEnumerate {
    width: usize,
    height: usize,
    x: usize,
    y: usize,
}

impl IndicesEnumerate {
    /// The cursor's fields are consistent: it stands on a coordinate of the
    /// grid, or at the end, past the last row.
    pub closed spec fn wf(&self) -> bool {
        &&& self.width * self.height <= usize::MAX
        &&& self.y <= self.height
        &&& self.y < self.height ==> self.x < self.width
        &&& self.y == self.height ==> self.x == 0
    }

    /// How many coordinates have been handed out.
    pub closed spec fn done(&self) -> int {
        self.x + self.y * self.width
    }

    /// The coordinates still to come.
    pub closed spec fn remaining(&self) -> Seq<(usize, usize)> {
        row_major(self.width, self.height).skip(self.done())
    }

    /// A cursor at the first coordinate of a `width` by `height` grid.
    pub(crate) fn new(width: usize, height: usize) -> (r: IndicesEnumerate)
        requires
            width * height <= usize::MAX,
        ensures
            r.wf(),
            r.remaining() == row_major(width, height),
    {
        let y: usize = if width == 0 { height } else { 0 };
        let r = IndicesEnumerate { width, height, x: 0, y };
        proof {
            assert(r.done() == 0) by (nonlinear_arith)
                requires
                    r.x == 0,
                    r.width == 0 || r.y == 0,
                    r.done() == r.x + r.y * r.width,
            ;
            assert(r.remaining() =~= row_major(width, height));
        }
        r
    }

    /// Hands out the next coordinate, or `None` once all were handed out.
    pub fn next(&mut self) -> (r: Option<(usize, usize)>)
        requires
            old(self).wf(),
        ensures
            final(self).wf(),
            old(self).remaining().len() == 0 ==> r.is_none() && final(self).remaining()
                == old(self).remaining(),
            old(self).remaining().len() > 0 ==> r == Some(old(self).remaining()[0])
                && final(self).remaining() == old(self).remaining().drop_first(),
    {
        let ghost w = self.width as int;
        let ghost h = self.height as int;
        if self.y >= self.height {
            proof {
                assert(self.done() == w * h) by (nonlinear_arith)
                    requires
                        self.x == 0,
                        self.y == h,
                        self.done() == self.x + self.y * w,
                ;
            }
            return None;
        }
        let ghost before = self.remaining();
        let ghost k = self.done();
        proof {
            lemma_row_major_index(self.x as int, self.y as int, w, h);
        }
        let r = (self.x, self.y);
        if self.x + 1 == self.width {
            self.x = 0;
            self.y = self.y + 1;
            proof {
                assert(self.done() == k + 1) by (nonlinear_arith)
                    requires
                        self.x == 0,
                        self.done() == self.x + self.y * w,
                        k == (w - 1) + (self.y - 1) * w,
                ;
                if self.y < h {
                    assert(self.x < w);
                }
            }
        } else {
            self.x = self.x + 1;
        }
        proof {
            assert(self.remaining() =~= before.drop_first());
        }
        Some(r)
    }
}

} // verus!
