use vstd::prelude::*;

verus! {

/// `g` has `h` rows of `w` symbols each.
pub open spec fn rect(g: Seq<Seq<char>>, w: nat, h: nat) -> bool {
    g.len() == h && forall|r: int| 0 <= r < h ==> (#[trigger] g[r]).len() == w
}

proof fn lemma_cell(r: int, c: int, w: int, h: int)
    requires
        0 <= r < h,
        0 <= c <= w,
    ensures
        0 <= r * w,
        r * w + c <= r * w + w,
        r * w + w <= h * w,
        h * w == w * h,
{
    assert(r * w + w <= h * w) by (nonlinear_arith)
        requires
            r < h,
            0 <= w,
    ;
    assert(0 <= r * w) by (nonlinear_arith)
        requires
            0 <= r,
            0 <= w,
    ;
    assert(h * w == w * h) by (nonlinear_arith);
}

proof fn lemma_rows_apart(r1: int, r2: int, w: int)
    requires
        0 <= r1 < r2,
        0 <= w,
    ensures
        r1 * w + w <= r2 * w,
{
    assert(r1 * w + w <= r2 * w) by (nonlinear_arith)
        requires
            r1 < r2,
            0 <= w,
    ;
}

/// A row as text: each symbol followed by a space.
pub open spec fn spaced(row: Seq<char>) -> Seq<char>
    decreases row.len(),
{
    if row.len() == 0 {
        Seq::empty()
    } else {
        spaced(row.drop_last()).push(row.last()).push(' ')
    }
}

/// A grid as text: one line per row, top to bottom.
pub open spec fn rendered(g: Seq<Seq<char>>) -> Seq<char>
    decreases g.len(),
{
    if g.len() == 0 {
        Seq::empty()
    } else {
        rendered(g.drop_last()) + spaced(g.last()).push('\n')
    }
}

/// Relies on `String::push`: appends one character at the end.
#[verifier::external_body]
fn push_char(s: &mut String, c: char)
    ensures
        final(s)@ == old(s)@.push(c),
{
    s.push(c)
}

/// A `w` by `h` buffer of symbols, stored row by row.
pub struct Grid {
    cells: Vec<char>,
    w: usize,
    h: usize,
}

impl View for Grid {
    type V = Seq<Seq<char>>;

    /// The rows, top to bottom.
    closed spec fn view(&self) -> Seq<Seq<char>> {
        Seq::new(
            self.h as nat,
            |r: int| self.cells@.subrange(r * self.w, r * self.w + self.w),
        )
    }
}

impl Grid {
    pub closed spec fn width(self) -> nat {
        self.w as nat
    }

    pub closed spec fn height(self) -> nat {
        self.h as nat
    }

    pub closed spec fn wf(self) -> bool {
        self.cells@.len() == self.w * self.h && self.w * self.h <= usize::MAX
    }

    proof fn lemma_view(self)
        requires
            self.wf(),
        ensures
            rect(self@, self.width(), self.height()),
            forall|r: int, c: int|
                0 <= r < self.h && 0 <= c < self.w ==> #[trigger] self@[r][c] == self.cells@[r
                    * self.w + c] && r * self.w + c < self.cells@.len(),
    {
        assert forall|r: int| 0 <= r < self.h implies (#[trigger] self@[r]).len() == self.w by {
            lemma_cell(r, 0, self.w as int, self.h as int);
        }
        assert forall|r: int, c: int| 0 <= r < self.h && 0 <= c < self.w implies #[trigger] self@[r][c]
            == self.cells@[r * self.w + c] && r * self.w + c < self.cells@.len() by {
            lemma_cell(r, c, self.w as int, self.h as int);
        }
    }

    /// The rows of a well-formed grid all have its width.
    pub proof fn lemma_shape(self)
        requires
            self.wf(),
        ensures
            rect(self@, self.width(), self.height()),
    {
        self.lemma_view();
    }

    /// A grid with every cell holding `fill`.
    pub fn new(fill: char, w: usize, h: usize) -> (g: Grid)
        requires
            w * h <= usize::MAX,
        ensures
            g.wf(),
            g.width() == w,
            g.height() == h,
            g@ == Seq::new(h as nat, |r: int| Seq::new(w as nat, |c: int| fill)),
    {
        let n: usize = w * h;
        let mut cells: Vec<char> = Vec::new();
        let mut k: usize = 0;
        while k < n
            invariant
                k <= n,
                cells@.len() == k,
                forall|m: int| 0 <= m < k ==> cells@[m] == fill,
            decreases n - k,
        {
            cells.push(fill);
            k += 1;
        }
        let g = Grid { cells, w, h };
        proof {
            g.lemma_view();
            assert forall|r: int| 0 <= r < h implies #[trigger] g@[r] == Seq::new(
                w as nat,
                |c: int| fill,
            ) by {
                assert(g@[r] =~= Seq::new(w as nat, |c: int| fill));
            }
            assert(g@ =~= Seq::new(h as nat, |r: int| Seq::new(w as nat, |c: int| fill)));
        }
        g
    }

    /// The number of columns.
    pub fn w(&self) -> (r: usize)
        ensures
            r == self.width(),
    {
        self.w
    }

    /// The number of rows.
    pub fn h(&self) -> (r: usize)
        ensures
            r == self.height(),
    {
        self.h
    }

    /// The symbol at row `i`, column `j`.
    pub fn get(&self, i: usize, j: usize) -> (v: char)
        requires
            self.wf(),
            i < self.height(),
            j < self.width(),
        ensures
            v == self@[i as int][j as int],
    {
        proof {
            self.lemma_view();
            lemma_cell(i as int, j as int, self.w as int, self.h as int);
        }
        self.cells[i * self.w + j]
    }

    /// Writes `v` at row `i`, column `j`.
    pub fn set(&mut self, i: usize, j: usize, v: char)
        requires
            old(self).wf(),
            i < old(self).height(),
            j < old(self).width(),
        ensures
            final(self).wf(),
            final(self).width() == old(self).width(),
            final(self).height() == old(self).height(),
            final(self)@ == old(self)@.update(i as int, old(self)@[i as int].update(j as int, v)),
    {
        proof {
            self.lemma_view();
            lemma_cell(i as int, j as int, self.w as int, self.h as int);
        }
        let k = i * self.w + j;
        self.cells.set(k, v);
        proof {
            let w = self.w as int;
            let expect = old(self)@.update(i as int, old(self)@[i as int].update(j as int, v));
            assert forall|r: int| 0 <= r < self.h implies #[trigger] self@[r] == expect[r] by {
                lemma_cell(r, 0, w, self.h as int);
                if r < i {
                    lemma_rows_apart(r, i as int, w);
                } else if r > i {
                    lemma_rows_apart(i as int, r, w);
                }
                assert(self@[r] =~= expect[r]);
            }
            assert(self@ =~= expect);
        }
    }

    /// The grid as text: one line per row, each symbol followed by a space.
    pub fn render(&self) -> (s: String)
        requires
            self.wf(),
        ensures
            s@ == rendered(self@),
    {
        proof {
            self.lemma_view();
        }
        let mut s = String::new();
        let mut i: usize = 0;
        while i < self.h
            invariant
                self.wf(),
                rect(self@, self.width(), self.height()),
                i <= self.h,
                s@ == rendered(self@.subrange(0, i as int)),
            decreases self.h - i,
        {
            let ghost before = s@;
            let mut j: usize = 0;
            while j < self.w
                invariant
                    self.wf(),
                    rect(self@, self.width(), self.height()),
                    i < self.h,
                    j <= self.w,
                    s@ == before + spaced(self@[i as int].subrange(0, j as int)),
                decreases self.w - j,
            {
                let ghost row = self@[i as int];
                push_char(&mut s, self.get(i, j));
                push_char(&mut s, ' ');
                j += 1;
                assert(row.subrange(0, j as int).drop_last() =~= row.subrange(0, j - 1));
            }
            push_char(&mut s, '\n');
            i += 1;
            proof {
                let g = self@.subrange(0, i as int);
                assert(g.drop_last() =~= self@.subrange(0, i - 1));
                assert(self@[i - 1].subrange(0, self.w as int) =~= self@[i - 1]);
                assert(s@ =~= rendered(g));
            }
        }
        assert(self@.subrange(0, self.h as int) =~= self@);
        s
    }

    /// A copy of this grid.
    pub fn copy(&self) -> (g: Grid)
        ensures
            g.wf() == self.wf(),
            g.width() == self.width(),
            g.height() == self.height(),
            g@ == self@,
    {
        let mut cells: Vec<char> = Vec::new();
        let mut k: usize = 0;
        while k < self.cells.len()
            invariant
                k <= self.cells@.len(),
                cells@ == self.cells@.subrange(0, k as int),
            decreases self.cells@.len() - k,
        {
            cells.push(self.cells[k]);
            k += 1;
            assert(cells@ =~= self.cells@.subrange(0, k as int));
        }
        assert(cells@ =~= self.cells@);
        Grid { cells, w: self.w, h: self.h }
    }
}

} // verus!
