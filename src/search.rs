use vstd::prelude::*;
use crate::grid::{Grid, rect};
use crate::trie::{TrieNode, Position, is_prefix, extendable};

verus! {

/// The optional filters of a search.
#[derive(Clone, Copy)]
pub struct Options {
    /// On square grids, drop the grids that equal their own transpose.
    pub unique: bool,
    /// Drop the grids in which a word stands in two rows or columns.
    pub dedup: bool,
}

/// The first `m` symbols of column `c`, top down.
pub open spec fn col(g: Seq<Seq<char>>, c: int, m: nat) -> Seq<char> {
    Seq::new(m, |k: int| g[k][c])
}

/// Every cell equals its mirror across the main diagonal.
pub open spec fn symmetric(g: Seq<Seq<char>>) -> bool {
    forall|i: int, j: int| 0 <= i < g.len() && 0 <= j < g.len() ==> #[trigger] g[i][j] == g[j][i]
}

/// The words of a grid: the `h` rows, then the columns.
pub open spec fn word(g: Seq<Seq<char>>, h: nat, a: int) -> Seq<char> {
    if a < h {
        g[a]
    } else {
        col(g, a - h, h)
    }
}

/// No word stands in two of the rows and columns.
pub open spec fn distinct_words(g: Seq<Seq<char>>, w: nat, h: nat) -> bool {
    forall|a: int, b: int|
        0 <= a < h + w && 0 <= b < h + w && a != b ==> #[trigger] word(g, h, a) != #[trigger] word(
            g,
            h,
            b,
        )
}

/// A solution: every row is in `rs`, every column in `cs`, and the grid
/// passes the filters that `opts` turns on.
pub open spec fn valid(
    g: Seq<Seq<char>>,
    w: nat,
    h: nat,
    rs: Set<Seq<char>>,
    cs: Set<Seq<char>>,
    opts: Options,
) -> bool {
    &&& rect(g, w, h)
    &&& forall|r: int| 0 <= r < h ==> rs.contains(#[trigger] g[r])
    &&& forall|c: int| 0 <= c < w ==> cs.contains(#[trigger] col(g, c, h))
    &&& (opts.unique && w == h ==> !symmetric(g))
    &&& (opts.dedup ==> distinct_words(g, w, h))
}

/// `g` holds what `big` holds in the rows above `r` and in row `r` left of `c`.
pub open spec fn agrees(g: Seq<Seq<char>>, big: Seq<Seq<char>>, r: int, c: int) -> bool {
    &&& forall|i: int| 0 <= i < r ==> #[trigger] g[i] == big[i]
    &&& forall|j: int| 0 <= j < c ==> #[trigger] g[r][j] == big[r][j]
}

/// A solution that completes the cells of `big` before (`r`, `c`), and holds
/// `sym` at (`r`, `c`) when it is given.
pub open spec fn target(
    g: Seq<Seq<char>>,
    big: Seq<Seq<char>>,
    w: nat,
    h: nat,
    rs: Set<Seq<char>>,
    cs: Set<Seq<char>>,
    opts: Options,
    r: int,
    c: int,
    sym: Option<char>,
) -> bool {
    &&& valid(g, w, h, rs, cs, opts)
    &&& agrees(g, big, r, c)
    &&& (sym matches Some(ch) ==> g[r][c] == ch)
}

/// `found` holds each target grid exactly once, and nothing else.
pub open spec fn exactly(
    found: Seq<Grid>,
    big: Seq<Seq<char>>,
    w: nat,
    h: nat,
    rs: Set<Seq<char>>,
    cs: Set<Seq<char>>,
    opts: Options,
    r: int,
    c: int,
    sym: Option<char>,
) -> bool {
    &&& forall|k: int|
        0 <= k < found.len() ==> (#[trigger] found[k]).wf() && found[k].width() == w
            && found[k].height() == h && target(found[k]@, big, w, h, rs, cs, opts, r, c, sym)
    &&& forall|g: Seq<Seq<char>>| #[trigger]
        target(g, big, w, h, rs, cs, opts, r, c, sym) ==> exists|k: int|
            0 <= k < found.len() && #[trigger] found[k]@ == g
    &&& forall|k1: int, k2: int|
        0 <= k1 < found.len() && 0 <= k2 < found.len() && k1 != k2 ==> (#[trigger] found[k1])@
            != (#[trigger] found[k2])@
}

/// How many cells of column `k` are filled before cell (`r`, `c`).
pub open spec fn col_len(r: int, c: int, k: int) -> int {
    if k < c {
        r + 1
    } else {
        r
    }
}

/// Word `a` (see `word`) is complete before cell (`r`, `c`).
pub open spec fn done(h: nat, r: int, c: int, a: int) -> bool {
    if a < h {
        a < r
    } else {
        col_len(r, c, a - h) == h
    }
}

/// No two words complete before cell (`r`, `c`) are equal.
pub open spec fn done_distinct(big: Seq<Seq<char>>, w: nat, h: nat, r: int, c: int) -> bool {
    forall|a: int, b: int|
        0 <= a < h + w && 0 <= b < h + w && a != b && done(h, r, c, a) && done(h, r, c, b)
            ==> #[trigger] word(big, h, a) != #[trigger] word(big, h, b)
}

/// A complete word depends only on the cells before (`r`, `c`).
proof fn lemma_done_fixed(
    g: Seq<Seq<char>>,
    big: Seq<Seq<char>>,
    w: nat,
    h: nat,
    r: int,
    c: int,
    a: int,
)
    requires
        rect(g, w, h),
        rect(big, w, h),
        agrees(g, big, r, c),
        0 <= r <= h,
        0 <= c < w,
        r == h ==> c == 0,
        0 <= a < h + w,
        done(h, r, c, a),
    ensures
        word(g, h, a) == word(big, h, a),
{
    if a >= h {
        let k = a - h;
        assert forall|i: int| 0 <= i < h implies #[trigger] g[i][k] == big[i][k] by {
            if i < r {
                assert(g[i] == big[i]);
            } else {
                assert(i == r && k < c);
            }
        }
        assert(col(g, k, h) =~= col(big, k, h));
    }
}

/// The search state before cell (`r`, `c`): the row cursor stands for the
/// filled part of row `r`, the cursor of each column for its filled part, and
/// every row and column already full is a word.
pub open spec fn state_ok(
    rt: TrieNode,
    ct: TrieNode,
    h_pos: Position,
    vp: Seq<Position>,
    grid: Grid,
    r: int,
    c: int,
) -> bool {
    let w = grid.width();
    let h = grid.height();
    let big = grid@;
    &&& rt.wf() && ct.wf() && grid.wf()
    &&& w >= 1 && h >= 1 && w + h <= usize::MAX
    &&& 0 <= r <= h && 0 <= c < w && (r == h ==> c == 0)
    &&& (r < h ==> rt.valid_pos(h_pos) && rt.path(h_pos) == big[r].subrange(0, c))
    &&& vp.len() == w
    &&& forall|k: int|
        0 <= k < w ==> ct.valid_pos(#[trigger] vp[k]) && ct.path(vp[k]) == col(
            big,
            k,
            col_len(r, c, k) as nat,
        )
    &&& forall|i: int| 0 <= i < r ==> rt@.contains(#[trigger] big[i])
    &&& forall|k: int| 0 <= k < w && col_len(r, c, k) == h ==> ct@.contains(#[trigger] col(big, k, h))
}

fn same_word(a: &Vec<char>, b: &Vec<char>) -> (r: bool)
    ensures
        r == (a@ == b@),
{
    if a.len() != b.len() {
        return false;
    }
    let mut k: usize = 0;
    while k < a.len()
        invariant
            a@.len() == b@.len(),
            k <= a@.len(),
            forall|m: int| 0 <= m < k ==> a@[m] == b@[m],
        decreases a@.len() - k,
    {
        if a[k] != b[k] {
            return false;
        }
        k += 1;
    }
    assert(a@ =~= b@);
    true
}

/// Word `a` of the grid: row `a` when `a < h`, else column `a - h`.
fn word_of(grid: &Grid, a: usize) -> (r: Vec<char>)
    requires
        grid.wf(),
        a < grid.height() + grid.width(),
    ensures
        r@ == word(grid@, grid.height(), a as int),
{
    let w = grid.w();
    let h = grid.h();
    let mut r: Vec<char> = Vec::new();
    proof {
        grid.lemma_shape();
    }
    if a < h {
        let mut k: usize = 0;
        while k < w
            invariant
                grid.wf(),
                w == grid.width(),
                h == grid.height(),
                a < h,
                rect(grid@, grid.width(), grid.height()),
                k <= w,
                r@ == grid@[a as int].subrange(0, k as int),
            decreases w - k,
        {
            r.push(grid.get(a, k));
            k += 1;
            assert(r@ =~= grid@[a as int].subrange(0, k as int));
        }
        proof {
            grid.lemma_shape();
        }
        assert(r@ =~= grid@[a as int]);
    } else {
        let c = a - h;
        let mut k: usize = 0;
        while k < h
            invariant
                grid.wf(),
                w == grid.width(),
                h == grid.height(),
                c < w,
                k <= h,
                r@ == col(grid@, c as int, k as nat),
            decreases h - k,
        {
            r.push(grid.get(k, c));
            k += 1;
            assert(r@ =~= col(grid@, c as int, k as nat));
        }
    }
    r
}

/// Whether word `a` equals another word complete before cell (`r`, `c`).
fn clashes(grid: &Grid, a: usize, r: usize, c: usize) -> (res: bool)
    requires
        grid.wf(),
        grid.width() >= 1,
        grid.height() + grid.width() <= usize::MAX,
        a < grid.height() + grid.width(),
        r <= grid.height(),
        c < grid.width(),
    ensures
        res == exists|b: int|
            0 <= b < grid.height() + grid.width() && b != a && done(grid.height(), r as int, c as int, b)
                && #[trigger] word(grid@, grid.height(), b) == word(grid@, grid.height(), a as int),
{
    let n = grid.h() + grid.w();
    let h = grid.h();
    let wa = word_of(grid, a);
    let mut b: usize = 0;
    while b < n
        invariant
            grid.wf(),
            n == grid.height() + grid.width(),
            h == grid.height(),
            r <= h,
            b <= n,
            wa@ == word(grid@, grid.height(), a as int),
            forall|x: int|
                0 <= x < b && x != a && done(grid.height(), r as int, c as int, x) ==> #[trigger] word(
                    grid@,
                    grid.height(),
                    x,
                ) != word(grid@, grid.height(), a as int),
        decreases n - b,
    {
        let is_done = if b < h {
            b < r
        } else {
            let len = if b - h < c {
                r + 1
            } else {
                r
            };
            len == h
        };
        if b != a && is_done {
            let wb = word_of(grid, b);
            if same_word(&wb, &wa) {
                return true;
            }
        }
        b += 1;
    }
    false
}

/// Whether no word stands twice among the rows and columns.
pub fn words_distinct(grid: &Grid) -> (r: bool)
    requires
        grid.wf(),
        grid.height() + grid.width() <= usize::MAX,
    ensures
        r == distinct_words(grid@, grid.width(), grid.height()),
{
    let n = grid.h() + grid.w();
    let mut words: Vec<Vec<char>> = Vec::new();
    let mut a: usize = 0;
    while a < n
        invariant
            grid.wf(),
            n == grid.height() + grid.width(),
            a <= n,
            words@.len() == a,
            forall|m: int| 0 <= m < a ==> (#[trigger] words@[m])@ == word(grid@, grid.height(), m),
        decreases n - a,
    {
        words.push(word_of(grid, a));
        a += 1;
    }
    let mut i: usize = 0;
    while i < n
        invariant
            n == grid.height() + grid.width(),
            i <= n,
            words@.len() == n,
            forall|m: int| 0 <= m < n ==> (#[trigger] words@[m])@ == word(grid@, grid.height(), m),
            forall|x: int, y: int|
                0 <= x < i && 0 <= y < n && x != y ==> #[trigger] word(grid@, grid.height(), x)
                    != #[trigger] word(grid@, grid.height(), y),
        decreases n - i,
    {
        let mut j: usize = 0;
        while j < n
            invariant
                n == grid.height() + grid.width(),
                i < n,
                j <= n,
                words@.len() == n,
                forall|m: int|
                    0 <= m < n ==> (#[trigger] words@[m])@ == word(grid@, grid.height(), m),
                forall|x: int, y: int|
                    0 <= x < i && 0 <= y < n && x != y ==> #[trigger] word(grid@, grid.height(), x)
                        != #[trigger] word(grid@, grid.height(), y),
                forall|y: int|
                    0 <= y < j && i != y ==> word(grid@, grid.height(), i as int) != #[trigger] word(
                        grid@,
                        grid.height(),
                        y,
                    ),
            decreases n - j,
        {
            if i != j && same_word(&words[i], &words[j]) {
                assert(word(grid@, grid.height(), i as int) == word(grid@, grid.height(), j as int));
                return false;
            }
            j += 1;
        }
        i += 1;
    }
    true
}

/// Whether a square grid equals its transpose.
pub fn is_symmetric(grid: &Grid) -> (r: bool)
    requires
        grid.wf(),
        grid.width() == grid.height(),
    ensures
        r == symmetric(grid@),
{
    proof {
        grid.lemma_shape();
    }
    let n = grid.h();
    let mut i: usize = 0;
    while i < n
        invariant
            grid.wf(),
            rect(grid@, grid.width(), grid.height()),
            n == grid.height() == grid.width(),
            i <= n,
            forall|x: int, y: int| 0 <= x < i && 0 <= y < n ==> #[trigger] grid@[x][y] == grid@[y][x],
        decreases n - i,
    {
        let mut j: usize = 0;
        while j < n
            invariant
                grid.wf(),
                rect(grid@, grid.width(), grid.height()),
                n == grid.height() == grid.width(),
                i < n,
                j <= n,
                forall|x: int, y: int|
                    0 <= x < i && 0 <= y < n ==> #[trigger] grid@[x][y] == grid@[y][x],
                forall|y: int| 0 <= y < j ==> #[trigger] grid@[i as int][y] == grid@[y][i as int],
            decreases n - j,
        {
            if grid.get(i, j) != grid.get(j, i) {
                return false;
            }
            j += 1;
        }
        i += 1;
    }
    assert forall|x: int, y: int| 0 <= x < grid@.len() && 0 <= y < grid@.len() implies #[trigger] grid@[x][y]
        == grid@[y][x] by {
    }
    true
}

/// `x` labels one of the first `j` entries of `kids`.
pub open spec fn in_keys(kids: Seq<(char, Position)>, j: int, x: char) -> bool {
    exists|m: int| 0 <= m < j && (#[trigger] kids[m]).0 == x
}

/// The grid after writing `ch` at (`r`, `c`).
pub open spec fn put(big: Seq<Seq<char>>, r: int, c: int, ch: char) -> Seq<Seq<char>> {
    big.update(r, big[r].update(c, ch))
}

proof fn lemma_prefixes(
    g: Seq<Seq<char>>,
    big: Seq<Seq<char>>,
    w: nat,
    h: nat,
    r: int,
    c: int,
    ch: char,
)
    requires
        rect(g, w, h),
        rect(big, w, h),
        0 <= r < h,
        0 <= c < w,
        agrees(g, big, r, c),
        g[r][c] == ch,
    ensures
        g[r].subrange(0, c + 1) == big[r].subrange(0, c).push(ch),
        col(g, c, h).subrange(0, r + 1) == col(big, c, r as nat).push(ch),
        is_prefix(big[r].subrange(0, c).push(ch), g[r]),
        is_prefix(col(big, c, r as nat).push(ch), col(g, c, h)),
{
    assert(g[r].subrange(0, c + 1) =~= big[r].subrange(0, c).push(ch));
    assert(col(g, c, h).subrange(0, r + 1) =~= col(big, c, r as nat).push(ch));
}

proof fn lemma_step(
    g: Seq<Seq<char>>,
    big: Seq<Seq<char>>,
    w: nat,
    h: nat,
    rs: Set<Seq<char>>,
    cs: Set<Seq<char>>,
    opts: Options,
    r: int,
    c: int,
    ch: char,
)
    requires
        rect(big, w, h),
        0 <= r < h,
        0 <= c < w,
    ensures
        c + 1 == w ==> (target(g, put(big, r, c, ch), w, h, rs, cs, opts, r + 1, 0, None)
            == target(g, big, w, h, rs, cs, opts, r, c, Some(ch))),
        c + 1 < w ==> (target(g, put(big, r, c, ch), w, h, rs, cs, opts, r, c + 1, None)
            == target(g, big, w, h, rs, cs, opts, r, c, Some(ch))),
{
    let b2 = put(big, r, c, ch);
    if valid(g, w, h, rs, cs, opts) {
        if c + 1 == w {
            if agrees(g, big, r, c) && g[r][c] == ch {
                assert(g[r] =~= b2[r]);
            }
            if agrees(g, b2, r + 1, 0) {
                assert(g[r] == b2[r]);
                assert(g[r][c] == b2[r][c]);
                assert forall|j: int| 0 <= j < c implies #[trigger] g[r][j] == big[r][j] by {
                    assert(g[r][j] == b2[r][j]);
                }
            }
        } else {
            if agrees(g, b2, r, c + 1) {
                assert(g[r][c] == b2[r][c]);
                assert forall|j: int| 0 <= j < c implies #[trigger] g[r][j] == big[r][j] by {
                    assert(g[r][j] == b2[r][j]);
                }
            }
        }
    }
}

/// Every grid in `found` completes the cells of `big` before (`r`, `c`) and is
/// a solution; every such grid with `sym` at (`r`, `c`) comes once.
pub open spec fn search_post(
    before: Seq<Grid>,
    after: Seq<Grid>,
    big: Seq<Seq<char>>,
    w: nat,
    h: nat,
    rs: Set<Seq<char>>,
    cs: Set<Seq<char>>,
    opts: Options,
    r: int,
    c: int,
    sym: Option<char>,
) -> bool {
    &&& before.len() <= after.len()
    &&& after.subrange(0, before.len() as int) == before
    &&& exactly(after.subrange(before.len() as int, after.len() as int), big, w, h, rs, cs, opts, r, c, sym)
}

/// Fills the grid from cell (`r`, `c`) on, in row-major order, and appends to
/// `out` every solution that completes what is already placed. The grid and
/// the column cursors are handed back as they came.
pub fn search(
    rt: &TrieNode,
    ct: &TrieNode,
    h_pos: Position,
    v_pos: &mut Vec<Position>,
    grid: &mut Grid,
    r: usize,
    c: usize,
    opts: Options,
    out: &mut Vec<Grid>,
)
    requires
        state_ok(*rt, *ct, h_pos, old(v_pos)@, *old(grid), r as int, c as int),
        opts.dedup ==> done_distinct(
            old(grid)@,
            old(grid).width(),
            old(grid).height(),
            r as int,
            c as int,
        ),
    ensures
        final(grid).wf(),
        final(grid).width() == old(grid).width(),
        final(grid).height() == old(grid).height(),
        final(grid)@ == old(grid)@,
        final(v_pos)@ == old(v_pos)@,
        search_post(
            old(out)@,
            final(out)@,
            old(grid)@,
            old(grid).width(),
            old(grid).height(),
            rt@,
            ct@,
            opts,
            r as int,
            c as int,
            None,
        ),
    decreases old(grid).height() - r, old(grid).width() - c, 1nat,
{
    let w = grid.w();
    let h = grid.h();
    let ghost big = grid@;
    let ghost out0 = out@;
    let ghost rs = rt@;
    let ghost cs = ct@;
    proof {
        grid.lemma_shape();
    }
    if r == h {
        let keep = !opts.unique || w != h || !is_symmetric(grid);
        if keep {
            out.push(grid.copy());
        }
        proof {
            let found = out@.subrange(out0.len() as int, out@.len() as int);
            assert forall|g: Seq<Seq<char>>|
                target(g, big, w as nat, h as nat, rs, cs, opts, r as int, 0, None) implies g
                == big by {
                assert(g =~= big);
            }
            assert forall|k: int| 0 <= k < w implies cs.contains(
                #[trigger] col(big, k, h as nat),
            ) by {
                assert(col_len(r as int, c as int, k) == h);
            }
            assert forall|a: int| 0 <= a < h + w implies done(h as nat, r as int, c as int, a) by {
                if a >= h {
                    assert(col_len(r as int, c as int, a - h) == h);
                }
            }
            assert(valid(big, w as nat, h as nat, rs, cs, opts) == keep);
            assert(out@.subrange(0, out0.len() as int) =~= out0);
            if keep {
                assert(found.len() == 1);
                assert(found[0]@ == big);
                assert(target(big, big, w as nat, h as nat, rs, cs, opts, r as int, 0, None));
            } else {
                assert(found =~= Seq::<Grid>::empty());
            }
        }
        return ;
    }
    let kids = rt.children(h_pos);
    let ghost vp0 = v_pos@;
    let mut j: usize = 0;
    proof {
        assert(out@.subrange(0, out0.len() as int) =~= out0);
        assert(out@.subrange(out0.len() as int, out@.len() as int) =~= Seq::<Grid>::empty());
    }
    while j < kids.len()
        invariant
            state_ok(*rt, *ct, h_pos, v_pos@, *grid, r as int, c as int),
            opts.dedup ==> done_distinct(big, w as nat, h as nat, r as int, c as int),
            grid@ == big,
            grid.width() == w,
            grid.height() == h,
            w == old(grid).width(),
            h == old(grid).height(),
            v_pos@ == vp0,
            rs == rt@,
            cs == ct@,
            r < h,
            j <= kids@.len(),
            forall|k: int|
                0 <= k < kids@.len() ==> rt.valid_pos((#[trigger] kids@[k]).1) && rt.path(
                    kids@[k].1,
                ) == rt.path(h_pos).push(kids@[k].0),
            forall|k1: int, k2: int|
                0 <= k1 < kids@.len() && 0 <= k2 < kids@.len() && k1 != k2 ==> (#[trigger] kids@[k1]).0
                    != (#[trigger] kids@[k2]).0,
            out0.len() <= out@.len(),
            out@.subrange(0, out0.len() as int) == out0,
            forall|k: int|
                out0.len() <= k < out@.len() ==> (#[trigger] out@[k]).wf() && out@[k].width() == w
                    && out@[k].height() == h && target(
                    out@[k]@,
                    big,
                    w as nat,
                    h as nat,
                    rs,
                    cs,
                    opts,
                    r as int,
                    c as int,
                    None,
                ) && in_keys(kids@, j as int, out@[k]@[r as int][c as int]),
            forall|g: Seq<Seq<char>>| #[trigger]
                target(g, big, w as nat, h as nat, rs, cs, opts, r as int, c as int, None) && in_keys(
                    kids@,
                    j as int,
                    g[r as int][c as int],
                ) ==> exists|k: int| out0.len() <= k < out@.len() && #[trigger] out@[k]@ == g,
            forall|k1: int, k2: int|
                out0.len() <= k1 < out@.len() && out0.len() <= k2 < out@.len() && k1 != k2 ==> (
                #[trigger] out@[k1])@ != (#[trigger] out@[k2])@,
        decreases kids@.len() - j,
    {
        let (ch, hq) = kids[j];
        let ghost mid = out@;
        place(rt, ct, h_pos, hq, ch, v_pos, grid, r, c, opts, out);
        proof {
            let found = out@.subrange(mid.len() as int, out@.len() as int);
            assert forall|k: int| 0 <= k < mid.len() implies out@[k] == mid[k] by {
                assert(out@.subrange(0, mid.len() as int)[k] == mid[k]);
            }
            assert(out@.subrange(0, out0.len() as int) =~= out0);
            assert forall|k: int| mid.len() <= k < out@.len() implies out@[k] == found[k - mid.len()] by {
            }
            assert forall|k: int|
                out0.len() <= k < out@.len() implies (#[trigger] out@[k]).wf() && out@[k].width()
                == w && out@[k].height() == h && target(
                out@[k]@,
                big,
                w as nat,
                h as nat,
                rs,
                cs,
                opts,
                r as int,
                c as int,
                None,
            ) && in_keys(kids@, j + 1, out@[k]@[r as int][c as int]) by {
                if k < mid.len() {
                    assert(out@[k] == mid[k]);
                    let m = choose|m: int|
                        0 <= m < j && (#[trigger] kids@[m]).0 == out@[k]@[r as int][c as int];
                    assert(kids@[m].0 == out@[k]@[r as int][c as int]);
                } else {
                    assert(out@[k] == found[k - mid.len()]);
                    assert(kids@[j as int].0 == out@[k]@[r as int][c as int]);
                }
            }
            assert forall|g: Seq<Seq<char>>| #[trigger]
                target(g, big, w as nat, h as nat, rs, cs, opts, r as int, c as int, None)
                    && in_keys(kids@, j + 1, g[r as int][c as int]) implies exists|k: int|
                out0.len() <= k < out@.len() && #[trigger] out@[k]@ == g by {
                if g[r as int][c as int] == ch {
                    assert(target(g, big, w as nat, h as nat, rs, cs, opts, r as int, c as int, Some(ch)));
                    let q = choose|q: int| 0 <= q < found.len() && #[trigger] found[q]@ == g;
                    assert(out@[q + mid.len()] == found[q]);
                } else {
                    let m = choose|m: int| 0 <= m < j + 1 && (#[trigger] kids@[m]).0 == g[r as int][c as int];
                    assert(m != j);
                    assert(in_keys(kids@, j as int, g[r as int][c as int]));
                    let k = choose|k: int| out0.len() <= k < mid.len() && #[trigger] mid[k]@ == g;
                    assert(out@[k] == mid[k]);
                }
            }
            assert forall|k1: int, k2: int|
                out0.len() <= k1 < out@.len() && out0.len() <= k2 < out@.len() && k1 != k2 implies (
                #[trigger] out@[k1])@ != (#[trigger] out@[k2])@ by {
                if k1 < mid.len() && k2 < mid.len() {
                    assert(out@[k1] == mid[k1]);
                    assert(out@[k2] == mid[k2]);
                } else if k1 >= mid.len() && k2 >= mid.len() {
                    assert(out@[k1] == found[k1 - mid.len()]);
                    assert(out@[k2] == found[k2 - mid.len()]);
                } else {
                    let (a, b) = if k1 < mid.len() { (k1, k2) } else { (k2, k1) };
                    assert(out@[a] == mid[a]);
                    assert(out@[b] == found[b - mid.len()]);
                    let m = choose|m: int| 0 <= m < j && (#[trigger] kids@[m]).0 == mid[a]@[r as int][c as int];
                    assert(kids@[m].0 != kids@[j as int].0);
                }
            }
        }
        j += 1;
    }
    proof {
        let found = out@.subrange(out0.len() as int, out@.len() as int);
        assert forall|g: Seq<Seq<char>>| #[trigger]
            target(g, big, w as nat, h as nat, rs, cs, opts, r as int, c as int, None) implies exists|k: int|
            0 <= k < found.len() && #[trigger] found[k]@ == g by {
            let x = g[r as int][c as int];
            lemma_prefixes(g, big, w as nat, h as nat, r as int, c as int, x);
            assert(rs.contains(g[r as int]));
            assert(extendable(rs, rt.path(h_pos).push(x)));
            let m = choose|m: int| 0 <= m < kids@.len() && (#[trigger] kids@[m]).0 == x;
            assert(in_keys(kids@, j as int, x));
            let k = choose|k: int| out0.len() <= k < out@.len() && #[trigger] out@[k]@ == g;
            assert(found[k - out0.len()] == out@[k]);
        }
        assert forall|k: int| 0 <= k < found.len() implies #[trigger] found[k] == out@[k + out0.len()] by {
        }
    }
}

/// Tries symbol `ch`, reached in the row trie at `hq`, at cell (`r`, `c`):
/// appends every solution that completes what is placed and holds `ch` there.
pub(crate) fn place(
    rt: &TrieNode,
    ct: &TrieNode,
    h_pos: Position,
    hq: Position,
    ch: char,
    v_pos: &mut Vec<Position>,
    grid: &mut Grid,
    r: usize,
    c: usize,
    opts: Options,
    out: &mut Vec<Grid>,
)
    requires
        state_ok(*rt, *ct, h_pos, old(v_pos)@, *old(grid), r as int, c as int),
        opts.dedup ==> done_distinct(
            old(grid)@,
            old(grid).width(),
            old(grid).height(),
            r as int,
            c as int,
        ),
        r < old(grid).height(),
        rt.valid_pos(hq),
        rt.path(hq) == rt.path(h_pos).push(ch),
    ensures
        final(grid).wf(),
        final(grid).width() == old(grid).width(),
        final(grid).height() == old(grid).height(),
        final(grid)@ == old(grid)@,
        final(v_pos)@ == old(v_pos)@,
        search_post(
            old(out)@,
            final(out)@,
            old(grid)@,
            old(grid).width(),
            old(grid).height(),
            rt@,
            ct@,
            opts,
            r as int,
            c as int,
            Some(ch),
        ),
    decreases old(grid).height() - r, old(grid).width() - c, 0nat,
{
    let w = grid.w();
    let h = grid.h();
    let ghost big = grid@;
    let ghost out0 = out@;
    let ghost vp0 = v_pos@;
    let ghost rs = rt@;
    let ghost cs = ct@;
    let ghost sym = Some(ch);
    proof {
        grid.lemma_shape();
        assert(out@.subrange(0, out0.len() as int) =~= out0);
        assert(out@.subrange(out0.len() as int, out@.len() as int) =~= Seq::<Grid>::empty());
    }
    let row_ok = if c + 1 == w {
        rt.is_exact(hq)
    } else {
        rt.has_children(hq)
    };
    if !row_ok {
        proof {
            assert forall|g: Seq<Seq<char>>|
                #[trigger] target(g, big, w as nat, h as nat, rs, cs, opts, r as int, c as int, sym)
                implies false by {
                lemma_prefixes(g, big, w as nat, h as nat, r as int, c as int, ch);
                assert(rs.contains(g[r as int]));
                if c + 1 == w {
                    assert(g[r as int] =~= g[r as int].subrange(0, c + 1));
                }
            }
        }
        return ;
    }
    let vc = v_pos[c];
    let got = ct.get(vc, ch);
    let vq = match got {
        Some(vq) => vq,
        None => {
            proof {
                assert forall|g: Seq<Seq<char>>|
                    #[trigger] target(g, big, w as nat, h as nat, rs, cs, opts, r as int, c as int, sym)
                    implies false by {
                    lemma_prefixes(g, big, w as nat, h as nat, r as int, c as int, ch);
                    assert(cs.contains(col(g, c as int, h as nat)));
                    assert(col_len(r as int, c as int, c as int) == r);
                }
            }
            return ;
        },
    };
    let col_ok = if r + 1 == h {
        ct.is_exact(vq)
    } else {
        ct.has_children(vq)
    };
    if !col_ok {
        proof {
            assert forall|g: Seq<Seq<char>>|
                #[trigger] target(g, big, w as nat, h as nat, rs, cs, opts, r as int, c as int, sym)
                implies false by {
                lemma_prefixes(g, big, w as nat, h as nat, r as int, c as int, ch);
                assert(cs.contains(col(g, c as int, h as nat)));
                assert(col_len(r as int, c as int, c as int) == r);
                if r + 1 == h {
                    assert(col(g, c as int, h as nat) =~= col(g, c as int, h as nat).subrange(0, r + 1));
                }
            }
        }
        return ;
    }
    let old_ch = grid.get(r, c);
    grid.set(r, c, ch);
    v_pos.set(c, vq);
    let ghost big2 = grid@;
    assert(big2 == put(big, r as int, c as int, ch));
    let nr: usize = if c + 1 == w {
        r + 1
    } else {
        r
    };
    let nc: usize = if c + 1 == w {
        0
    } else {
        c + 1
    };
    proof {
        grid.lemma_shape();
        assert forall|i: int| 0 <= i < r implies #[trigger] big2[i] == big[i] by {
        }
        assert forall|j: int| 0 <= j < c implies #[trigger] big2[r as int][j] == big[r as int][j] by {
        }
        assert(agrees(big2, big, r as int, c as int));
    }
    let row_clash = opts.dedup && c + 1 == w && clashes(grid, r, nr, nc);
    let col_clash = opts.dedup && !row_clash && r + 1 == h && clashes(grid, h + c, nr, nc);
    if !row_clash && !col_clash {
        proof {
            let vp2 = v_pos@;
            assert(col(big2, c as int, (r + 1) as nat) =~= col(big, c as int, r as nat).push(ch));
            assert(col_len(nr as int, nc as int, c as int) == r + 1);
            assert forall|k: int| 0 <= k < w && k != c implies col_len(nr as int, nc as int, k)
                == col_len(r as int, c as int, k) && col(
                big2,
                k,
                col_len(nr as int, nc as int, k) as nat,
            ) == col(big, k, col_len(nr as int, nc as int, k) as nat) by {
                assert(col(big2, k, col_len(nr as int, nc as int, k) as nat) =~= col(
                    big,
                    k,
                    col_len(nr as int, nc as int, k) as nat,
                ));
            }
            assert forall|k: int| 0 <= k < w implies ct.valid_pos(#[trigger] vp2[k]) && ct.path(
                vp2[k],
            ) == col(big2, k, col_len(nr as int, nc as int, k) as nat) by {
                if k != c {
                    assert(vp2[k] == vp0[k]);
                }
            }
            assert forall|k: int| 0 <= k < w && col_len(nr as int, nc as int, k) == h implies ct@.contains(
                #[trigger] col(big2, k, h as nat),
            ) by {
                if k != c {
                    assert(col(big2, k, h as nat) == col(big, k, h as nat));
                }
            }
            assert forall|i: int| 0 <= i < nr implies rt@.contains(#[trigger] big2[i]) by {
                if i == r {
                    assert(big2[i] =~= big[r as int].subrange(0, c as int).push(ch));
                } else {
                    assert(big2[i] == big[i]);
                }
            }
            if c + 1 < w {
                assert(big2[r as int].subrange(0, c + 1) =~= big[r as int].subrange(0, c as int).push(
                    ch,
                ));
            } else if r + 1 < h {
                assert(big2[r + 1].subrange(0, 0) =~= Seq::<char>::empty());
            }
            if opts.dedup {
                assert forall|x: int, y: int|
                    0 <= x < h + w && 0 <= y < h + w && x != y && done(
                        h as nat,
                        nr as int,
                        nc as int,
                        x,
                    ) && done(h as nat, nr as int, nc as int, y) implies #[trigger] word(
                    big2,
                    h as nat,
                    x,
                ) != #[trigger] word(big2, h as nat, y) by {
                    if done(h as nat, r as int, c as int, x) && done(h as nat, r as int, c as int, y) {
                        lemma_done_fixed(big2, big, w as nat, h as nat, r as int, c as int, x);
                        lemma_done_fixed(big2, big, w as nat, h as nat, r as int, c as int, y);
                    } else if !done(h as nat, r as int, c as int, x) {
                        if x >= h && x - h != c {
                            assert(col_len(nr as int, nc as int, x - h) == col_len(
                                r as int,
                                c as int,
                                x - h,
                            ));
                        }
                        assert(x == r || x == h + c);
                    } else {
                        if y >= h && y - h != c {
                            assert(col_len(nr as int, nc as int, y - h) == col_len(
                                r as int,
                                c as int,
                                y - h,
                            ));
                        }
                        assert(y == r || y == h + c);
                    }
                }
            }
        }
        let next_h = if c + 1 == w {
            rt.root()
        } else {
            hq
        };
        search(rt, ct, next_h, v_pos, grid, nr, nc, opts, out);
        proof {
            assert forall|g: Seq<Seq<char>>|
                #[trigger] target(g, big2, w as nat, h as nat, rs, cs, opts, nr as int, nc as int, None)
                    == target(g, big, w as nat, h as nat, rs, cs, opts, r as int, c as int, sym) by {
                lemma_step(g, big, w as nat, h as nat, rs, cs, opts, r as int, c as int, ch);
            }
            let found = out@.subrange(out0.len() as int, out@.len() as int);
            assert forall|g: Seq<Seq<char>>|
                #[trigger] target(g, big, w as nat, h as nat, rs, cs, opts, r as int, c as int, sym)
                implies exists|k: int| 0 <= k < found.len() && #[trigger] found[k]@ == g by {
                lemma_step(g, big, w as nat, h as nat, rs, cs, opts, r as int, c as int, ch);
                assert(target(g, big2, w as nat, h as nat, rs, cs, opts, nr as int, nc as int, None));
            }
        }
    } else {
        proof {
            assert forall|g: Seq<Seq<char>>|
                #[trigger] target(g, big, w as nat, h as nat, rs, cs, opts, r as int, c as int, sym)
                implies false by {
                lemma_step(g, big, w as nat, h as nat, rs, cs, opts, r as int, c as int, ch);
                assert(target(g, big2, w as nat, h as nat, rs, cs, opts, nr as int, nc as int, None));
                let x: int = if row_clash { r as int } else { h + c };
                let y = choose|y: int|
                    0 <= y < h + w && y != x && done(h as nat, nr as int, nc as int, y) && #[trigger] word(
                        big2,
                        h as nat,
                        y,
                    ) == word(big2, h as nat, x);
                lemma_done_fixed(g, big2, w as nat, h as nat, nr as int, nc as int, x);
                lemma_done_fixed(g, big2, w as nat, h as nat, nr as int, nc as int, y);
                assert(word(g, h as nat, x) == word(g, h as nat, y));
            }
        }
    }
    grid.set(r, c, old_ch);
    v_pos.set(c, vc);
    assert(grid@[r as int] =~= big[r as int]);
    assert(grid@ =~= big);
    assert(v_pos@ =~= vp0);
}

} // verus!
