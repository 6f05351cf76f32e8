use vstd::prelude::*;
use crate::grid::Grid;
use crate::search::{Options, valid, target, state_ok, search_post, col, col_len, search, place};
use crate::trie::{TrieNode, Position, is_prefix, extendable};

verus! {

/// All solutions of a `w` by `h` search.
pub open spec fn solutions(
    w: nat,
    h: nat,
    rs: Set<Seq<char>>,
    cs: Set<Seq<char>>,
    opts: Options,
) -> Set<Seq<Seq<char>>> {
    Set::new(|g: Seq<Seq<char>>| valid(g, w, h, rs, cs, opts))
}

/// The solutions whose top-left symbol is `ch`.
pub open spec fn branch_solutions(
    w: nat,
    h: nat,
    rs: Set<Seq<char>>,
    cs: Set<Seq<char>>,
    opts: Options,
    ch: char,
) -> Set<Seq<Seq<char>>> {
    Set::new(|g: Seq<Seq<char>>| valid(g, w, h, rs, cs, opts) && g[0][0] == ch)
}

/// The symbols that start some word of `rs` and some word of `cs`.
pub open spec fn first_symbol_set(rs: Set<Seq<char>>, cs: Set<Seq<char>>) -> Set<char> {
    Set::new(|ch: char| extendable(rs, seq![ch]) && extendable(cs, seq![ch]))
}

/// `found` lists the grids of `set`, each once, all of width `w` and height `h`.
pub open spec fn lists(found: Seq<Grid>, w: nat, h: nat, set: Set<Seq<Seq<char>>>) -> bool {
    &&& forall|k: int|
        0 <= k < found.len() ==> (#[trigger] found[k]).wf() && found[k].width() == w
            && found[k].height() == h && set.contains(found[k]@)
    &&& forall|g: Seq<Seq<char>>| #[trigger]
        set.contains(g) ==> exists|k: int| 0 <= k < found.len() && #[trigger] found[k]@ == g
    &&& forall|k1: int, k2: int|
        0 <= k1 < found.len() && 0 <= k2 < found.len() && k1 != k2 ==> (#[trigger] found[k1])@
            != (#[trigger] found[k2])@
}

/// The top-left symbol of a solution starts its first row and its first column.
proof fn lemma_first_symbol(
    g: Seq<Seq<char>>,
    w: nat,
    h: nat,
    rs: Set<Seq<char>>,
    cs: Set<Seq<char>>,
    opts: Options,
)
    requires
        w >= 1,
        h >= 1,
        valid(g, w, h, rs, cs, opts),
    ensures
        first_symbol_set(rs, cs).contains(g[0][0]),
{
    let ch = g[0][0];
    assert(rs.contains(g[0]));
    assert(g[0].subrange(0, 1) =~= seq![ch]);
    assert(is_prefix(seq![ch], g[0]));
    assert(cs.contains(col(g, 0, h)));
    assert(col(g, 0, h).subrange(0, 1) =~= seq![ch]);
    assert(is_prefix(seq![ch], col(g, 0, h)));
}

/// Splitting the search by the top-left symbol loses nothing and adds
/// nothing: the solutions are the union of the branches over the symbols that
/// start a word of both dictionaries, and two branches never share a grid.
pub proof fn lemma_fan_out(
    w: nat,
    h: nat,
    rs: Set<Seq<char>>,
    cs: Set<Seq<char>>,
    opts: Options,
)
    requires
        w >= 1,
        h >= 1,
    ensures
        solutions(w, h, rs, cs, opts) == Set::new(
            |g: Seq<Seq<char>>|
                exists|ch: char|
                    first_symbol_set(rs, cs).contains(ch) && #[trigger] branch_solutions(
                        w,
                        h,
                        rs,
                        cs,
                        opts,
                        ch,
                    ).contains(g),
        ),
        forall|c1: char, c2: char|
            c1 != c2 ==> #[trigger] branch_solutions(w, h, rs, cs, opts, c1).disjoint(
                #[trigger] branch_solutions(w, h, rs, cs, opts, c2),
            ),
{
    let u = Set::new(
        |g: Seq<Seq<char>>|
            exists|ch: char|
                first_symbol_set(rs, cs).contains(ch) && #[trigger] branch_solutions(
                    w,
                    h,
                    rs,
                    cs,
                    opts,
                    ch,
                ).contains(g),
    );
    assert forall|g: Seq<Seq<char>>| solutions(w, h, rs, cs, opts).contains(g) implies u.contains(
        g,
    ) by {
        lemma_first_symbol(g, w, h, rs, cs, opts);
        assert(branch_solutions(w, h, rs, cs, opts, g[0][0]).contains(g));
    }
    assert(solutions(w, h, rs, cs, opts) =~= u);
}

/// A vector of `n` copies of `p`.
fn repeat_pos(p: Position, n: usize) -> (r: Vec<Position>)
    ensures
        r@.len() == n,
        forall|k: int| 0 <= k < n ==> #[trigger] r@[k] == p,
{
    let mut r: Vec<Position> = Vec::new();
    let mut k: usize = 0;
    while k < n
        invariant
            k <= n,
            r@.len() == k,
            forall|m: int| 0 <= m < k ==> #[trigger] r@[m] == p,
        decreases n - k,
    {
        r.push(p);
        k += 1;
    }
    r
}

/// A fresh grid of `.` and the column cursors at the root, as a search
/// starts from them.
fn start(rt: &TrieNode, ct: &TrieNode, root: Position, w: usize, h: usize) -> (r: (
    Grid,
    Vec<Position>,
))
    requires
        rt.valid_pos(root),
        rt.path(root) == Seq::<char>::empty(),
        rt.wf(),
        ct.wf(),
        w >= 1,
        h >= 1,
        w * h <= usize::MAX,
        w + h <= usize::MAX,
    ensures
        state_ok(*rt, *ct, root, r.1@, r.0, 0, 0),
        r.0.width() == w,
        r.0.height() == h,
{
    let grid = Grid::new('.', w, h);
    let v_pos = repeat_pos(ct.root(), w);
    proof {
        grid.lemma_shape();
        assert(grid@[0].subrange(0, 0) =~= Seq::<char>::empty());
        assert forall|k: int| 0 <= k < w implies ct.valid_pos(#[trigger] v_pos@[k]) && ct.path(
            v_pos@[k],
        ) == col(grid@, k, col_len(0, 0, k) as nat) by {
            assert(col(grid@, k, 0) =~= Seq::<char>::empty());
        }
    }
    (grid, v_pos)
}

proof fn lemma_lists(
    before: Seq<Grid>,
    after: Seq<Grid>,
    big: Seq<Seq<char>>,
    w: nat,
    h: nat,
    rs: Set<Seq<char>>,
    cs: Set<Seq<char>>,
    opts: Options,
    sym: Option<char>,
    set: Set<Seq<Seq<char>>>,
)
    requires
        before.len() == 0,
        search_post(before, after, big, w, h, rs, cs, opts, 0, 0, sym),
        forall|g: Seq<Seq<char>>| #[trigger]
            set.contains(g) == target(g, big, w, h, rs, cs, opts, 0, 0, sym),
    ensures
        lists(after, w, h, set),
{
    assert(after.subrange(0, after.len() as int) =~= after);
}

/// Every solution, each once: each row a word of `rt`, each column a word of
/// `ct`, through the filters of `opts`.
pub fn solve(rt: &TrieNode, ct: &TrieNode, w: usize, h: usize, opts: Options) -> (r: Vec<Grid>)
    requires
        rt.wf(),
        ct.wf(),
        w >= 1,
        h >= 1,
        w * h <= usize::MAX,
        w + h <= usize::MAX,
    ensures
        lists(r@, w as nat, h as nat, solutions(w as nat, h as nat, rt@, ct@, opts)),
{
    let root = rt.root();
    let (mut grid, mut v_pos) = start(rt, ct, root, w, h);
    let ghost big = grid@;
    let mut out: Vec<Grid> = Vec::new();
    search(rt, ct, root, &mut v_pos, &mut grid, 0, 0, opts, &mut out);
    proof {
        lemma_lists(
            Seq::empty(),
            out@,
            big,
            w as nat,
            h as nat,
            rt@,
            ct@,
            opts,
            None,
            solutions(w as nat, h as nat, rt@, ct@, opts),
        );
    }
    out
}

/// Every solution whose top-left symbol is `ch`, each once: one branch of the
/// fan-out, independent of every other.
pub fn solve_from(
    rt: &TrieNode,
    ct: &TrieNode,
    w: usize,
    h: usize,
    ch: char,
    opts: Options,
) -> (r: Vec<Grid>)
    requires
        rt.wf(),
        ct.wf(),
        w >= 1,
        h >= 1,
        w * h <= usize::MAX,
        w + h <= usize::MAX,
    ensures
        lists(r@, w as nat, h as nat, branch_solutions(w as nat, h as nat, rt@, ct@, opts, ch)),
{
    let root = rt.root();
    let (mut grid, mut v_pos) = start(rt, ct, root, w, h);
    let ghost big = grid@;
    let mut out: Vec<Grid> = Vec::new();
    let set = Ghost(branch_solutions(w as nat, h as nat, rt@, ct@, opts, ch));
    match rt.get(root, ch) {
        Some(hq) => {
            place(rt, ct, root, hq, ch, &mut v_pos, &mut grid, 0, 0, opts, &mut out);
            proof {
                lemma_lists(Seq::empty(), out@, big, w as nat, h as nat, rt@, ct@, opts, Some(ch), set@);
            }
        },
        None => {
            proof {
                assert forall|g: Seq<Seq<char>>| #[trigger] set@.contains(g) implies false by {
                    lemma_first_symbol(g, w as nat, h as nat, rt@, ct@, opts);
                    assert(Seq::<char>::empty().push(ch) =~= seq![ch]);
                }
            }
        },
    }
    out
}

/// The symbols that can stand at the top-left of a solution's grid: those
/// that start a word of `rt` and a word of `ct`, each once.
pub fn first_symbols(rt: &TrieNode, ct: &TrieNode) -> (r: Vec<char>)
    requires
        rt.wf(),
        ct.wf(),
    ensures
        forall|k: int| 0 <= k < r@.len() ==> first_symbol_set(rt@, ct@).contains(#[trigger] r@[k]),
        forall|ch: char|
            first_symbol_set(rt@, ct@).contains(ch) ==> #[trigger] r@.contains(ch),
        r@.no_duplicates(),
{
    let root = rt.root();
    let croot = ct.root();
    let kids = rt.children(root);
    let mut r: Vec<char> = Vec::new();
    let mut j: usize = 0;
    proof {
        assert(Seq::<char>::empty().push('a') =~= seq!['a']);
    }
    while j < kids.len()
        invariant
            rt.wf(),
            ct.wf(),
            rt.valid_pos(root),
            rt.path(root) == Seq::<char>::empty(),
            ct.valid_pos(croot),
            ct.path(croot) == Seq::<char>::empty(),
            j <= kids@.len(),
            forall|k: int|
                0 <= k < kids@.len() ==> rt.valid_pos((#[trigger] kids@[k]).1) && rt.path(
                    kids@[k].1,
                ) == rt.path(root).push(kids@[k].0) && extendable(rt@, rt.path(kids@[k].1)),
            forall|k1: int, k2: int|
                0 <= k1 < kids@.len() && 0 <= k2 < kids@.len() && k1 != k2 ==> (#[trigger] kids@[k1]).0
                    != (#[trigger] kids@[k2]).0,
            forall|k: int| 0 <= k < r@.len() ==> first_symbol_set(rt@, ct@).contains(#[trigger] r@[k]),
            forall|k: int|
                0 <= k < j && first_symbol_set(rt@, ct@).contains(#[trigger] kids@[k].0)
                    ==> r@.contains(kids@[k].0),
            forall|k: int|
                0 <= k < r@.len() ==> exists|m: int| 0 <= m < j && #[trigger] kids@[m].0 == #[trigger] r@[k],
            r@.no_duplicates(),
        decreases kids@.len() - j,
    {
        let ch = kids[j].0;
        let ghost before = r@;
        proof {
            assert(Seq::<char>::empty().push(ch) =~= seq![ch]);
            assert(rt.path(kids@[j as int].1).len() == 1);
        }
        if ct.get(croot, ch).is_some() {
            proof {
                assert(rt.path(kids@[j as int].1) == seq![ch]);
            }
            r.push(ch);
            proof {
                assert(r@.last() == ch);
                assert forall|k: int| 0 <= k < r@.len() implies exists|m: int|
                    0 <= m < j + 1 && #[trigger] kids@[m].0 == #[trigger] r@[k] by {
                    if k < before.len() {
                        assert(r@[k] == before[k]);
                    } else {
                        assert(kids@[j as int].0 == r@[k]);
                    }
                }
                assert forall|a: int, b: int| 0 <= a < b < r@.len() implies r@[a] != r@[b] by {
                    if b == before.len() {
                        let m = choose|m: int| 0 <= m < j && #[trigger] kids@[m].0 == before[a];
                        assert(kids@[m].0 != kids@[j as int].0);
                    } else {
                        assert(before[a] != before[b]);
                    }
                }
                assert forall|k: int|
                    0 <= k < j + 1 && first_symbol_set(rt@, ct@).contains(#[trigger] kids@[k].0)
                        implies r@.contains(kids@[k].0) by {
                    if k < j {
                        let i = choose|i: int| 0 <= i < before.len() && before[i] == kids@[k].0;
                        assert(r@[i] == before[i]);
                    } else {
                        assert(r@[before.len() as int] == ch);
                    }
                }
            }
        }
        j += 1;
    }
    proof {
        assert forall|ch: char| first_symbol_set(rt@, ct@).contains(ch) implies #[trigger] r@.contains(ch) by {
            assert(Seq::<char>::empty().push(ch) =~= seq![ch]);
            assert(extendable(rt@, rt.path(root).push(ch)));
            let k = choose|k: int| 0 <= k < kids@.len() && (#[trigger] kids@[k]).0 == ch;
        }
    }
    r
}

} // verus!
