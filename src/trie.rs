use vstd::prelude::*;

verus! {

/// `s` is a prefix of `t`.
pub open spec fn is_prefix(s: Seq<char>, t: Seq<char>) -> bool {
    s.len() <= t.len() && t.subrange(0, s.len() as int) == s
}

/// Some word of `words` starts with `s`.
pub open spec fn extendable(words: Set<Seq<char>>, s: Seq<char>) -> bool {
    exists|t: Seq<char>| #[trigger] words.contains(t) && is_prefix(s, t)
}

/// Some word of `words` starts with `s` and is strictly longer than `s`.
pub open spec fn has_longer(words: Set<Seq<char>>, s: Seq<char>) -> bool {
    exists|t: Seq<char>| #[trigger] words.contains(t) && is_prefix(s, t) && t.len() > s.len()
}

/// `s` can still be reached while building: a prefix of a stored word, or a
/// prefix of at most `j` symbols of the word `w` being inserted.
spec fn reach(words: Set<Seq<char>>, w: Seq<char>, j: int, s: Seq<char>) -> bool {
    extendable(words, s) || (is_prefix(s, w) && s.len() <= j)
}

proof fn lemma_extendable_shorter(words: Set<Seq<char>>, s: Seq<char>, c: char)
    requires
        extendable(words, s.push(c)),
    ensures
        extendable(words, s),
{
    let t = choose|t: Seq<char>| #[trigger] words.contains(t) && is_prefix(s.push(c), t);
    assert(t.subrange(0, s.len() as int) =~= t.subrange(0, s.len() + 1 as int).subrange(0, s.len() as int));
    assert(s.push(c).subrange(0, s.len() as int) =~= s);
}

/// The words of `ws` that have exactly `len` symbols.
pub open spec fn words_of_length(ws: Seq<Seq<char>>, len: nat) -> Set<Seq<char>> {
    Set::new(|s: Seq<char>| ws.contains(s) && s.len() == len)
}

/// The symbol sequences of a list of words.
pub open spec fn seqs_of(ws: Seq<Vec<char>>) -> Seq<Seq<char>> {
    ws.map_values(|v: Vec<char>| v@)
}

/// A cursor into a trie: the index of one of its nodes.
#[derive(Clone, Copy)]
pub struct Position {
    pub node: usize,
}

/// What the prefix reached by a position is, with respect to the dictionary.
pub enum Class {
    Neither,
    PrefixOnly,
    ExactOnly,
    Both,
}

struct Node {
    children: Vec<(char, usize)>,
    exact: bool,
}

/// A prefix tree over `char` symbols. Nodes live in one vector; the root is
/// node 0 and every edge names its child by index.
pub struct TrieNode {
    nodes: Vec<Node>,
    words: Ghost<Set<Seq<char>>>,
    paths: Ghost<Seq<Seq<char>>>,
}

impl View for TrieNode {
    type V = Set<Seq<char>>;

    closed spec fn view(&self) -> Set<Seq<char>> {
        self.words@
    }
}

impl TrieNode {
    closed spec fn kids(self, i: int) -> Seq<(char, usize)> {
        self.nodes@[i].children@
    }

    closed spec fn has_kid(self, i: int, c: char) -> bool {
        exists|k: int| 0 <= k < self.kids(i).len() && #[trigger] self.kids(i)[k].0 == c
    }

    /// The shape invariant, with the words of `self` plus the prefixes of `w`
    /// of at most `j` symbols counted as present.
    closed spec fn inv(self, w: Seq<char>, j: int) -> bool {
        let n = self.nodes@.len();
        let ps = self.paths@;
        &&& n >= 1
        &&& ps.len() == n
        &&& ps[0] == Seq::<char>::empty()
        &&& forall|i: int, k: int|
            0 <= i < n && 0 <= k < self.kids(i).len() ==> (#[trigger] self.kids(i)[k]).1 < n
                && ps[self.kids(i)[k].1 as int] == ps[i].push(self.kids(i)[k].0)
        &&& forall|i: int, k1: int, k2: int|
            #![trigger self.kids(i)[k1], self.kids(i)[k2]]
            0 <= i < n && 0 <= k1 < self.kids(i).len() && 0 <= k2 < self.kids(i).len() && k1
                != k2 ==> self.kids(i)[k1].0 != self.kids(i)[k2].0
        &&& forall|i: int, c: char|
            0 <= i < n && reach(self.words@, w, j, #[trigger] ps[i].push(c)) ==> self.has_kid(i, c)
        &&& forall|i: int| 0 < i < n ==> (#[trigger] ps[i]).len() > 0
        &&& forall|i: int| 0 <= i < n ==> reach(self.words@, w, j, #[trigger] ps[i]) || i == 0
        &&& forall|i: int, k: int|
            #![trigger ps[i], ps[k]]
            0 <= i < n && 0 <= k < n && ps[i] == ps[k] ==> i == k
        &&& forall|i: int| 0 <= i < n ==> (#[trigger] self.nodes@[i]).exact == self.words@.contains(ps[i])
    }

    /// Well-formedness: every node stands for one prefix, the edges out of a
    /// node carry distinct symbols, and an edge exists exactly where some word
    /// continues the prefix with its symbol.
    pub closed spec fn wf(self) -> bool {
        self.inv(Seq::<char>::empty(), 0)
    }

    pub closed spec fn valid_pos(self, p: Position) -> bool {
        p.node < self.nodes@.len()
    }

    /// The prefix that a position stands for.
    pub closed spec fn path(self, p: Position) -> Seq<char> {
        self.paths@[p.node as int]
    }

    /// An empty trie.
    pub fn new() -> (r: TrieNode)
        ensures
            r.wf(),
            r@ == Set::<Seq<char>>::empty(),
    {
        let mut nodes: Vec<Node> = Vec::new();
        nodes.push(Node { children: Vec::new(), exact: false });
        let ghost ps = seq![Seq::<char>::empty()];
        let r = TrieNode { nodes, words: Ghost(Set::empty()), paths: Ghost(ps) };
        assert forall|i: int, c: char|
            0 <= i < 1 && reach(r.words@, Seq::<char>::empty(), 0, #[trigger] r.paths@[i].push(
                c,
            )) implies r.has_kid(i, c) by {
            assert(r.paths@[i].push(c).len() > 0);
        }
        r
    }

    /// The position of the empty prefix.
    pub fn root(&self) -> (r: Position)
        requires
            self.wf(),
        ensures
            self.valid_pos(r),
            self.path(r) == Seq::<char>::empty(),
    {
        Position { node: 0 }
    }

    /// Index, among the edges out of node `i`, of the one labelled `c`.
    fn find_kid(&self, i: usize, c: char) -> (r: Option<usize>)
        requires
            i < self.nodes@.len(),
        ensures
            r matches Some(k) ==> k < self.kids(i as int).len() && self.kids(i as int)[k as int].0
                == c,
            r is None ==> !self.has_kid(i as int, c),
    {
        let node = &self.nodes[i];
        let mut k: usize = 0;
        while k < node.children.len()
            invariant
                node == self.nodes@[i as int],
                k <= node.children@.len(),
                forall|m: int| 0 <= m < k ==> (#[trigger] node.children@[m]).0 != c,
            decreases node.children@.len() - k,
        {
            if node.children[k].0 == c {
                return Some(k);
            }
            k += 1;
        }
        None
    }
    /// Descends one symbol from `p`: `None` exactly when no word continues the
    /// prefix of `p` with `c`.
    pub fn get(&self, p: Position, c: char) -> (r: Option<Position>)
        requires
            self.wf(),
            self.valid_pos(p),
        ensures
            r is Some <==> extendable(self@, self.path(p).push(c)),
            r matches Some(q) ==> self.valid_pos(q) && self.path(q) == self.path(p).push(c),
    {
        match self.find_kid(p.node, c) {
            Some(k) => {
                let q = Position { node: self.nodes[p.node].children[k].1 };
                proof {
                    let e = Seq::<char>::empty();
                    assert(self.kids(p.node as int)[k as int].1 < self.nodes@.len());
                    assert(self.paths@[q.node as int] == self.paths@[p.node as int].push(c));
                    assert(self.paths@[q.node as int].len() > 0);
                    assert(reach(self.words@, e, 0, self.paths@[q.node as int]));
                }
                Some(q)
            },
            None => {
                proof {
                    let e = Seq::<char>::empty();
                    if extendable(self@, self.path(p).push(c)) {
                        assert(reach(self.words@, e, 0, self.paths@[p.node as int].push(c)));
                    }
                }
                None
            },
        }
    }

    /// Whether the prefix of `p` is itself a word.
    pub fn is_exact(&self, p: Position) -> (r: bool)
        requires
            self.wf(),
            self.valid_pos(p),
        ensures
            r == self@.contains(self.path(p)),
    {
        self.nodes[p.node].exact
    }

    /// Whether some longer word continues the prefix of `p`.
    pub fn has_children(&self, p: Position) -> (r: bool)
        requires
            self.wf(),
            self.valid_pos(p),
        ensures
            r == has_longer(self@, self.path(p)),
    {
        let r = self.nodes[p.node].children.len() > 0;
        proof {
            let e = Seq::<char>::empty();
            let i = p.node as int;
            let s = self.paths@[i];
            if r {
                let kid = self.kids(i)[0];
                assert(self.paths@[kid.1 as int] == s.push(kid.0));
                assert(self.paths@[kid.1 as int].len() > 0);
                assert(reach(self.words@, e, 0, self.paths@[kid.1 as int]));
                let t = choose|t: Seq<char>|
                    #[trigger] self.words@.contains(t) && is_prefix(s.push(kid.0), t);
                assert(t.subrange(0, s.len() as int) =~= t.subrange(0, s.len() + 1 as int).subrange(
                    0,
                    s.len() as int,
                ));
                assert(s.push(kid.0).subrange(0, s.len() as int) =~= s);
                assert(self.words@.contains(t) && is_prefix(s, t) && t.len() > s.len());
            } else if has_longer(self@, s) {
                let t = choose|t: Seq<char>|
                    #[trigger] self.words@.contains(t) && is_prefix(s, t) && t.len() > s.len();
                let c = t[s.len() as int];
                assert(t.subrange(0, s.len() + 1 as int) =~= s.push(c));
                assert(reach(self.words@, e, 0, s.push(c)));
                assert(self.has_kid(i, c));
            }
        }
        r
    }

    /// Classifies the prefix of `p`: a prefix of a longer word, a word, both.
    pub fn classify(&self, p: Position) -> (r: Class)
        requires
            self.wf(),
            self.valid_pos(p),
        ensures
            r == (match (has_longer(self@, self.path(p)), self@.contains(self.path(p))) {
                (true, true) => Class::Both,
                (true, false) => Class::PrefixOnly,
                (false, true) => Class::ExactOnly,
                (false, false) => Class::Neither,
            }),
    {
        let longer = self.has_children(p);
        let exact = self.is_exact(p);
        if longer && exact {
            Class::Both
        } else if longer {
            Class::PrefixOnly
        } else if exact {
            Class::ExactOnly
        } else {
            Class::Neither
        }
    }

    /// The symbols that continue the prefix of `p` towards some word, each once,
    /// with the position each one leads to.
    pub fn children(&self, p: Position) -> (r: Vec<(char, Position)>)
        requires
            self.wf(),
            self.valid_pos(p),
        ensures
            forall|k: int|
                0 <= k < r@.len() ==> self.valid_pos((#[trigger] r@[k]).1) && self.path(r@[k].1)
                    == self.path(p).push(r@[k].0) && extendable(self@, self.path(r@[k].1)),
            forall|k1: int, k2: int|
                0 <= k1 < r@.len() && 0 <= k2 < r@.len() && k1 != k2 ==> (#[trigger] r@[k1]).0
                    != (#[trigger] r@[k2]).0,
            forall|c: char|
                #![trigger self.path(p).push(c)]
                extendable(self@, self.path(p).push(c)) ==> exists|k: int|
                    0 <= k < r@.len() && (#[trigger] r@[k]).0 == c,
    {
        let node = &self.nodes[p.node];
        let ghost i = p.node as int;
        let mut r: Vec<(char, Position)> = Vec::new();
        let mut k: usize = 0;
        while k < node.children.len()
            invariant
                self.wf(),
                self.valid_pos(p),
                i == p.node,
                node == self.nodes@[i],
                k <= node.children@.len(),
                r@.len() == k,
                forall|m: int|
                    0 <= m < k ==> (#[trigger] r@[m]).0 == self.kids(i)[m].0 && r@[m].1.node
                        == self.kids(i)[m].1,
            decreases node.children@.len() - k,
        {
            let (c, q) = node.children[k];
            r.push((c, Position { node: q }));
            k += 1;
        }
        proof {
            let e = Seq::<char>::empty();
            assert forall|k1: int, k2: int|
                0 <= k1 < r@.len() && 0 <= k2 < r@.len() && k1 != k2 implies (#[trigger] r@[k1]).0
                != (#[trigger] r@[k2]).0 by {
                assert(self.kids(i)[k1].0 != self.kids(i)[k2].0);
            }
            assert forall|m: int| 0 <= m < r@.len() implies self.valid_pos((#[trigger] r@[m]).1)
                && self.path(r@[m].1) == self.path(p).push(r@[m].0) && extendable(
                self@,
                self.path(r@[m].1),
            ) by {
                assert(self.kids(i)[m].1 < self.nodes@.len());
                assert(self.paths@[self.kids(i)[m].1 as int].len() > 0);
                assert(reach(self.words@, e, 0, self.paths@[self.kids(i)[m].1 as int]));
            }
            assert forall|c: char|
                #![trigger self.path(p).push(c)]
                extendable(self@, self.path(p).push(c)) implies exists|k: int|
                    0 <= k < r@.len() && (#[trigger] r@[k]).0 == c by {
                assert(reach(self.words@, e, 0, self.paths@[i].push(c)));
                let m = choose|m: int| 0 <= m < self.kids(i).len() && #[trigger] self.kids(i)[m].0 == c;
                assert(r@[m].0 == c);
            }
        }
        r
    }

    /// Inserts `word`, sharing the nodes of its longest stored prefix.
    pub fn add(&mut self, word: &Vec<char>)
        requires
            old(self).wf(),
        ensures
            final(self).wf(),
            final(self)@ == old(self)@.insert(word@),
    {
        let ghost w = word@;
        let ghost ws = self.words@;
        let mut cur: usize = 0;
        let mut j: usize = 0;
        proof {
            let e = Seq::<char>::empty();
            assert forall|i: int, c: char|
                0 <= i < self.nodes@.len() && reach(ws, w, 0, #[trigger] self.paths@[i].push(c))
                    implies self.has_kid(i, c) by {
                assert(reach(ws, e, 0, self.paths@[i].push(c)));
            }
            assert forall|i: int|
                0 <= i < self.nodes@.len() implies reach(ws, w, 0, #[trigger] self.paths@[i])
                || i == 0 by {
                assert(reach(ws, e, 0, self.paths@[i]) || i == 0);
            }
            assert(w.subrange(0, 0) =~= Seq::<char>::empty());
        }
        while j < word.len()
            invariant
                self.words@ == ws,
                word@ == w,
                self.inv(w, j as int),
                j <= w.len(),
                cur < self.nodes@.len(),
                self.paths@[cur as int] == w.subrange(0, j as int),
            decreases w.len() - j,
        {
            let ch = word[j];
            let ghost pre = w.subrange(0, j as int);
            let ghost nxt = w.subrange(0, j + 1 as int);
            assert(nxt =~= pre.push(ch));
            match self.find_kid(cur, ch) {
                Some(k) => {
                    let nx = self.nodes[cur].children[k].1;
                    proof {
                        assert(self.kids(cur as int)[k as int].1 < self.nodes@.len());
                        assert forall|i: int, c: char|
                            0 <= i < self.nodes@.len() && reach(
                                ws,
                                w,
                                j + 1,
                                #[trigger] self.paths@[i].push(c),
                            ) implies self.has_kid(i, c) by {
                            if !reach(ws, w, j as int, self.paths@[i].push(c)) {
                                let s = self.paths@[i].push(c);
                                assert(s.len() == j + 1);
                                assert(s =~= nxt);
                                assert(s.drop_last() =~= self.paths@[i]);
                                assert(nxt.drop_last() =~= pre);
                                assert(self.paths@[i] == self.paths@[cur as int]);
                                assert(self.kids(cur as int)[k as int].0 == c);
                            }
                        }
                        assert forall|i: int|
                            0 <= i < self.nodes@.len() implies reach(
                                ws,
                                w,
                                j + 1,
                                #[trigger] self.paths@[i],
                            ) || i == 0 by {
                            assert(reach(ws, w, j as int, self.paths@[i]) || i == 0);
                        }
                    }
                    cur = nx;
                },
                None => {
                    let nx = self.nodes.len();
                    let ghost before = *self;
                    proof {
                        let ps = self.paths@;
                        assert(reach(ws, w, j as int, ps[cur as int].push(ch)) ==> self.has_kid(
                            cur as int,
                            ch,
                        ));
                        assert(!extendable(ws, nxt));
                        assert forall|i: int| 0 <= i < self.nodes@.len() implies ps[i] != nxt by {
                            if ps[i] == nxt {
                                assert(reach(ws, w, j as int, ps[i]) || i == 0);
                            }
                        }
                        if ws.contains(nxt) {
                            assert(nxt.subrange(0, nxt.len() as int) =~= nxt);
                        }
                    }
                    self.nodes.push(Node { children: Vec::new(), exact: false });
                    self.paths = Ghost(self.paths@.push(nxt));
                    self.nodes[cur].children.push((ch, nx));
                    proof {
                        let ps = self.paths@;
                        let n = self.nodes@.len();
                        assert(ps[nx as int] == nxt);
                        assert(self.kids(cur as int).last() == (ch, nx));
                        assert forall|i: int, k: int|
                            0 <= i < n && 0 <= k < self.kids(i).len() implies (#[trigger] self.kids(
                                i,
                            )[k]).1 < n && ps[self.kids(i)[k].1 as int] == ps[i].push(
                                self.kids(i)[k].0,
                            ) by {
                            if i == cur && k == self.kids(i).len() - 1 {
                            } else if i == cur {
                                assert(self.kids(i)[k] == before.kids(i)[k]);
                            } else if i < nx {
                                assert(self.kids(i) == before.kids(i));
                            }
                        }
                        assert forall|i: int, k1: int, k2: int|
                            #![trigger self.kids(i)[k1], self.kids(i)[k2]]
                            0 <= i < n && 0 <= k1 < self.kids(i).len() && 0 <= k2 < self.kids(
                                i,
                            ).len() && k1 != k2 implies self.kids(i)[k1].0 != self.kids(i)[k2].0 by {
                            if i == cur {
                                let last = self.kids(i).len() - 1;
                                if k1 == last {
                                    assert(self.kids(i)[k2] == before.kids(i)[k2]);
                                } else if k2 == last {
                                    assert(self.kids(i)[k1] == before.kids(i)[k1]);
                                } else {
                                    assert(self.kids(i)[k1] == before.kids(i)[k1]);
                                    assert(self.kids(i)[k2] == before.kids(i)[k2]);
                                }
                            } else if i < nx {
                                assert(self.kids(i) == before.kids(i));
                            }
                        }
                        assert forall|i: int, c: char|
                            0 <= i < n && reach(ws, w, j + 1, #[trigger] ps[i].push(c))
                                implies self.has_kid(i, c) by {
                            let s = ps[i].push(c);
                            if i == nx {
                                if extendable(ws, s) {
                                    lemma_extendable_shorter(ws, nxt, c);
                                } else {
                                    assert(s.len() == j + 2);
                                }
                            } else if !reach(ws, w, j as int, s) {
                                assert(s.len() == j + 1);
                                assert(s =~= nxt);
                                assert(s.drop_last() =~= ps[i]);
                                assert(nxt.drop_last() =~= pre);
                                assert(ps[i] == ps[cur as int]);
                                assert(s[j as int] == c);
                                assert(nxt[j as int] == ch);
                                assert(before.paths@[i] == before.paths@[cur as int]);
                                assert(i == cur);
                                let last = self.kids(cur as int).len() - 1;
                                assert(self.kids(cur as int)[last].0 == c);
                            } else {
                                assert(before.has_kid(i, c));
                                let m = choose|m: int|
                                    0 <= m < before.kids(i).len() && #[trigger] before.kids(
                                        i,
                                    )[m].0 == c;
                                if i == cur {
                                    assert(self.kids(i)[m] == before.kids(i)[m]);
                                } else {
                                    assert(self.kids(i) == before.kids(i));
                                }
                            }
                        }
                        assert forall|i: int| 0 < i < n implies (#[trigger] ps[i]).len() > 0 by {
                            if i < nx {
                                assert(ps[i] == before.paths@[i]);
                            }
                        }
                        assert forall|i: int|
                            0 <= i < n implies reach(ws, w, j + 1, #[trigger] ps[i]) || i == 0 by {
                            if i < nx {
                                assert(ps[i] == before.paths@[i]);
                                assert(reach(ws, w, j as int, before.paths@[i]) || i == 0);
                            } else {
                                assert(is_prefix(nxt, w));
                            }
                        }
                        assert forall|i: int, k: int|
                            #![trigger ps[i], ps[k]]
                            0 <= i < n && 0 <= k < n && ps[i] == ps[k] implies i == k by {
                            if i < nx && k < nx {
                                assert(before.paths@[i] == before.paths@[k]);
                            }
                        }
                        assert forall|i: int| 0 <= i < n implies (#[trigger] self.nodes@[i]).exact
                            == ws.contains(ps[i]) by {
                            if i < nx {
                                assert(before.nodes@[i].exact == ws.contains(
                                    before.paths@[i],
                                ));
                            }
                        }
                        assert(self.inv(w, j + 1));
                    }
                    cur = nx;
                },
            }
            j += 1;
        }
        let ghost before = *self;
        self.nodes[cur].exact = true;
        self.words = Ghost(ws.insert(w));
        proof {
            let ps = self.paths@;
            let n = self.nodes@.len();
            let nw = ws.insert(w);
            let e = Seq::<char>::empty();
            assert(w.subrange(0, w.len() as int) =~= w);
            assert forall|s: Seq<char>| #[trigger]
                extendable(nw, s) implies reach(ws, w, w.len() as int, s) by {
                let t = choose|t: Seq<char>| #[trigger] nw.contains(t) && is_prefix(s, t);
                if t != w {
                    assert(ws.contains(t));
                }
            }
            assert forall|s: Seq<char>| #[trigger]
                reach(ws, w, w.len() as int, s) implies extendable(nw, s) by {
                if !extendable(ws, s) {
                    assert(nw.contains(w));
                } else {
                    let t = choose|t: Seq<char>| #[trigger] ws.contains(t) && is_prefix(s, t);
                    assert(nw.contains(t));
                }
            }
            assert forall|i: int, k: int|
                0 <= i < n && 0 <= k < self.kids(i).len() implies (#[trigger] self.kids(i)[k]).1 < n
                && ps[self.kids(i)[k].1 as int] == ps[i].push(self.kids(i)[k].0) by {
                assert(self.kids(i) == before.kids(i));
            }
            assert forall|i: int, c: char|
                0 <= i < n && reach(nw, e, 0, #[trigger] ps[i].push(c)) implies self.has_kid(i, c) by {
                assert(extendable(nw, ps[i].push(c)));
                assert(reach(ws, w, w.len() as int, ps[i].push(c)));
                assert(before.has_kid(i, c));
                assert(self.kids(i) == before.kids(i));
            }
            assert forall|i: int| 0 <= i < n implies reach(nw, e, 0, #[trigger] ps[i]) || i == 0 by {
                if i != 0 {
                    assert(reach(ws, w, w.len() as int, ps[i]));
                }
            }
            assert forall|i: int| 0 <= i < n implies (#[trigger] self.nodes@[i]).exact == nw.contains(
                ps[i],
            ) by {
                if i != cur {
                    assert(ps[i] != ps[cur as int]);
                }
            }
        }
    }

    /// A trie holding exactly the words of `words` that have `len` symbols;
    /// the others are ignored.
    pub fn from_words(words: &Vec<Vec<char>>, len: usize) -> (r: TrieNode)
        ensures
            r.wf(),
            r@ == words_of_length(seqs_of(words@), len as nat),
    {
        let mut t = TrieNode::new();
        let mut k: usize = 0;
        while k < words.len()
            invariant
                k <= words@.len(),
                t.wf(),
                t@ == words_of_length(seqs_of(words@.subrange(0, k as int)), len as nat),
            decreases words@.len() - k,
        {
            let ghost before = t@;
            if words[k].len() == len {
                t.add(&words[k]);
            }
            proof {
                let a = seqs_of(words@.subrange(0, k as int));
                let b = seqs_of(words@.subrange(0, k + 1 as int));
                assert(b =~= a.push(words@[k as int]@));
                assert forall|s: Seq<char>| #[trigger] b.contains(s) <==> a.contains(s) || s
                    == words@[k as int]@ by {
                    if a.contains(s) {
                        let m = choose|m: int| 0 <= m < a.len() && a[m] == s;
                        assert(b[m] == s);
                    }
                    if s == words@[k as int]@ {
                        assert(b[k as int] == s);
                    }
                    if b.contains(s) {
                        let m = choose|m: int| 0 <= m < b.len() && b[m] == s;
                        if m < k {
                            assert(a[m] == s);
                        }
                    }
                }
                assert(t@ =~= words_of_length(b, len as nat));
            }
            k += 1;
        }
        assert(words@.subrange(0, words@.len() as int) =~= words@);
        t
    }

}

} // verus!
