use std::collections::BTreeSet;
use word_squares::dispatch::{first_symbols, solve, solve_from};
use word_squares::grid::Grid;
use word_squares::search::{is_symmetric, search, words_distinct, Options};
use word_squares::trie::{Class, TrieNode};

fn chars(s: &str) -> Vec<char> {
    s.chars().collect()
}

fn dict(words: &[&str]) -> Vec<Vec<char>> {
    words.iter().map(|w| chars(w)).collect()
}

fn rows_of(g: &Grid) -> Vec<String> {
    (0..g.h())
        .map(|i| (0..g.w()).map(|j| g.get(i, j)).collect())
        .collect()
}

fn as_set(found: &[Grid]) -> BTreeSet<Vec<String>> {
    found.iter().map(rows_of).collect()
}

fn opts(unique: bool, dedup: bool) -> Options {
    Options { unique, dedup }
}

/// Enumerates every choice of row words and keeps the grids whose columns
/// are words too.
fn brute_force(rows: &[&str], cols: &[&str], w: usize, h: usize, o: Options) -> BTreeSet<Vec<String>> {
    let rows: Vec<&str> = rows.iter().copied().filter(|r| r.len() == w).collect();
    let cols: BTreeSet<String> = cols.iter().filter(|c| c.len() == h).map(|c| c.to_string()).collect();
    let mut result = BTreeSet::new();
    let total = rows.len().pow(h as u32);
    for mut code in 0..total {
        let mut pick: Vec<String> = Vec::new();
        for _ in 0..h {
            pick.push(rows[code % rows.len()].to_string());
            code /= rows.len();
        }
        let grid: Vec<Vec<char>> = pick.iter().map(|r| r.chars().collect()).collect();
        let columns: Vec<String> = (0..w).map(|j| (0..h).map(|i| grid[i][j]).collect()).collect();
        if !columns.iter().all(|c| cols.contains(c)) {
            continue;
        }
        if o.unique && w == h && (0..h).all(|i| (0..w).all(|j| grid[i][j] == grid[j][i])) {
            continue;
        }
        if o.dedup {
            let all: Vec<&String> = pick.iter().chain(columns.iter()).collect();
            let distinct: BTreeSet<&String> = all.iter().copied().collect();
            if distinct.len() != all.len() {
                continue;
            }
        }
        result.insert(pick);
    }
    result
}

const SMALL: [&str; 10] = ["bit", "ice", "tea", "ace", "cat", "art", "are", "ear", "era", "tar"];

#[test]
fn trie_new_is_empty() {
    let t = TrieNode::new();
    assert!(t.children(t.root()).is_empty());
    assert!(!t.is_exact(t.root()));
    assert!(matches!(t.classify(t.root()), Class::Neither));
    assert!(t.get(t.root(), 'a').is_none());
}

#[test]
fn trie_add_and_descend() {
    let mut t = TrieNode::new();
    t.add(&chars("car"));
    t.add(&chars("cart"));
    t.add(&chars("cat"));
    let c = t.get(t.root(), 'c').unwrap();
    let ca = t.get(c, 'a').unwrap();
    assert!(t.get(c, 'x').is_none());
    let mut kids: Vec<char> = t.children(ca).iter().map(|k| k.0).collect();
    kids.sort();
    assert_eq!(kids, vec!['r', 't']);
    let car = t.get(ca, 'r').unwrap();
    assert!(matches!(t.classify(car), Class::Both));
    assert!(matches!(t.classify(ca), Class::PrefixOnly));
    let cat = t.get(ca, 't').unwrap();
    assert!(matches!(t.classify(cat), Class::ExactOnly));
    assert!(t.is_exact(cat));
    assert!(!t.has_children(cat));
    assert!(t.has_children(ca));
}

#[test]
fn trie_from_words_keeps_only_the_length() {
    let t = TrieNode::from_words(&dict(&["to", "toe", "tea", "tease"]), 3);
    let to = t.get(t.get(t.root(), 't').unwrap(), 'o').unwrap();
    assert!(!t.is_exact(to));
    assert!(t.is_exact(t.get(to, 'e').unwrap()));
    let te = t.get(t.get(t.root(), 't').unwrap(), 'e').unwrap();
    let tea = t.get(te, 'a').unwrap();
    assert!(t.is_exact(tea));
    assert!(t.get(tea, 's').is_none());
}

#[test]
fn trie_add_twice_is_harmless() {
    let mut t = TrieNode::new();
    t.add(&chars("ab"));
    t.add(&chars("ab"));
    let a = t.get(t.root(), 'a').unwrap();
    assert_eq!(t.children(t.root()).len(), 1);
    assert_eq!(t.children(a).len(), 1);
}

#[test]
fn grid_new_get_set() {
    let mut g = Grid::new('.', 3, 2);
    assert_eq!((g.w(), g.h()), (3, 2));
    assert_eq!(rows_of(&g), vec!["...", "..."]);
    g.set(1, 2, 'x');
    g.set(0, 0, 'y');
    assert_eq!(g.get(1, 2), 'x');
    assert_eq!(rows_of(&g), vec!["y..", "..x"]);
    let c = g.copy();
    assert_eq!(rows_of(&c), rows_of(&g));
}

#[test]
fn classic_three_by_three() {
    let words = dict(&["bit", "ice", "tea", "dog"]);
    let t = TrieNode::from_words(&words, 3);
    let found = solve(&t, &t, 3, 3, opts(false, false));
    assert_eq!(found.len(), 1);
    assert_eq!(rows_of(&found[0]), vec!["bit", "ice", "tea"]);
}

#[test]
fn every_emitted_row_and_column_is_a_word() {
    let words = dict(&SMALL);
    let t = TrieNode::from_words(&words, 3);
    let found = solve(&t, &t, 3, 3, opts(false, false));
    assert!(!found.is_empty());
    for g in &found {
        for i in 0..3 {
            let row: String = (0..3).map(|j| g.get(i, j)).collect();
            let col: String = (0..3).map(|j| g.get(j, i)).collect();
            assert!(SMALL.contains(&row.as_str()));
            assert!(SMALL.contains(&col.as_str()));
        }
    }
}

#[test]
fn matches_brute_force_square() {
    for &(u, d) in &[(false, false), (true, false), (false, true), (true, true)] {
        let t = TrieNode::from_words(&dict(&SMALL), 3);
        let found = solve(&t, &t, 3, 3, opts(u, d));
        let expected = brute_force(&SMALL, &SMALL, 3, 3, opts(u, d));
        assert_eq!(found.len(), expected.len());
        assert_eq!(as_set(&found), expected);
    }
}

#[test]
fn matches_brute_force_rectangle() {
    let rows = ["ab", "ba", "aa", "bb"];
    let cols = ["aab", "aba", "bba", "abb", "bab"];
    let rt = TrieNode::from_words(&dict(&rows), 2);
    let ct = TrieNode::from_words(&dict(&cols), 3);
    let found = solve(&rt, &ct, 2, 3, opts(false, false));
    let expected = brute_force(&rows, &cols, 2, 3, opts(false, false));
    assert_eq!(found.len(), expected.len());
    assert_eq!(as_set(&found), expected);
    assert!(!expected.is_empty());
}

#[test]
fn two_by_two_count() {
    // rows and columns from {ab, ba, aa}: three grids start with "aa",
    // two with "ab", two with "ba"
    let words = ["ab", "ba", "aa"];
    let t = TrieNode::from_words(&dict(&words), 2);
    let found = solve(&t, &t, 2, 2, opts(false, false));
    assert_eq!(as_set(&found), brute_force(&words, &words, 2, 2, opts(false, false)));
    assert_eq!(found.len(), 7);
}

#[test]
fn no_solution_is_not_an_error() {
    let t = TrieNode::from_words(&dict(&["abc", "def"]), 3);
    assert!(solve(&t, &t, 3, 3, opts(false, false)).is_empty());
    let empty = TrieNode::new();
    assert!(solve(&empty, &empty, 2, 2, opts(false, false)).is_empty());
}

#[test]
fn one_by_one() {
    let t = TrieNode::from_words(&dict(&["a", "b", "cd"]), 1);
    let found = solve(&t, &t, 1, 1, opts(false, false));
    assert_eq!(as_set(&found), [vec!["a".to_string()], vec!["b".to_string()]].into_iter().collect());
}

#[test]
fn dedup_rejects_repeated_words() {
    let t = TrieNode::from_words(&dict(&["bit", "ice", "tea"]), 3);
    assert_eq!(solve(&t, &t, 3, 3, opts(false, false)).len(), 1);
    assert!(solve(&t, &t, 3, 3, opts(false, true)).is_empty());
    let found = solve(&TrieNode::from_words(&dict(&SMALL), 3), &TrieNode::from_words(&dict(&SMALL), 3), 3, 3, opts(false, true));
    for g in &found {
        assert!(words_distinct(g));
    }
}

#[test]
fn dedup_allows_a_word_in_different_grids() {
    let t = TrieNode::from_words(&dict(&["ab", "cd", "ac", "bd", "ca", "db"]), 2);
    let found = as_set(&solve(&t, &t, 2, 2, opts(false, true)));
    let first = vec!["ab".to_string(), "cd".to_string()];
    let second = vec!["ca".to_string(), "db".to_string()];
    assert!(found.contains(&first));
    assert!(found.contains(&second));
}

#[test]
fn unique_drops_symmetric_grids() {
    let t = TrieNode::from_words(&dict(&["bit", "ice", "tea"]), 3);
    assert!(solve(&t, &t, 3, 3, opts(true, false)).is_empty());
    let t = TrieNode::from_words(&dict(&SMALL), 3);
    let all = solve(&t, &t, 3, 3, opts(false, false));
    let kept = solve(&t, &t, 3, 3, opts(true, false));
    let symmetric = all.iter().filter(|g| is_symmetric(g)).count();
    assert_eq!(kept.len(), all.len() - symmetric);
    for g in &kept {
        assert!(!is_symmetric(g));
    }
}

#[test]
fn unique_is_ignored_on_rectangles() {
    let rows = ["ab", "ba", "aa", "bb"];
    let cols = ["aab", "aba", "bba", "abb", "bab"];
    let rt = TrieNode::from_words(&dict(&rows), 2);
    let ct = TrieNode::from_words(&dict(&cols), 3);
    let a = solve(&rt, &ct, 2, 3, opts(false, false));
    let b = solve(&rt, &ct, 2, 3, opts(true, false));
    assert_eq!(as_set(&a), as_set(&b));
}

#[test]
fn fan_out_equals_single_search() {
    let t = TrieNode::from_words(&dict(&SMALL), 3);
    let whole = as_set(&solve(&t, &t, 3, 3, opts(false, false)));
    let mut split = BTreeSet::new();
    let mut total = 0;
    for ch in first_symbols(&t, &t) {
        let part = solve_from(&t, &t, 3, 3, ch, opts(false, false));
        total += part.len();
        for g in &part {
            assert_eq!(g.get(0, 0), ch);
        }
        split.extend(as_set(&part));
    }
    assert_eq!(split, whole);
    assert_eq!(total, whole.len());
}

#[test]
fn first_symbols_intersects_both_dictionaries() {
    let rt = TrieNode::from_words(&dict(&["ab", "cd", "ef"]), 2);
    let ct = TrieNode::from_words(&dict(&["ax", "ey", "gz"]), 2);
    let mut s = first_symbols(&rt, &ct);
    s.sort();
    assert_eq!(s, vec!['a', 'e']);
    let none = solve_from(&rt, &ct, 2, 2, 'c', opts(false, false));
    assert!(none.is_empty());
}

#[test]
fn search_restores_the_grid() {
    let t = TrieNode::from_words(&dict(&SMALL), 3);
    let mut grid = Grid::new('.', 3, 3);
    let mut v_pos = vec![t.root(); 3];
    let mut out = Vec::new();
    search(&t, &t, t.root(), &mut v_pos, &mut grid, 0, 0, opts(false, false), &mut out);
    assert!(!out.is_empty());
    assert_eq!(rows_of(&grid), vec!["...", "...", "..."]);
    assert!(v_pos.iter().all(|p| p.node == t.root().node));
}

#[test]
fn words_distinct_and_symmetric_on_fixed_grids() {
    let mut g = Grid::new('.', 2, 2);
    for (i, j, v) in [(0, 0, 'a'), (0, 1, 'b'), (1, 0, 'b'), (1, 1, 'a')] {
        g.set(i, j, v);
    }
    assert!(is_symmetric(&g));
    assert!(!words_distinct(&g));
    g.set(1, 0, 'c');
    assert!(!is_symmetric(&g));
    assert!(words_distinct(&g));
}

#[test]
fn render_lists_rows_with_spaces() {
    let mut g = Grid::new('.', 2, 2);
    g.set(0, 0, 'a');
    g.set(0, 1, 'b');
    g.set(1, 0, 'c');
    g.set(1, 1, 'd');
    assert_eq!(g.render(), "a b \nc d \n");
    assert_eq!(Grid::new('x', 3, 1).render(), "x x x \n");
}
