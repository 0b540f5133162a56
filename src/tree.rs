//! The Huffman tree: its nodes, the codewords read off its paths, and the
//! greedy construction from symbol counts.

use vstd::prelude::*;
use vstd::string::StringExecFns;
use crate::codec::{
    chars_of, find_entry, insert_all, insert_entry, is_code_for, keys_unique, lemma_insert_all,
    lemma_insert_all_append, lemma_insert_all_empty, lemma_lookup, lookup, prefix_free, table_get, table_of,
};
use crate::HuffmanError;

verus! {

/// A tree node. A leaf carries a symbol (`ch`) and its count; an internal
/// node carries the sum of its children's counts. The left branch is read as
/// `'1'`, the right one as `'0'`.
pub struct Node {
    pub freq: usize,
    pub ch: Option<char>,
    pub left: Option<Box<Node>>,
    pub right: Option<Box<Node>>,
}

impl Node {
    /// A node without children.
    pub fn new(freq: usize, ch: Option<char>) -> (r: Node)
        ensures
            r == (Node { freq, ch, left: None, right: None }),
    {
        Node { freq, ch, left: None, right: None }
    }

    /// The (symbol, codeword) entries of the leaves below this node, left
    /// subtree first, when the path to this node is `path`.
    pub open spec fn codes_from(self, path: Seq<char>) -> Seq<(char, Seq<char>)>
        decreases self,
    {
        match self.ch {
            Some(c) => seq![(c, path)],
            None => (match self.left {
                Some(l) => l.codes_from(path.push('1')),
                None => Seq::empty(),
            }) + (match self.right {
                Some(r) => r.codes_from(path.push('0')),
                None => Seq::empty(),
            }),
        }
    }

    /// The symbols of the leaves below this node.
    pub open spec fn keys(self) -> Set<char>
        decreases self,
    {
        match self.ch {
            Some(c) => set![c],
            None => (match self.left {
                Some(l) => l.keys(),
                None => Set::empty(),
            }).union(match self.right {
                Some(r) => r.keys(),
                None => Set::empty(),
            }),
        }
    }

    /// A leaf has no children; an internal node has two, and its count is
    /// theirs added; no symbol stands at two leaves.
    pub open spec fn wf(self) -> bool
        decreases self,
    {
        match self.ch {
            Some(_) => self.left is None && self.right is None,
            None => match (self.left, self.right) {
                (Some(l), Some(r)) => l.wf() && r.wf() && self.freq == l.freq + r.freq
                    && l.keys().disjoint(r.keys()),
                _ => false,
            },
        }
    }

    /// Every leaf carries the number of times its symbol occurs in `s`.
    pub open spec fn counts_ok(self, s: Seq<char>) -> bool
        decreases self,
    {
        match self.ch {
            Some(c) => self.freq == count(s, c),
            None => (match self.left {
                Some(l) => l.counts_ok(s),
                None => true,
            }) && (match self.right {
                Some(r) => r.counts_ok(s),
                None => true,
            }),
        }
    }

    /// The root of a single-symbol tree: one leaf, hung on the right.
    pub open spec fn is_single_root(self) -> bool {
        &&& self.ch is None
        &&& self.left is None
        &&& self.right matches Some(r) && r.ch is Some && r.left is None && r.right is None
            && self.freq == r.freq
    }

    /// What the entries below a node say of their symbols and codewords.
    pub proof fn lemma_codes(self, path: Seq<char>)
        ensures
            forall|k: int| 0 <= k < self.codes_from(path).len() ==> {
                let e = #[trigger] self.codes_from(path)[k];
                &&& self.keys().contains(e.0)
                &&& path.is_prefix_of(e.1)
                &&& (self.ch is None ==> e.1.len() > path.len())
                &&& forall|m: int| path.len() <= m < e.1.len() ==> (e.1[m] == '0' || e.1[m] == '1')
            },
            forall|c: char| self.keys().contains(c) ==> exists|k: int|
                0 <= k < self.codes_from(path).len() && (#[trigger] self.codes_from(path)[k]).0 == c,
            self.wf() ==> keys_unique(self.codes_from(path)),
            prefix_free(self.codes_from(path)),
        decreases self,
    {
        if self.ch is None {
            let pl = path.push('1');
            let pr = path.push('0');
            let a = match self.left { Some(l) => l.codes_from(pl), None => Seq::empty() };
            let b = match self.right { Some(r) => r.codes_from(pr), None => Seq::empty() };
            let ka = match self.left { Some(l) => l.keys(), None => Set::empty() };
            let kb = match self.right { Some(r) => r.keys(), None => Set::empty() };
            if let Some(l) = self.left {
                l.lemma_codes(pl);
            }
            if let Some(r) = self.right {
                r.lemma_codes(pr);
            }
            let t = a + b;
            assert(self.codes_from(path) == t);
            assert forall|k: int| 0 <= k < t.len() implies {
                let e = #[trigger] t[k];
                &&& self.keys().contains(e.0)
                &&& path.is_prefix_of(e.1)
                &&& e.1.len() > path.len()
                &&& (k < a.len() ==> e.1[path.len() as int] == '1')
                &&& (k >= a.len() ==> e.1[path.len() as int] == '0')
                &&& forall|m: int| path.len() <= m < e.1.len() ==> (e.1[m] == '0' || e.1[m] == '1')
            } by {
                if k < a.len() {
                    assert(t[k] == a[k]);
                    assert(pl.is_prefix_of(a[k].1));
                    assert(pl[path.len() as int] == a[k].1[path.len() as int]);
                    assert(path =~= a[k].1.subrange(0, path.len() as int)) by {
                        assert(a[k].1.subrange(0, path.len() as int) =~= a[k].1.subrange(0, pl.len() as int).subrange(0, path.len() as int));
                    }
                } else {
                    assert(t[k] == b[k - a.len()]);
                    assert(pr.is_prefix_of(b[k - a.len()].1));
                    assert(pr[path.len() as int] == b[k - a.len()].1[path.len() as int]);
                    assert(path =~= b[k - a.len()].1.subrange(0, path.len() as int)) by {
                        assert(b[k - a.len()].1.subrange(0, path.len() as int) =~= b[k - a.len()].1.subrange(0, pr.len() as int).subrange(0, path.len() as int));
                    }
                }
            }
            assert forall|c: char| self.keys().contains(c) implies exists|k: int|
                0 <= k < t.len() && (#[trigger] t[k]).0 == c by {
                if ka.contains(c) {
                    let k = choose|k: int| 0 <= k < a.len() && (#[trigger] a[k]).0 == c;
                    assert(t[k] == a[k]);
                } else {
                    let k = choose|k: int| 0 <= k < b.len() && (#[trigger] b[k]).0 == c;
                    assert(t[k + a.len()] == b[k]);
                }
            }
            if self.wf() {
                assert forall|i: int, j: int| 0 <= i < t.len() && 0 <= j < t.len() && i != j
                    implies (#[trigger] t[i]).0 != (#[trigger] t[j]).0 by {
                    if i < a.len() && j >= a.len() {
                        assert(t[i] == a[i] && t[j] == b[j - a.len()]);
                    } else if i >= a.len() && j < a.len() {
                        assert(t[j] == a[j] && t[i] == b[i - a.len()]);
                    } else if i < a.len() {
                        assert(t[i] == a[i] && t[j] == a[j]);
                    } else {
                        assert(t[i] == b[i - a.len()] && t[j] == b[j - a.len()]);
                    }
                }
            }
            assert forall|i: int, j: int| 0 <= i < t.len() && 0 <= j < t.len() && i != j
                implies !(#[trigger] t[i]).1.is_prefix_of((#[trigger] t[j]).1) by {
                if (i < a.len()) != (j < a.len()) {
                    let n = path.len() as int;
                    if t[i].1.is_prefix_of(t[j].1) {
                        assert(t[i].1[n] == t[j].1.subrange(0, t[i].1.len() as int)[n]);
                    }
                } else if i < a.len() {
                    assert(t[i] == a[i] && t[j] == a[j]);
                } else {
                    assert(t[i] == b[i - a.len()] && t[j] == b[j - a.len()]);
                }
            }
        } else {
            assert(self.codes_from(path)[0].0 == self.ch.unwrap());
            assert(path.is_prefix_of(path)) by {
                assert(path =~= path.subrange(0, path.len() as int));
            }
        }
    }
}

/// Number of occurrences of `c` in `s`.
pub open spec fn count(s: Seq<char>, c: char) -> nat
    decreases s.len(),
{
    if s.len() == 0 {
        0
    } else {
        count(s.drop_last(), c) + if s.last() == c { 1nat } else { 0nat }
    }
}

/// `path` followed by one more character.
fn extend(path: &String, c: &str) -> (r: String)
    ensures
        r@ == path@ + c@,
{
    let mut r = path.clone();
    r.append(c);
    r
}

impl HuffmanTree {
    /// Records in `map` the codeword of each leaf below `node`, whose path
    /// from the root is `s`: a symbol already in `map` has its codeword
    /// replaced, a new one is added at the end.
    pub fn assign_codes(node: &Node, map: &mut Vec<(char, String)>, s: String)
        ensures
            table_of(final(map)@) == insert_all(table_of(old(map)@), node.codes_from(s@)),
            forall|c: char|
                !node.keys().contains(c) ==> #[trigger] table_get(table_of(final(map)@), c) == table_get(
                    table_of(old(map)@),
                    c,
                ),
            keys_unique(node.codes_from(s@)) ==> forall|c: char|
                node.keys().contains(c) ==> #[trigger] table_get(table_of(final(map)@), c) == table_get(
                    node.codes_from(s@),
                    c,
                ),
            keys_unique(table_of(old(map)@)) ==> keys_unique(table_of(final(map)@)),
        decreases node,
    {
        let ghost t0 = table_of(map@);
        if let Some(ch) = node.ch {
            let ghost before = map@;
            match find_entry(map, ch) {
                Some(i) => {
                    proof {
                        lemma_lookup(t0, ch);
                    }
                    map.set(i, (ch, s));
                    proof {
                        assert(table_of(map@) =~= t0.update(i as int, (ch, s@)));
                    }
                },
                None => {
                    map.push((ch, s));
                    assert(table_of(map@) =~= t0.push((ch, s@)));
                },
            }
            proof {
                let es = node.codes_from(s@);
                assert(es == seq![(ch, s@)]);
                assert(es.drop_last() =~= Seq::<(char, Seq<char>)>::empty());
                assert(insert_all(t0, es.drop_last()) == t0);
                assert(es.last() == (ch, s@));
                assert(insert_all(t0, es) == insert_entry(t0, (ch, s@)));
            }
        } else {
            proof {
                reveal_strlit("1");
                reveal_strlit("0");
            }
            if let Some(left) = &node.left {
                let p = extend(&s, "1");
                assert(p@ =~= s@.push('1'));
                HuffmanTree::assign_codes(left, map, p);
            }
            let ghost t1 = table_of(map@);
            if let Some(right) = &node.right {
                let p = extend(&s, "0");
                assert(p@ =~= s@.push('0'));
                HuffmanTree::assign_codes(right, map, p);
            }
            let ghost a = match &node.left { Some(l) => l.codes_from(s@.push('1')), None => Seq::empty() };
            let ghost b = match &node.right { Some(r) => r.codes_from(s@.push('0')), None => Seq::empty() };
            proof {
                assert(node.codes_from(s@) == a + b);
                lemma_insert_all_append(t0, a, b);
                if node.left is None {
                    assert(t1 == t0);
                }
                if node.right is None {
                    assert(insert_all(t1, b) == t1);
                }
            }
        }
        proof {
            let es = node.codes_from(s@);
            lemma_insert_all(t0, es);
            node.lemma_codes(s@);
            if keys_unique(es) {
                assert forall|c: char| node.keys().contains(c) implies #[trigger] table_get(table_of(map@), c)
                    == table_get(es, c) by {
                    let k = choose|k: int| 0 <= k < es.len() && (#[trigger] es[k]).0 == c;
                    lemma_lookup(es, c);
                    assert(table_get(table_of(map@), es[k].0) == Some(es[k].1));
                }
            }
        }
    }
}

/// The counts of a frequency table added up.
pub open spec fn sum_counts(f: Seq<(char, usize)>) -> int
    decreases f.len(),
{
    if f.len() == 0 {
        0
    } else {
        sum_counts(f.drop_last()) + f.last().1
    }
}

/// `f` counts the symbols of `s`: one entry per distinct symbol, each with
/// its number of occurrences.
pub open spec fn is_frequency_table(f: Seq<(char, usize)>, s: Seq<char>) -> bool {
    &&& forall|i: int, j: int|
        0 <= i < f.len() && 0 <= j < f.len() && i != j ==> (#[trigger] f[i]).0 != (#[trigger] f[j]).0
    &&& forall|k: int| 0 <= k < f.len() ==> (#[trigger] f[k]).1 == count(s, f[k].0) && f[k].1 >= 1
        && s.contains(f[k].0)
    &&& forall|i: int| 0 <= i < s.len() ==> has_key(f, #[trigger] s[i])
}

/// Position of the first entry of `f` for `c`.
pub open spec fn key_index(f: Seq<(char, usize)>, c: char) -> Option<int>
    decreases f.len(),
{
    if f.len() == 0 {
        None
    } else {
        match key_index(f.drop_last(), c) {
            Some(i) => Some(i),
            None => if f.last().0 == c { Some(f.len() - 1) } else { None },
        }
    }
}

/// The frequency table of `s`: its distinct symbols in order of first
/// occurrence, each with its count.
pub open spec fn freq_table(s: Seq<char>) -> Seq<(char, usize)>
    decreases s.len(),
{
    if s.len() == 0 {
        Seq::empty()
    } else {
        let f = freq_table(s.drop_last());
        let c = s.last();
        match key_index(f, c) {
            Some(k) => f.update(k, (c, (f[k].1 + 1) as usize)),
            None => f.push((c, 1usize)),
        }
    }
}

proof fn lemma_key_index(f: Seq<(char, usize)>, c: char)
    ensures
        match key_index(f, c) {
            Some(i) => 0 <= i < f.len() && f[i].0 == c && forall|j: int| 0 <= j < i ==> (#[trigger] f[j]).0 != c,
            None => forall|j: int| 0 <= j < f.len() ==> (#[trigger] f[j]).0 != c,
        },
    decreases f.len(),
{
    if f.len() > 0 {
        lemma_key_index(f.drop_last(), c);
        assert(forall|j: int| 0 <= j < f.len() - 1 ==> f.drop_last()[j] == f[j]);
    }
}

/// Some entry of `f` is for `c`.
pub open spec fn has_key(f: Seq<(char, usize)>, c: char) -> bool {
    exists|k: int| 0 <= k < f.len() && (#[trigger] f[k]).0 == c
}

proof fn lemma_sum_update(f: Seq<(char, usize)>, j: int, x: (char, usize))
    requires
        0 <= j < f.len(),
    ensures
        sum_counts(f.update(j, x)) == sum_counts(f) - f[j].1 + x.1,
        f[j].1 <= sum_counts(f),
    decreases f.len(),
{
    if j < f.len() - 1 {
        assert(f.update(j, x).drop_last() =~= f.drop_last().update(j, x));
        lemma_sum_update(f.drop_last(), j, x);
    } else {
        assert(f.update(j, x).drop_last() =~= f.drop_last());
    }
    lemma_sum_nonneg(f.drop_last());
}

proof fn lemma_sum_nonneg(f: Seq<(char, usize)>)
    ensures
        sum_counts(f) >= 0,
    decreases f.len(),
{
    if f.len() > 0 {
        lemma_sum_nonneg(f.drop_last());
    }
}

impl HuffmanTree {
    /// Counts the occurrences of each symbol of `s`, in the order in which the
    /// symbols first occur.
    pub fn frequency(s: &str) -> (r: Vec<(char, usize)>)
        ensures
            r@ == freq_table(s@),
            is_frequency_table(r@, s@),
            sum_counts(r@) == s@.len(),
            s@.len() <= usize::MAX,
    {
        let cs = chars_of(s);
        let mut r: Vec<(char, usize)> = Vec::new();
        let mut i: usize = 0;
        while i < cs.len()
            invariant
                cs@ == s@,
                i <= cs@.len(),
                is_frequency_table(r@, cs@.take(i as int)),
                r@ == freq_table(cs@.take(i as int)),
                sum_counts(r@) == i,
            decreases cs@.len() - i,
        {
            let c = cs[i];
            let ghost pre = cs@.take(i as int);
            let ghost post = cs@.take(i + 1);
            assert(post.drop_last() =~= pre);
            assert(forall|d: char| #[trigger] count(post, d) == count(pre, d) + if d == c { 1nat } else { 0nat });
            assert(forall|j: int| 0 <= j < i ==> pre[j] == #[trigger] post[j]);
            assert(post[i as int] == c);
            let mut k: usize = 0;
            while k < r.len() && r[k].0 != c
                invariant
                    k <= r@.len(),
                    forall|j: int| 0 <= j < k ==> (#[trigger] r@[j]).0 != c,
                decreases r@.len() - k,
            {
                k = k + 1;
            }
            let ghost old_r = r@;
            proof {
                lemma_key_index(r@, c);
                if k < r@.len() {
                    assert(key_index(r@, c) == Some(k as int));
                } else {
                    assert(key_index(r@, c) is None);
                }
                assert(post.last() == c);
            }
            if k < r.len() {
                proof {
                    lemma_sum_update(r@, k as int, (c, 0));
                }
                let n = r[k].1 + 1;
                proof {
                    lemma_sum_update(r@, k as int, (c, n));
                }
                r.set(k, (c, n));
            } else {
                r.push((c, 1));
                assert(r@.drop_last() =~= old_r);
                assert(count(pre, c) == 0) by {
                    lemma_count_absent(pre, c);
                }
            }
            proof {
                // Either way the entry at `k` is for `c`, and the others are unchanged.
                assert(k < r@.len() && r@[k as int].0 == c);
                assert(forall|m: int| 0 <= m < old_r.len() && m != k ==> #[trigger] r@[m] == old_r[m]);
                assert forall|j: int| 0 <= j < i + 1 implies has_key(r@, post[j]) by {
                    if j < i {
                        assert(has_key(old_r, pre[j]));
                        let m = choose|m: int| 0 <= m < old_r.len() && (#[trigger] old_r[m]).0 == pre[j];
                        assert(r@[m].0 == post[j]);
                    } else {
                        assert(r@[k as int].0 == post[j]);
                    }
                }
                assert forall|m: int| 0 <= m < r@.len() implies post.contains(#[trigger] r@[m].0) by {
                    if m != k {
                        let w = choose|w: int| 0 <= w < pre.len() && pre[w] == old_r[m].0;
                        assert(post[w] == pre[w]);
                    } else {
                        assert(post[i as int] == c);
                    }
                }
            }
            i = i + 1;
        }
        assert(cs@.take(i as int) =~= s@);
        r
    }
}

/// A symbol that does not occur has count zero.
proof fn lemma_count_absent(s: Seq<char>, c: char)
    requires
        forall|i: int| 0 <= i < s.len() ==> s[i] != c,
    ensures
        count(s, c) == 0,
    decreases s.len(),
{
    if s.len() > 0 {
        lemma_count_absent(s.drop_last(), c);
    }
}

/// The counts of a forest's roots added up.
pub open spec fn total(ns: Seq<Node>) -> int
    decreases ns.len(),
{
    if ns.len() == 0 {
        0
    } else {
        total(ns.drop_last()) + ns.last().freq
    }
}

/// The symbols at the leaves of a forest.
pub open spec fn forest_keys(ns: Seq<Node>) -> Set<char>
    decreases ns.len(),
{
    if ns.len() == 0 {
        Set::empty()
    } else {
        forest_keys(ns.drop_last()).union(ns.last().keys())
    }
}

/// Every tree of the forest is well formed with the counts of `s`, and no
/// symbol stands in two of them.
pub open spec fn forest_ok(ns: Seq<Node>, s: Seq<char>) -> bool {
    &&& forall|k: int| 0 <= k < ns.len() ==> (#[trigger] ns[k]).wf() && ns[k].counts_ok(s)
    &&& forall|k1: int, k2: int|
        0 <= k1 < ns.len() && 0 <= k2 < ns.len() && k1 != k2 ==> (#[trigger] ns[k1]).keys().disjoint(
            (#[trigger] ns[k2]).keys(),
        )
}

proof fn lemma_forest_remove(ns: Seq<Node>, i: int, s: Seq<char>)
    requires
        0 <= i < ns.len(),
    ensures
        total(ns.remove(i)) == total(ns) - ns[i].freq,
        0 <= ns[i].freq <= total(ns),
        forest_keys(ns.remove(i)).union(ns[i].keys()) == forest_keys(ns),
        forest_ok(ns, s) ==> forest_ok(ns.remove(i), s) && ns[i].wf() && ns[i].counts_ok(s)
            && forall|k: int| 0 <= k < ns.len() - 1 ==> (#[trigger] ns.remove(i)[k]).keys().disjoint(ns[i].keys()),
    decreases ns.len(),
{
    let r = ns.remove(i);
    assert(forall|k: int| 0 <= k < i ==> #[trigger] r[k] == ns[k]);
    assert(forall|k: int| i <= k < ns.len() - 1 ==> #[trigger] r[k] == ns[k + 1]);
    lemma_total_nonneg(ns.drop_last());
    if i == ns.len() - 1 {
        assert(r =~= ns.drop_last());
    } else {
        assert(r.drop_last() =~= ns.drop_last().remove(i));
        lemma_forest_remove(ns.drop_last(), i, s);
        assert(forest_keys(r) =~= forest_keys(ns.drop_last().remove(i)).union(ns.last().keys()));
        assert(forest_keys(r).union(ns[i].keys()) =~= forest_keys(ns));
    }
    if forest_ok(ns, s) {
        assert forall|k1: int, k2: int|
            0 <= k1 < r.len() && 0 <= k2 < r.len() && k1 != k2 implies (#[trigger] r[k1]).keys().disjoint(
                (#[trigger] r[k2]).keys()) by {
            let o1 = if k1 < i { k1 } else { k1 + 1 };
            let o2 = if k2 < i { k2 } else { k2 + 1 };
            assert(r[k1] == ns[o1] && r[k2] == ns[o2]);
        }
        assert forall|k: int| 0 <= k < ns.len() - 1 implies (#[trigger] r[k]).keys().disjoint(ns[i].keys()) by {
            let o = if k < i { k } else { k + 1 };
            assert(r[k] == ns[o]);
        }
    }
}

proof fn lemma_total_nonneg(ns: Seq<Node>)
    ensures
        total(ns) >= 0,
    decreases ns.len(),
{
    if ns.len() > 0 {
        lemma_total_nonneg(ns.drop_last());
    }
}

/// `i` is the first position of a root with the smallest count.
pub open spec fn is_min_pos(ns: Seq<Node>, i: int) -> bool {
    &&& 0 <= i < ns.len()
    &&& forall|k: int| 0 <= k < ns.len() ==> ns[i].freq <= (#[trigger] ns[k]).freq
    &&& forall|k: int| 0 <= k < i ==> ns[i].freq < (#[trigger] ns[k]).freq
}

/// The first position of a root with the smallest count.
pub open spec fn min_pos(ns: Seq<Node>) -> int {
    choose|i: int| is_min_pos(ns, i)
}

proof fn lemma_min_pos(ns: Seq<Node>, i: int)
    requires
        is_min_pos(ns, i),
    ensures
        min_pos(ns) == i,
{
    let m = min_pos(ns);
    assert(is_min_pos(ns, m));
    if m < i {
        assert(ns[i].freq < ns[m].freq);
    } else if m > i {
        assert(ns[m].freq < ns[i].freq);
    }
}

/// One greedy step: the first root with the smallest count and then, of
/// the rest, the first with the smallest count are joined, in that order,
/// under a new root put at the end.
pub open spec fn merge_step(ns: Seq<Node>) -> Seq<Node> {
    let i = min_pos(ns);
    let a = ns[i];
    let n1 = ns.remove(i);
    let j = min_pos(n1);
    let b = n1[j];
    n1.remove(j).push(
        Node { freq: (a.freq + b.freq) as usize, ch: None, left: Some(Box::new(a)), right: Some(Box::new(b)) },
    )
}

/// `steps` greedy steps from the forest `ns`.
pub open spec fn merge_all(ns: Seq<Node>, steps: nat) -> Seq<Node>
    decreases steps,
{
    if steps == 0 {
        ns
    } else {
        merge_all(merge_step(ns), (steps - 1) as nat)
    }
}

/// One leaf per entry of a frequency table, in order.
pub open spec fn leaves_of(f: Seq<(char, usize)>) -> Seq<Node> {
    f.map_values(|e: (char, usize)| Node { freq: e.1, ch: Some(e.0), left: None, right: None })
}

/// The root that the construction gives for the input `s`: greedy steps
/// from the leaves of its frequency table until one root is left, or a
/// single leaf hung on the right of the root.
pub open spec fn huffman_root(s: Seq<char>) -> Node {
    let ls = leaves_of(freq_table(s));
    if ls.len() == 1 {
        Node { freq: ls[0].freq, ch: None, left: None, right: Some(Box::new(ls[0])) }
    } else {
        merge_all(ls, (ls.len() - 1) as nat)[0]
    }
}

/// The first position of a root with the smallest count.
fn min_index(nodes: &Vec<Node>) -> (r: usize)
    requires
        nodes@.len() > 0,
    ensures
        is_min_pos(nodes@, r as int),
{
    let mut best: usize = 0;
    let mut k: usize = 1;
    while k < nodes.len()
        invariant
            1 <= k <= nodes@.len(),
            best < k,
            forall|j: int| 0 <= j < k ==> nodes@[best as int].freq <= (#[trigger] nodes@[j]).freq,
            forall|j: int| 0 <= j < best ==> nodes@[best as int].freq < (#[trigger] nodes@[j]).freq,
        decreases nodes@.len() - k,
    {
        if nodes[k].freq < nodes[best].freq {
            best = k;
        }
        k = k + 1;
    }
    best
}

/// A Huffman tree together with the codebook read off its paths.
pub struct HuffmanTree {
    root: Box<Node>,
    codes: Vec<(char, String)>,
}

impl HuffmanTree {
    /// The root node.
    pub closed spec fn spec_root(self) -> Node {
        *self.root
    }

    /// The codebook.
    pub closed spec fn spec_codes(self) -> Seq<(char, String)> {
        self.codes@
    }

    /// The tree was built from the non-empty sequence `s`: its leaves are
    /// the distinct symbols of `s` with their counts, every internal node
    /// has two children and the sum of their counts (but for a single
    /// symbol, hung alone under the root), and the codebook is read off its
    /// paths.
    pub open spec fn built_from(self, s: Seq<char>) -> bool {
        let root = self.spec_root();
        &&& s.len() > 0
        &&& root.ch is None
        &&& root.wf() || root.is_single_root()
        &&& root.counts_ok(s)
        &&& forall|c: char| root.keys().contains(c) == s.contains(c)
        &&& table_of(self.spec_codes()) == root.codes_from(Seq::empty())
    }

    /// The root node.
    pub fn root(&self) -> (r: &Node)
        ensures
            *r == self.spec_root(),
    {
        &self.root
    }

    /// The codebook: for each symbol, its codeword.
    pub fn codes(&self) -> (r: &Vec<(char, String)>)
        ensures
            r@ == self.spec_codes(),
    {
        &self.codes
    }

    /// The codebook of a tree built from `s` is a prefix-free code for the
    /// symbols of `s`.
    pub proof fn lemma_code_for(self, s: Seq<char>)
        requires
            self.built_from(s),
        ensures
            is_code_for(table_of(self.spec_codes()), s),
            self.spec_root().is_single_root() ==> table_of(self.spec_codes()).len() == 1
                && table_of(self.spec_codes())[0].1.len() == 1,
    {
        let root = self.spec_root();
        let t = table_of(self.spec_codes());
        let e = Seq::<char>::empty();
        root.lemma_codes(e);
        if root.is_single_root() {
            let leaf = *root.right.unwrap();
            assert(root.codes_from(e) == Seq::<(char, Seq<char>)>::empty() + leaf.codes_from(e.push('0')));
            assert(leaf.codes_from(e.push('0')) == seq![(leaf.ch.unwrap(), e.push('0'))]);
            assert(t =~= seq![(leaf.ch.unwrap(), e.push('0'))]);
        }
        assert forall|c: char| s.contains(c) <==> #[trigger] lookup(t, c) is Some by {
            lemma_lookup(t, c);
        }
    }

    /// Builds the tree for `pattern` and reads its codebook off it.
    ///
    /// Starting from one leaf per distinct symbol (in order of first
    /// occurrence), the two roots with the smallest counts are taken out
    /// and joined under a new root, which is put at the end; among roots
    /// with equal counts the one that stands first is taken. The first one
    /// taken becomes the left child. A single distinct symbol is hung as the
    /// right child of the root, so that its codeword is one bit.
    pub fn generate(pattern: &str) -> (r: Result<HuffmanTree, HuffmanError>)
        ensures
            match r {
                Ok(tree) => tree.built_from(pattern@) && tree.spec_root() == huffman_root(pattern@)
                    && is_code_for(table_of(tree.spec_codes()), pattern@)
                    && ((forall|i: int, j: int| 0 <= i < pattern@.len() && 0 <= j < pattern@.len()
                        ==> pattern@[i] == pattern@[j]) ==> table_of(tree.spec_codes()).len() == 1
                        && table_of(tree.spec_codes())[0].1.len() == 1),
                Err(e) => e == HuffmanError::PreconditionError && pattern@.len() == 0,
            },
            pattern@.len() == 0 ==> r is Err,
    {
        let ghost s = pattern@;
        let freqs = HuffmanTree::frequency(pattern);
        if freqs.len() == 0 {
            proof {
                if s.len() > 0 {
                    assert(has_key(freqs@, s[0]));
                }
            }
            return Err(HuffmanError::PreconditionError);
        }
        let mut nodes: Vec<Node> = Vec::new();
        let mut k: usize = 0;
        while k < freqs.len()
            invariant
                is_frequency_table(freqs@, s),
                sum_counts(freqs@) == s.len(),
                s.len() <= usize::MAX,
                k <= freqs@.len(),
                nodes@.len() == k,
                forall|j: int| 0 <= j < k ==> #[trigger] nodes@[j] == (Node {
                    freq: freqs@[j].1,
                    ch: Some(freqs@[j].0),
                    left: None,
                    right: None,
                }),
                total(nodes@) == sum_counts(freqs@.take(k as int)),
                forall|c: char| #[trigger] forest_keys(nodes@).contains(c) == has_key(freqs@.take(k as int), c),
                forest_ok(nodes@, s),
            decreases freqs@.len() - k,
        {
            let ghost old_nodes = nodes@;
            let leaf = Node::new(freqs[k].1, Some(freqs[k].0));
            nodes.push(leaf);
            proof {
                let f = freqs@;
                assert(nodes@.drop_last() =~= old_nodes);
                assert(f.take(k + 1).drop_last() =~= f.take(k as int));
                assert(leaf.keys() =~= set![f[k as int].0]);
                assert(forest_keys(nodes@) == forest_keys(old_nodes).union(leaf.keys()));
                assert forall|c: char| #[trigger] forest_keys(nodes@).contains(c) == has_key(f.take(k + 1), c) by {
                    if has_key(f.take(k + 1), c) && c != f[k as int].0 {
                        let m = choose|m: int| 0 <= m < f.take(k + 1).len() && (#[trigger] f.take(k + 1)[m]).0 == c;
                        assert(f.take(k as int)[m].0 == c);
                    }
                    if has_key(f.take(k as int), c) {
                        let m = choose|m: int| 0 <= m < f.take(k as int).len() && (#[trigger] f.take(k as int)[m]).0 == c;
                        assert(f.take(k + 1)[m].0 == c);
                    }
                    if c == f[k as int].0 {
                        assert(f.take(k + 1)[k as int].0 == c);
                    }
                }
                assert forall|k1: int, k2: int|
                    0 <= k1 < nodes@.len() && 0 <= k2 < nodes@.len() && k1 != k2 implies
                    (#[trigger] nodes@[k1]).keys().disjoint((#[trigger] nodes@[k2]).keys()) by {
                    assert(nodes@[k1].keys() =~= set![f[k1].0]);
                    assert(nodes@[k2].keys() =~= set![f[k2].0]);
                }
            }
            k = k + 1;
        }
        proof {
            assert(freqs@.take(k as int) =~= freqs@);
            assert forall|c: char| #[trigger] forest_keys(nodes@).contains(c) == s.contains(c) by {
                if s.contains(c) {
                    let w = choose|w: int| 0 <= w < s.len() && s[w] == c;
                    assert(has_key(freqs@, s[w]));
                }
                if has_key(freqs@, c) {
                    let m = choose|m: int| 0 <= m < freqs@.len() && (#[trigger] freqs@[m]).0 == c;
                }
            }
        }
        let ghost single = nodes@.len() == 1;
        let ghost init = nodes@;
        proof {
            assert(init =~= leaves_of(freqs@));
        }
        let root: Node = if nodes.len() == 1 {
            let ghost last = nodes@;
            let leaf = nodes.remove(0);
            let root = Node { freq: leaf.freq, ch: None, left: None, right: Some(Box::new(leaf)) };
            proof {
                assert(nodes@.len() == 0);
                assert(last.drop_last() =~= Seq::<Node>::empty());
                assert(forest_keys(last) =~= leaf.keys());
                assert(root.keys() =~= leaf.keys());
                assert(last[0] == leaf);
                assert(root.is_single_root());
            }
            root
        } else {
            while nodes.len() > 1
                invariant
                    s.len() <= usize::MAX,
                    nodes@.len() >= 1,
                    nodes@.len() >= 2 || nodes@.last().ch is None,
                    total(nodes@) == s.len(),
                    forall|c: char| #[trigger] forest_keys(nodes@).contains(c) == s.contains(c),
                    forest_ok(nodes@, s),
                    merge_all(nodes@, (nodes@.len() - 1) as nat) == merge_all(init, (init.len() - 1) as nat),
                decreases nodes@.len(),
            {
                let ghost n0 = nodes@;
                let i = min_index(&nodes);
                let a = nodes.remove(i);
                proof {
                    lemma_forest_remove(n0, i as int, s);
                }
                let ghost n1 = nodes@;
                let j = min_index(&nodes);
                let b = nodes.remove(j);
                let ghost n2 = nodes@;
                proof {
                    lemma_forest_remove(n1, j as int, s);
                    assert(n1[j as int].keys().disjoint(a.keys()));
                }
                let m = Node { freq: a.freq + b.freq, ch: None, left: Some(Box::new(a)), right: Some(Box::new(b)) };
                nodes.push(m);
                proof {
                    lemma_min_pos(n0, i as int);
                    lemma_min_pos(n1, j as int);
                    assert(nodes@ =~= merge_step(n0));
                    assert(nodes@.drop_last() =~= n2);
                    assert(m.keys() =~= a.keys().union(b.keys()));
                    assert forall|c: char| #[trigger] forest_keys(nodes@).contains(c) == s.contains(c) by {
                        assert(forest_keys(n0).contains(c) == forest_keys(n2).union(b.keys()).union(a.keys()).contains(c));
                    }
                    assert forall|k1: int, k2: int|
                        0 <= k1 < nodes@.len() && 0 <= k2 < nodes@.len() && k1 != k2 implies
                        (#[trigger] nodes@[k1]).keys().disjoint((#[trigger] nodes@[k2]).keys()) by {
                        if k1 < n2.len() && k2 < n2.len() {
                            assert(nodes@[k1] == n2[k1] && nodes@[k2] == n2[k2]);
                        } else if k1 < n2.len() {
                            let o = if k1 < j { k1 } else { k1 + 1 };
                            assert(n2[k1] == n1[o]);
                            assert(n1[o].keys().disjoint(a.keys()));
                            assert(n2[k1].keys().disjoint(b.keys()));
                        } else {
                            let o = if k2 < j { k2 } else { k2 + 1 };
                            assert(n2[k2] == n1[o]);
                            assert(n1[o].keys().disjoint(a.keys()));
                            assert(n2[k2].keys().disjoint(b.keys()));
                        }
                    }
                    assert forall|k: int| 0 <= k < nodes@.len() implies (#[trigger] nodes@[k]).wf()
                        && nodes@[k].counts_ok(s) by {
                        if k < n2.len() {
                            assert(nodes@[k] == n2[k]);
                        }
                    }
                }
            }
            let ghost last = nodes@;
            let root = nodes.remove(0);
            proof {
                assert(last.len() == 1);
                assert(last.drop_last() =~= Seq::<Node>::empty());
                assert(forest_keys(last.drop_last()) == Set::<char>::empty());
                assert(last.last() == root);
                assert(forest_keys(last) =~= root.keys());
                assert(last[0] == root);
                assert(merge_all(last, 0) == last);
            }
            root
        };
        proof {
            assert(nodes@.len() == 0);
        }
        let mut codes: Vec<(char, String)> = Vec::new();
        proof {
            let e = Seq::<char>::empty();
            root.lemma_codes(e);
            if root.is_single_root() {
                let leaf = *root.right.unwrap();
                assert(root.codes_from(e) == Seq::<(char, Seq<char>)>::empty() + leaf.codes_from(e.push('0')));
                assert(leaf.codes_from(e.push('0')) == seq![(leaf.ch.unwrap(), e.push('0'))]);
                assert(root.codes_from(e).len() == 1);
            }
            lemma_insert_all_empty(root.codes_from(e));
            assert(table_of(codes@) =~= Seq::<(char, Seq<char>)>::empty());
        }
        HuffmanTree::assign_codes(&root, &mut codes, String::new());
        assert(table_of(codes@) == root.codes_from(Seq::empty()));
        let tree = HuffmanTree { root: Box::new(root), codes };
        proof {
            assert(tree.spec_root() == root);
            tree.lemma_code_for(s);
            let t = table_of(tree.spec_codes());
            if forall|i: int, j: int| 0 <= i < s.len() && 0 <= j < s.len() ==> s[i] == s[j] {
                if freqs@.len() > 1 {
                    assert(freqs@[0].0 != freqs@[1].0);
                    let w0 = choose|w: int| 0 <= w < s.len() && s[w] == freqs@[0].0;
                    let w1 = choose|w: int| 0 <= w < s.len() && s[w] == freqs@[1].0;
                }
                assert(single);
                assert(root.is_single_root());
            }
        }
        Ok(tree)
    }
}

} // verus!
