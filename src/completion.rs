use crate::order::{
    is_common_prefix, is_longest_common_prefix, longest_common_prefix, sort_words,
    strictly_ascending, views,
};
use crate::text::{chars_of, push_char, string_from, string_of, string_views};
use vstd::prelude::*;
use vstd::seq_lib::{lemma_no_dup_in_concat, seq_to_set_distributes_over_add};

verus! {

/// The names of `names` that start with `prefix`.
pub open spec fn names_with_prefix(names: Set<Seq<char>>, prefix: Seq<char>) -> Set<Seq<char>> {
    names.filter(|w: Seq<char>| prefix.is_prefix_of(w))
}

/// The views of the strings that `after` holds beyond `before`.
spec fn added(before: Seq<String>, after: Seq<String>) -> Seq<Seq<char>> {
    after.subrange(before.len() as int, after.len() as int).map_values(|s: String| s@)
}

/// One node of the prefix tree, stored in the tree's node table. Its children
/// are listed by their character and their place in the table; a terminal node
/// keeps the whole name that leads to it.
struct TrieNode {
    children: Vec<(char, usize)>,
    is_end: bool,
    word: String,
}

impl TrieNode {
    fn new() -> (r: TrieNode)
        ensures
            r.children@.len() == 0,
            !r.is_end,
    {
        TrieNode { children: Vec::new(), is_end: false, word: String::new() }
    }
}

/// Whether `node` has a child reached by `c` at place `k`.
spec fn has_edge(node: TrieNode, c: char, k: int) -> bool {
    exists|j: int|
        0 <= j < node.children@.len() && (#[trigger] node.children@[j]).0 == c
            && node.children@[j].1 == k
}

/// A prefix tree of names. The nodes live in one table, the root at place 0;
/// every node comes after its parent in the table.
pub struct Trie {
    nodes: Vec<TrieNode>,
    /// The characters on the way from the root to each node.
    paths: Ghost<Seq<Seq<char>>>,
    /// The place of the node that each present path leads to.
    index: Ghost<Map<Seq<char>, int>>,
}

impl View for Trie {
    type V = Set<Seq<char>>;

    /// The names stored in the tree.
    closed spec fn view(&self) -> Set<Seq<char>> {
        Set::new(
            |w: Seq<char>| self.index@.contains_key(w) && self.nodes@[self.index@[w]].is_end,
        )
    }
}

impl Trie {
    /// The node at place `a`, other than the root, is the child of the node
    /// at its path without the last character.
    spec fn has_parent(&self, a: int) -> bool {
        let w = self.paths@[a];
        &&& w.len() > 0
        &&& self.index@.contains_key(w.drop_last())
        &&& has_edge(self.nodes@[self.index@[w.drop_last()]], w.last(), a)
    }

    pub closed spec fn wf(&self) -> bool {
        let nodes = self.nodes@;
        let paths = self.paths@;
        let index = self.index@;
        &&& nodes.len() >= 1
        &&& paths.len() == nodes.len()
        &&& paths[0] == Seq::<char>::empty()
        &&& forall|a: int|
            0 <= a < nodes.len() ==> index.contains_key(#[trigger] paths[a]) && index[paths[a]]
                == a
        &&& forall|w: Seq<char>|
            #[trigger] index.contains_key(w) ==> 0 <= index[w] < nodes.len() && paths[index[w]]
                == w
        &&& forall|a: int| 0 < a < nodes.len() ==> #[trigger] self.has_parent(a)
        &&& forall|a: int, j: int|
            0 <= a < nodes.len() && 0 <= j < nodes[a].children@.len() ==> {
                let (c, k) = #[trigger] nodes[a].children@[j];
                &&& a < k < nodes.len()
                &&& paths[k as int] == paths[a].push(c)
            }
        &&& forall|a: int, j1: int, j2: int|
            0 <= a < nodes.len() && 0 <= j1 < nodes[a].children@.len() && 0 <= j2
                < nodes[a].children@.len() && j1 != j2 ==> (#[trigger] nodes[a].children@[j1]).0
                != (#[trigger] nodes[a].children@[j2]).0
        &&& forall|a: int| 0 <= a < nodes.len() && (#[trigger] nodes[a]).is_end ==> nodes[a].word@ == paths[a]
    }

    /// Every prefix of a node's path leads to a node.
    proof fn lemma_prefix_present(&self, a: int, k: int)
        requires
            self.wf(),
            0 <= a < self.nodes@.len(),
            0 <= k <= self.paths@[a].len(),
        ensures
            self.index@.contains_key(self.paths@[a].take(k)),
        decreases a,
    {
        let w = self.paths@[a];
        if k == w.len() {
            assert(w.take(k) =~= w);
        } else {
            assert(a != 0);
            assert(self.has_parent(a));
            let b = self.index@[w.drop_last()];
            let j = choose|j: int|
                0 <= j < self.nodes@[b].children@.len() && (#[trigger] self.nodes@[b].children@[
                    j
                ]).0 == w.last() && self.nodes@[b].children@[j].1 == a;
            assert(self.nodes@[b].children@[j].1 == a);
            assert(b < a);
            assert(self.paths@[b] == w.drop_last());
            self.lemma_prefix_present(b, k);
            assert(w.drop_last().take(k) =~= w.take(k));
        }
    }

    /// An empty tree.
    pub fn new() -> (r: Trie)
        ensures
            r.wf(),
            r@ == Set::<Seq<char>>::empty(),
    {
        let mut nodes: Vec<TrieNode> = Vec::new();
        nodes.push(TrieNode::new());
        let ghost paths = seq![Seq::<char>::empty()];
        let ghost index = map![Seq::<char>::empty() => 0int];
        let r = Trie { nodes, paths: Ghost(paths), index: Ghost(index) };
        assert(r@ =~= Set::<Seq<char>>::empty());
        r
    }

    /// The child of the node at `a` reached by `c`, if there is one.
    fn find_child(&self, a: usize, c: char) -> (r: Option<usize>)
        requires
            self.wf(),
            a < self.nodes@.len(),
        ensures
            match r {
                Some(k) => {
                    &&& has_edge(self.nodes@[a as int], c, k as int)
                    &&& a < k < self.nodes@.len()
                    &&& self.paths@[k as int] == self.paths@[a as int].push(c)
                },
                None => forall|j: int|
                    0 <= j < self.nodes@[a as int].children@.len() ==> (
                    #[trigger] self.nodes@[a as int].children@[j]).0 != c,
            },
    {
        let children = &self.nodes[a].children;
        let mut j: usize = 0;
        while j < children.len()
            invariant
                self.wf(),
                a < self.nodes@.len(),
                children@ == self.nodes@[a as int].children@,
                j <= children.len(),
                forall|i: int| 0 <= i < j ==> (#[trigger] children@[i]).0 != c,
            decreases children.len() - j,
        {
            if children[j].0 == c {
                let k = children[j].1;
                assert(self.nodes@[a as int].children@[j as int].0 == c);
                assert(self.nodes@[a as int].children@[j as int].1 == k);
                return Some(k);
            }
            j = j + 1;
        }
        None
    }

    /// Adds a name to the tree; adding a name that is already there changes nothing.
    pub fn insert(&mut self, word: String)
        requires
            old(self).wf(),
        ensures
            final(self).wf(),
            final(self)@ == old(self)@.insert(word@),
    {
        let cs = chars_of(word.as_str());
        let mut cur: usize = 0;
        let mut i: usize = 0;
        assert(cs@.take(0) =~= Seq::<char>::empty());
        while i < cs.len()
            invariant
                self.wf(),
                self@ == old(self)@,
                i <= cs.len(),
                cur < self.nodes@.len(),
                self.paths@[cur as int] == cs@.take(i as int),
            decreases cs.len() - i,
        {
            let c = cs[i];
            assert(cs@.take(i + 1) =~= cs@.take(i as int).push(c));
            match self.find_child(cur, c) {
                Some(k) => {
                    cur = k;
                },
                None => {
                    let k = self.nodes.len();
                    let ghost before = *self;
                    let ghost np = self.paths@[cur as int].push(c);
                    proof {
                        // No node has the new path yet: its parent would be `cur`,
                        // which has no child reached by `c`.
                        if self.index@.contains_key(np) {
                            let m = self.index@[np];
                            assert(self.paths@[m] == np);
                            assert(np.drop_last() =~= self.paths@[cur as int]);
                            assert(self.has_parent(m));
                        }
                    }
                    self.nodes.push(TrieNode::new());
                    self.nodes[cur].children.push((c, k));
                    let ghost paths = self.paths@.push(np);
                    let ghost index = self.index@.insert(np, k as int);
                    self.paths = Ghost(paths);
                    self.index = Ghost(index);
                    proof {
                        let nodes = self.nodes@;
                        assert forall|a: int| 0 <= a < k && a != cur implies nodes[a]
                            == before.nodes@[a] by {}
                        assert(nodes[cur as int].children@ =~= before.nodes@[
                            cur as int
                        ].children@.push((c, k)));
                        assert forall|a: int|
                            0 <= a < nodes.len() implies self.index@.contains_key(
                            #[trigger] self.paths@[a],
                        ) && self.index@[self.paths@[a]] == a by {
                            if a < k {
                                assert(before.index@.contains_key(before.paths@[a]));
                            }
                        }
                        assert forall|a: int| 0 < a < nodes.len() implies #[trigger] self.has_parent(
                            a,
                        ) by {
                            if a < k {
                                assert(before.has_parent(a));
                                let w = before.paths@[a];
                                let b = before.index@[w.drop_last()];
                                let j = choose|j: int|
                                    0 <= j < before.nodes@[b].children@.len() && (
                                    #[trigger] before.nodes@[b].children@[j]).0 == w.last()
                                        && before.nodes@[b].children@[j].1 == a;
                                assert(self.nodes@[b].children@[j] == before.nodes@[b].children@[j]);
                                assert(self.index@[w.drop_last()] == b);
                            } else {
                                assert(np.drop_last() =~= before.paths@[cur as int]);
                                assert(self.nodes@[cur as int].children@[before.nodes@[
                                    cur as int
                                ].children@.len() as int] == (c, k));
                            }
                        }
                        assert forall|a: int, j: int|
                            0 <= a < nodes.len() && 0 <= j < nodes[a].children@.len() implies {
                            let (c2, k2) = #[trigger] nodes[a].children@[j];
                            &&& a < k2 < nodes.len()
                            &&& self.paths@[k2 as int] == self.paths@[a].push(c2)
                        } by {
                            if a != cur && a < k {
                                assert(nodes[a].children@[j] == before.nodes@[a].children@[j]);
                            } else if a == cur && j < before.nodes@[a].children@.len() {
                                assert(nodes[a].children@[j] == before.nodes@[a].children@[j]);
                            }
                        }
                        assert forall|a: int, j1: int, j2: int|
                            0 <= a < nodes.len() && 0 <= j1 < nodes[a].children@.len() && 0 <= j2
                                < nodes[a].children@.len() && j1 != j2 implies (
                            #[trigger] nodes[a].children@[j1]).0 != (
                            #[trigger] nodes[a].children@[j2]).0 by {
                            if a != cur && a < k {
                                assert(nodes[a].children@[j1] == before.nodes@[a].children@[j1]);
                                assert(nodes[a].children@[j2] == before.nodes@[a].children@[j2]);
                            } else if a == cur {
                                let n0 = before.nodes@[a].children@.len();
                                if j1 < n0 {
                                    assert(nodes[a].children@[j1] == before.nodes@[a].children@[j1]);
                                }
                                if j2 < n0 {
                                    assert(nodes[a].children@[j2] == before.nodes@[a].children@[j2]);
                                }
                            }
                        }
                        assert forall|a: int|
                            0 <= a < nodes.len() && (#[trigger] nodes[a]).is_end implies nodes[a].word@
                            == self.paths@[a] by {
                            if a < k {
                                assert(before.nodes@[a].is_end);
                            }
                        }
                        assert(self.wf());
                        assert forall|w: Seq<char>| #[trigger] self@.contains(w) == before@.contains(w) by {
                            if w == np {
                                assert(!self.nodes@[k as int].is_end);
                            } else if self.index@.contains_key(w) {
                                let m = self.index@[w];
                                assert(m != k);
                                if m == cur {
                                    assert(self.nodes@[m].is_end == before.nodes@[m].is_end);
                                }
                            }
                        }
                        assert(self@ =~= before@);
                    }
                    cur = k;
                },
            }
            i = i + 1;
        }
        assert(cs@.take(i as int) =~= word@);
        let ghost before = *self;
        self.nodes[cur].is_end = true;
        self.nodes[cur].word = word;
        proof {
            let nodes = self.nodes@;
            assert forall|a: int| 0 <= a < nodes.len() && a != cur implies nodes[a] == before.nodes@[a] by {}
            assert forall|a: int| 0 < a < nodes.len() implies #[trigger] self.has_parent(a) by {
                assert(before.has_parent(a));
                let w = before.paths@[a];
                let b = before.index@[w.drop_last()];
                let j = choose|j: int|
                    0 <= j < before.nodes@[b].children@.len() && (
                    #[trigger] before.nodes@[b].children@[j]).0 == w.last()
                        && before.nodes@[b].children@[j].1 == a;
                assert(self.nodes@[b].children@[j] == before.nodes@[b].children@[j]);
            }
            assert forall|a: int, j: int|
                0 <= a < nodes.len() && 0 <= j < nodes[a].children@.len() implies {
                let (c2, k2) = #[trigger] nodes[a].children@[j];
                &&& a < k2 < nodes.len()
                &&& self.paths@[k2 as int] == self.paths@[a].push(c2)
            } by {
                assert(nodes[a].children@[j] == before.nodes@[a].children@[j]);
            }
            assert forall|a: int, j1: int, j2: int|
                0 <= a < nodes.len() && 0 <= j1 < nodes[a].children@.len() && 0 <= j2
                    < nodes[a].children@.len() && j1 != j2 implies (
                #[trigger] nodes[a].children@[j1]).0 != (#[trigger] nodes[a].children@[j2]).0 by {
                assert(nodes[a].children@[j1] == before.nodes@[a].children@[j1]);
                assert(nodes[a].children@[j2] == before.nodes@[a].children@[j2]);
            }
            assert(self.wf());
            assert forall|w: Seq<char>| #[trigger] self@.contains(w) == old(self)@.insert(word@).contains(w) by {
                if self.index@.contains_key(w) {
                    let m = self.index@[w];
                    if m == cur {
                        assert(w == word@);
                    }
                }
            }
            assert(self@ =~= old(self)@.insert(word@));
        }
    }

    /// The names at or below the node at place `a`, as far as its own name and
    /// the subtrees of its first `j` children go.
    spec fn collected(&self, a: int, j: int) -> Set<Seq<char>>
        decreases j,
    {
        if j <= 0 {
            if self.nodes@[a].is_end {
                set![self.paths@[a]]
            } else {
                Set::empty()
            }
        } else {
            self.collected(a, j - 1).union(
                names_with_prefix(self@, self.paths@[self.nodes@[a].children@[j - 1].1 as int]),
            )
        }
    }

    proof fn lemma_collected_grows(&self, a: int, j1: int, j2: int)
        requires
            0 <= j1 <= j2,
        ensures
            self.collected(a, j1).subset_of(self.collected(a, j2)),
        decreases j2,
    {
        if j1 < j2 {
            self.lemma_collected_grows(a, j1, j2 - 1);
        }
    }

    /// A name below the child at `jj` was not collected before that child.
    proof fn lemma_collected_disjoint(&self, a: int, j: int, jj: int, y: Seq<char>)
        requires
            self.wf(),
            0 <= a < self.nodes@.len(),
            0 <= j <= jj < self.nodes@[a].children@.len(),
            names_with_prefix(self@, self.paths@[self.nodes@[a].children@[jj].1 as int]).contains(y),
        ensures
            !self.collected(a, j).contains(y),
        decreases j,
    {
        let pa = self.paths@[a];
        let cj = self.nodes@[a].children@[jj];
        assert(self.paths@[cj.1 as int] == pa.push(cj.0));
        assert(y.len() > pa.len());
        assert(y[pa.len() as int] == pa.push(cj.0)[pa.len() as int]);
        if j > 0 {
            self.lemma_collected_disjoint(a, j - 1, jj, y);
            let ci = self.nodes@[a].children@[j - 1];
            assert(self.paths@[ci.1 as int] == pa.push(ci.0));
            if names_with_prefix(self@, self.paths@[ci.1 as int]).contains(y) {
                assert(y[pa.len() as int] == pa.push(ci.0)[pa.len() as int]);
            }
        }
    }

    /// What the children of `a` and `a` itself hold is everything below `a`.
    proof fn lemma_collected_all(&self, a: int)
        requires
            self.wf(),
            0 <= a < self.nodes@.len(),
        ensures
            self.collected(a, self.nodes@[a].children@.len() as int) == names_with_prefix(
                self@,
                self.paths@[a],
            ),
    {
        let n = self.nodes@[a].children@.len() as int;
        let pa = self.paths@[a];
        assert forall|w: Seq<char>| #[trigger] self.collected(a, n).contains(w) implies names_with_prefix(
            self@,
            pa,
        ).contains(w) by {
            self.lemma_collected_within(a, n, w);
        }
        assert forall|w: Seq<char>| #[trigger] names_with_prefix(self@, pa).contains(w) implies self.collected(
            a,
            n,
        ).contains(w) by {
            let m = self.index@[w];
            if w == pa {
                assert(self.index@[pa] == a);
                self.lemma_collected_grows(a, 0, n);
            } else {
                assert(w.len() > pa.len()) by {
                    if w.len() == pa.len() {
                        assert(w =~= pa);
                    }
                }
                assert(self.paths@[m] == w);
                self.lemma_prefix_present(m, pa.len() + 1int);
                let u = w.take(pa.len() + 1int);
                let b = self.index@[u];
                assert(self.paths@[b] == u);
                assert(b != 0);
                assert(self.has_parent(b));
                assert(u.drop_last() =~= pa);
                assert(self.index@[pa] == a);
                let j = choose|j: int|
                    0 <= j < self.nodes@[a].children@.len() && (
                    #[trigger] self.nodes@[a].children@[j]).0 == u.last()
                        && self.nodes@[a].children@[j].1 == b;
                assert(u.is_prefix_of(w));
                assert(names_with_prefix(self@, self.paths@[b]).contains(w));
                assert(self.collected(a, j + 1).contains(w));
                self.lemma_collected_grows(a, j + 1, n);
            }
        }
        assert(self.collected(a, n) =~= names_with_prefix(self@, pa));
    }

    proof fn lemma_collected_within(&self, a: int, j: int, w: Seq<char>)
        requires
            self.wf(),
            0 <= a < self.nodes@.len(),
            0 <= j <= self.nodes@[a].children@.len(),
            self.collected(a, j).contains(w),
        ensures
            names_with_prefix(self@, self.paths@[a]).contains(w),
        decreases j,
    {
        let pa = self.paths@[a];
        if j == 0 {
            assert(self.index@[pa] == a);
            assert(pa.is_prefix_of(pa));
        } else if self.collected(a, j - 1).contains(w) {
            self.lemma_collected_within(a, j - 1, w);
        } else {
            let c = self.nodes@[a].children@[j - 1];
            assert(self.paths@[c.1 as int] == pa.push(c.0));
            assert(pa.is_prefix_of(w)) by {
                assert(w.subrange(0, pa.len() as int) =~= pa.push(c.0).subrange(0, pa.len() as int));
            }
        }
    }

    /// Appends every name stored at or below the node at place `a`, each once.
    fn collect_words(&self, a: usize, results: &mut Vec<String>)
        requires
            self.wf(),
            a < self.nodes@.len(),
        ensures
            final(results)@.len() >= old(results)@.len(),
            final(results)@.subrange(0, old(results)@.len() as int) == old(results)@,
            added(old(results)@, final(results)@).no_duplicates(),
            added(old(results)@, final(results)@).to_set() == names_with_prefix(
                self@,
                self.paths@[a as int],
            ),
        decreases self.nodes@.len() - a,
    {
        let ghost start = results@;
        if self.nodes[a].is_end {
            results.push(self.nodes[a].word.clone());
            let ghost one = added(start, results@);
            assert(one =~= seq![self.paths@[a as int]]);
            assert(one.to_set() =~= set![self.paths@[a as int]]) by {
                assert(one[0] == self.paths@[a as int]);
            }
        } else {
            assert(added(start, results@) =~= Seq::<Seq<char>>::empty());
            assert(added(start, results@).to_set() =~= Set::<Seq<char>>::empty());
        }
        assert(added(start, results@).to_set() =~= self.collected(a as int, 0));
        let n = self.nodes[a].children.len();
        let mut j: usize = 0;
        while j < n
            invariant
                self.wf(),
                a < self.nodes@.len(),
                n == self.nodes@[a as int].children@.len(),
                j <= n,
                results@.len() >= start.len(),
                results@.subrange(0, start.len() as int) == start,
                added(start, results@).no_duplicates(),
                added(start, results@).to_set() == self.collected(a as int, j as int),
            decreases n - j,
        {
            let k = self.nodes[a].children[j].1;
            let ghost mid = results@;
            assert(a < k < self.nodes@.len());
            self.collect_words(k, results);
            proof {
                let before = added(start, mid);
                let more = added(mid, results@);
                assert(added(start, results@) =~= before + more);
                assert(results@.subrange(0, start.len() as int) =~= mid.subrange(
                    0,
                    start.len() as int,
                ));
                assert forall|x: int, y: int|
                    0 <= x < before.len() && 0 <= y < more.len() implies before[x] != more[y] by {
                    assert(more.to_set().contains(more[y]));
                    assert(before.to_set().contains(before[x]));
                    self.lemma_collected_disjoint(a as int, j as int, j as int, more[y]);
                }
                lemma_no_dup_in_concat(before, more);
                seq_to_set_distributes_over_add(before, more);
            }
            j = j + 1;
        }
        proof {
            self.lemma_collected_all(a as int);
        }
    }

    /// The node that the path `prefix` leads to, if any. When there is none,
    /// no stored name starts with `prefix`.
    fn find_node(&self, prefix: &Vec<char>) -> (r: Option<usize>)
        requires
            self.wf(),
        ensures
            match r {
                Some(a) => a < self.nodes@.len() && self.paths@[a as int] == prefix@,
                None => names_with_prefix(self@, prefix@) == Set::<Seq<char>>::empty(),
            },
    {
        let mut cur: usize = 0;
        let mut i: usize = 0;
        assert(prefix@.take(0) =~= Seq::<char>::empty());
        while i < prefix.len()
            invariant
                self.wf(),
                i <= prefix.len(),
                cur < self.nodes@.len(),
                self.paths@[cur as int] == prefix@.take(i as int),
            decreases prefix.len() - i,
        {
            let c = prefix[i];
            assert(prefix@.take(i + 1) =~= prefix@.take(i as int).push(c));
            match self.find_child(cur, c) {
                Some(k) => {
                    cur = k;
                },
                None => {
                    proof {
                        let q = prefix@;
                        assert forall|w: Seq<char>| !(#[trigger] names_with_prefix(
                            self@,
                            q,
                        ).contains(w)) by {
                            if names_with_prefix(self@, q).contains(w) {
                                let m = self.index@[w];
                                assert(self.paths@[m] == w);
                                self.lemma_prefix_present(m, i + 1);
                                let u = w.take(i + 1);
                                assert(u =~= q.take(i + 1));
                                let b = self.index@[u];
                                assert(self.paths@[b] == u);
                                assert(b != 0);
                                assert(self.has_parent(b));
                                assert(u.drop_last() =~= q.take(i as int));
                                assert(self.index@[q.take(i as int)] == cur);
                                let j = choose|j: int|
                                    0 <= j < self.nodes@[cur as int].children@.len() && (
                                    #[trigger] self.nodes@[cur as int].children@[j]).0 == u.last()
                                        && self.nodes@[cur as int].children@[j].1 == b;
                                assert(self.nodes@[cur as int].children@[j].0 == c);
                            }
                        }
                        assert(names_with_prefix(self@, q) =~= Set::<Seq<char>>::empty());
                    }
                    return None;
                },
            }
            i = i + 1;
        }
        assert(prefix@.take(i as int) =~= prefix@);
        Some(cur)
    }

    /// Every stored name that starts with `prefix`, each once, in no particular order.
    pub fn find_prefix(&self, prefix: &str) -> (r: Vec<String>)
        requires
            self.wf(),
        ensures
            r@.map_values(|s: String| s@).no_duplicates(),
            r@.map_values(|s: String| s@).to_set() == names_with_prefix(self@, prefix@),
    {
        let cs = chars_of(prefix);
        let mut results: Vec<String> = Vec::new();
        match self.find_node(&cs) {
            Some(a) => {
                self.collect_words(a, &mut results);
                assert(added(Seq::empty(), results@) =~= results@.map_values(|s: String| s@));
            },
            None => {
                assert(results@.map_values(|s: String| s@).to_set() =~= Set::<Seq<char>>::empty());
            },
        }
        results
    }


    /// What the stored names say about the partial word `prefix`, leaving out
    /// the rule for repeated requests that the completion engine adds.
    pub fn find_common_prefix(&self, prefix: &str) -> (r: PrefixMatch)
        requires
            self.wf(),
        ensures
            prefix_match_spec(names_with_prefix(self@, prefix@), prefix@, r),
    {
        let ghost m = names_with_prefix(self@, prefix@);
        let matches = self.find_prefix(prefix);
        let ghost mv = string_views(matches@);
        if matches.len() == 0 {
            assert(m =~= Set::<Seq<char>>::empty()) by {
                assert(mv =~= Seq::<Seq<char>>::empty());
            }
            return PrefixMatch::NoMatch;
        }
        if matches.len() == 1 {
            let mut s = matches[0].clone();
            push_char(&mut s, ' ');
            assert(m =~= set![mv[0]]) by {
                assert(mv.to_set().contains(mv[0]));
            }
            return PrefixMatch::Unique(s);
        }
        proof {
            assert(mv[0] != mv[1]);
            assert(m.contains(mv[0]) && m.contains(mv[1]));
            if is_singleton(m) {
                let w = choose|w: Seq<char>| m == set![w];
                assert(mv[0] == w && mv[1] == w);
            }
        }
        let mut words: Vec<Vec<char>> = Vec::new();
        let mut i: usize = 0;
        while i < matches.len()
            invariant
                mv == string_views(matches@),
                i <= matches.len(),
                views(words@) == mv.take(i as int),
            decreases matches.len() - i,
        {
            let cs = chars_of(matches[i].as_str());
            assert(cs@ == mv[i as int]);
            let ghost prev = words@;
            words.push(cs);
            assert(views(words@) =~= views(prev).push(cs@));
            assert(mv.take(i + 1) =~= mv.take(i as int).push(mv[i as int]));
            i = i + 1;
        }
        assert(mv.take(i as int) =~= mv);
        let sorted = sort_words(words);
        let lcp = longest_common_prefix(&sorted);
        let prefix_len = chars_of(prefix).len();
        if lcp.len() > prefix_len {
            PrefixMatch::CommonPrefix(string_of(&lcp))
        } else {
            let ghost sv = views(sorted@);
            let mut out: Vec<String> = Vec::new();
            let mut k: usize = 0;
            while k < sorted.len()
                invariant
                    sv == views(sorted@),
                    k <= sorted.len(),
                    string_views(out@) == sv.take(k as int),
                decreases sorted.len() - k,
            {
                let w = string_of(&sorted[k]);
                assert(w@ == sv[k as int]);
                let ghost prev = out@;
                out.push(w);
                assert(string_views(out@) =~= string_views(prev).push(w@));
                assert(sv.take(k + 1) =~= sv.take(k as int).push(sv[k as int]));
                k = k + 1;
            }
            assert(sv.take(k as int) =~= sv);
            proof {
                assert(is_common_prefix(prefix@, m));
            }
            PrefixMatch::Ambiguous(out)
        }
    }

}


/// What the stored names say about a partial word, before the rule for
/// repeated requests is applied.
#[derive(Debug, PartialEq, Eq)]
pub enum PrefixMatch {
    /// No name starts with the word.
    NoMatch,
    /// Exactly one name does; it is given with a space after it.
    Unique(String),
    /// Several do, and their longest common prefix is longer than the word.
    CommonPrefix(String),
    /// Several do and share nothing beyond the word: all of them, ascending.
    Ambiguous(Vec<String>),
}

/// The set holds exactly one element.
pub open spec fn is_singleton(m: Set<Seq<char>>) -> bool {
    exists|w: Seq<char>| m == set![w]
}

/// `r` is the answer for the partial word `prefix` when `m` are the names
/// that start with it.
pub open spec fn prefix_match_spec(m: Set<Seq<char>>, prefix: Seq<char>, r: PrefixMatch) -> bool {
    match r {
        PrefixMatch::NoMatch => m == Set::<Seq<char>>::empty(),
        PrefixMatch::Unique(s) => exists|w: Seq<char>| m == set![w] && s@ == w.push(' '),
        PrefixMatch::CommonPrefix(s) => {
            &&& m != Set::<Seq<char>>::empty()
            &&& !is_singleton(m)
            &&& is_longest_common_prefix(s@, m)
            &&& s@.len() > prefix.len()
        },
        PrefixMatch::Ambiguous(v) => {
            &&& m != Set::<Seq<char>>::empty()
            &&& !is_singleton(m)
            &&& is_longest_common_prefix(prefix, m)
            &&& strictly_ascending(string_views(v@))
            &&& string_views(v@).to_set() == m
        },
    }
}

/// Two ambiguous requests this many milliseconds apart or closer show every match.
pub const DOUBLE_PRESS_WINDOW_MS: u64 = 500;

/// The request at `now` comes within the window after the ambiguous request at `last`.
pub open spec fn within_window(last: Option<u64>, now: u64) -> bool {
    match last {
        Some(t) => t <= now && now - t < DOUBLE_PRESS_WINDOW_MS,
        None => false,
    }
}

/// The answer to a completion request.
#[derive(Debug, PartialEq, Eq)]
pub enum CompletionOutcome {
    /// No known name starts with the word.
    NoMatch,
    /// The only matching name, followed by a space.
    Complete(String),
    /// The longest prefix shared by all matching names, which extends the word.
    ExtendPrefix(String),
    /// Several names match and none is preferred; nothing to show yet.
    Ambiguous,
    /// Several names match and the request was repeated quickly: all of them, ascending.
    ShowAll(Vec<String>),
}

/// The names known after a refresh from the builtin names and the executable
/// names found on the search path.
pub open spec fn refreshed_names(builtins: Set<Seq<char>>, executables: Seq<Seq<char>>) -> Set<
    Seq<char>,
> {
    builtins.union(executables.to_set())
}

/// Completes command names from the builtin names and the executables on the
/// search path, kept in a prefix tree.
pub struct CompletionEngine {
    builtin_commands: Vec<String>,
    trie: Trie,
    last_ambiguous: Option<u64>,
}

impl CompletionEngine {
    #[verifier::type_invariant]
    spec fn inv(&self) -> bool {
        self.trie.wf()
    }

    /// The names that completion draws on.
    pub closed spec fn names(&self) -> Set<Seq<char>> {
        self.trie@
    }

    /// The builtin names that every refresh puts back.
    pub closed spec fn builtins(&self) -> Set<Seq<char>> {
        string_views(self.builtin_commands@).to_set()
    }

    /// When the last ambiguous request came, if one did.
    pub closed spec fn last_ambiguous(&self) -> Option<u64> {
        self.last_ambiguous
    }

    /// A tree of the given names and of `builtins`.
    fn build(builtins: &Vec<String>, names: &Vec<String>) -> (r: Trie)
        ensures
            r.wf(),
            r@ == refreshed_names(string_views(builtins@).to_set(), string_views(names@)),
    {
        let mut trie = Trie::new();
        let mut i: usize = 0;
        while i < builtins.len()
            invariant
                trie.wf(),
                i <= builtins.len(),
                trie@ == string_views(builtins@).take(i as int).to_set(),
            decreases builtins.len() - i,
        {
            trie.insert(builtins[i].clone());
            assert(string_views(builtins@).take(i + 1) =~= string_views(builtins@).take(
                i as int,
            ).push(builtins@[i as int]@));
            proof {
                string_views(builtins@).take(i as int).lemma_push_to_set_commute(builtins@[i as int]@);
            }
            i = i + 1;
        }
        assert(string_views(builtins@).take(i as int) =~= string_views(builtins@));
        let mut k: usize = 0;
        while k < names.len()
            invariant
                trie.wf(),
                k <= names.len(),
                trie@ == string_views(builtins@).to_set().union(
                    string_views(names@).take(k as int).to_set(),
                ),
            decreases names.len() - k,
        {
            trie.insert(names[k].clone());
            assert(string_views(names@).take(k + 1) =~= string_views(names@).take(k as int).push(
                names@[k as int]@,
            ));
            proof {
                string_views(names@).take(k as int).lemma_push_to_set_commute(names@[k as int]@);
            }
            assert(trie@ =~= string_views(builtins@).to_set().union(
                string_views(names@).take(k + 1).to_set(),
            ));
            k = k + 1;
        }
        assert(string_views(names@).take(k as int) =~= string_views(names@));
        trie
    }

    /// An engine that knows the builtin names only, until the first refresh.
    pub fn new(builtins: Vec<String>) -> (r: Self)
        ensures
            r.builtins() == string_views(builtins@).to_set(),
            r.names() == r.builtins(),
            r.last_ambiguous() == None::<u64>,
    {
        let trie = Self::build(&builtins, &Vec::new());
        assert(string_views(Seq::<String>::empty()).to_set() =~= Set::<Seq<char>>::empty());
        assert(trie@ =~= string_views(builtins@).to_set());
        CompletionEngine { builtin_commands: builtins, trie, last_ambiguous: None }
    }

    /// Rebuilds the tree from scratch out of the builtin names and
    /// `executables`, the names found on the search path. Nothing known
    /// before the refresh stays unless one of those lists has it.
    pub fn refresh_cache(&mut self, executables: &Vec<String>)
        ensures
            final(self).builtins() == old(self).builtins(),
            final(self).names() == refreshed_names(old(self).builtins(), string_views(executables@)),
            final(self).last_ambiguous() == old(self).last_ambiguous(),
    {
        let trie = Self::build(&self.builtin_commands, executables);
        self.trie = trie;
    }

    /// Answers a completion request for the partial word `partial` made at
    /// time `now`, in milliseconds. A single match completes with a space
    /// after it; several matches extend the word to their longest common
    /// prefix when that is longer. Otherwise the request is ambiguous: it shows
    /// every match when it comes within the window after the previous
    /// ambiguous request, and it becomes the reference for the next one.
    pub fn complete(&mut self, partial: &str, now: u64) -> (r: CompletionOutcome)
        ensures
            final(self).names() == old(self).names(),
            final(self).builtins() == old(self).builtins(),
            ({
                let m = names_with_prefix(old(self).names(), partial@);
                match r {
                    CompletionOutcome::NoMatch => {
                        &&& m == Set::<Seq<char>>::empty()
                        &&& final(self).last_ambiguous() == old(self).last_ambiguous()
                    },
                    CompletionOutcome::Complete(s) => {
                        &&& exists|w: Seq<char>| m == set![w] && s@ == w.push(' ')
                        &&& final(self).last_ambiguous() == old(self).last_ambiguous()
                    },
                    CompletionOutcome::ExtendPrefix(s) => {
                        &&& m != Set::<Seq<char>>::empty()
                        &&& !is_singleton(m)
                        &&& is_longest_common_prefix(s@, m)
                        &&& s@.len() > partial@.len()
                        &&& final(self).last_ambiguous() == old(self).last_ambiguous()
                    },
                    CompletionOutcome::Ambiguous => {
                        &&& m != Set::<Seq<char>>::empty()
                        &&& !is_singleton(m)
                        &&& is_longest_common_prefix(partial@, m)
                        &&& !within_window(old(self).last_ambiguous(), now)
                        &&& final(self).last_ambiguous() == Some(now)
                    },
                    CompletionOutcome::ShowAll(v) => {
                        &&& m != Set::<Seq<char>>::empty()
                        &&& !is_singleton(m)
                        &&& is_longest_common_prefix(partial@, m)
                        &&& within_window(old(self).last_ambiguous(), now)
                        &&& strictly_ascending(string_views(v@))
                        &&& string_views(v@).to_set() == m
                        &&& final(self).last_ambiguous() == Some(now)
                    },
                }
            }),
    {
        proof {
            use_type_invariant(&*self);
        }
        match self.trie.find_common_prefix(partial) {
            PrefixMatch::NoMatch => CompletionOutcome::NoMatch,
            PrefixMatch::Unique(s) => CompletionOutcome::Complete(s),
            PrefixMatch::CommonPrefix(s) => CompletionOutcome::ExtendPrefix(s),
            PrefixMatch::Ambiguous(all) => {
                let repeated = match self.last_ambiguous {
                    Some(t) => t <= now && now - t < DOUBLE_PRESS_WINDOW_MS,
                    None => false,
                };
                self.last_ambiguous = Some(now);
                if repeated {
                    CompletionOutcome::ShowAll(all)
                } else {
                    CompletionOutcome::Ambiguous
                }
            },
        }
    }
}

/// Refreshing twice from the same executable names leaves the same names as
/// refreshing once: `once` is `before` refreshed from `executables`, and
/// `twice` is `once` refreshed from them again.
pub proof fn lemma_refresh_idempotent(
    before: CompletionEngine,
    once: CompletionEngine,
    twice: CompletionEngine,
    executables: Seq<Seq<char>>,
)
    requires
        once.builtins() == before.builtins(),
        once.names() == refreshed_names(before.builtins(), executables),
        twice.builtins() == once.builtins(),
        twice.names() == refreshed_names(once.builtins(), executables),
    ensures
        twice.names() == once.names(),
{
}


/// Where the word that ends `s` starts, scanning from `i` with the word last
/// seen starting at `start`: a backslash hides the character after it, and an
/// unhidden blank starts a new word after itself.
pub open spec fn word_start_from(s: Seq<char>, i: int, start: int) -> int
    decreases s.len() - i,
{
    if i < 0 || i >= s.len() {
        start
    } else if s[i] == '\\' {
        if i + 1 < s.len() {
            word_start_from(s, i + 2, start)
        } else {
            start
        }
    } else if s[i] == ' ' || s[i] == '\t' {
        word_start_from(s, i + 1, i + 1)
    } else {
        word_start_from(s, i + 1, start)
    }
}

/// Where the word that ends `s` starts: just after its last blank that no
/// backslash escapes, or at its beginning.
pub open spec fn word_start(s: Seq<char>) -> int {
    word_start_from(s, 0, 0)
}

proof fn lemma_word_start_bounds(s: Seq<char>, i: int, start: int)
    requires
        0 <= start <= i <= s.len(),
    ensures
        start <= word_start_from(s, i, start) <= s.len(),
    decreases s.len() - i,
{
    if i < s.len() {
        if s[i] == '\\' {
            if i + 1 < s.len() {
                lemma_word_start_bounds(s, i + 2, start);
            }
        } else if s[i] == ' ' || s[i] == '\t' {
            lemma_word_start_bounds(s, i + 1, i + 1);
        } else {
            lemma_word_start_bounds(s, i + 1, start);
        }
    }
}

/// The word being typed when the text before the cursor is `before_cursor`:
/// what follows its last blank that no backslash escapes.
pub fn current_word(before_cursor: &str) -> (r: String)
    ensures
        0 <= word_start(before_cursor@) <= before_cursor@.len(),
        r@ == before_cursor@.subrange(word_start(before_cursor@), before_cursor@.len() as int),
{
    let cs = chars_of(before_cursor);
    let mut start: usize = 0;
    let mut i: usize = 0;
    while i < cs.len()
        invariant
            cs@ == before_cursor@,
            start <= i <= cs.len(),
            word_start(cs@) == word_start_from(cs@, i as int, start as int),
        decreases cs.len() - i,
    {
        if cs[i] == '\\' {
            if i + 1 < cs.len() {
                i = i + 2;
            } else {
                i = i + 1;
            }
        } else if cs[i] == ' ' || cs[i] == '\t' {
            i = i + 1;
            start = i;
        } else {
            i = i + 1;
        }
    }
    proof {
        lemma_word_start_bounds(cs@, 0, 0);
    }
    string_from(&cs, start)
}

} // verus!
