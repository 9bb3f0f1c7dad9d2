//! The dictionary index: a trie stored as a dense table of nodes addressed by
//! integer id, with node 0 as the root. Each node maps single letters to
//! child ids and carries a terminal flag marking the end of a stored word.
//!
//! The mathematical model is the set `words()` of character sequences whose
//! path from the root ends at a terminal node. A ghost map `paths` records,
//! for every node, the unique word spelled from the root to it; this is what
//! makes the structure a tree and lets `insert` claim it changed nothing but
//! the one word inserted.

use vstd::prelude::*;

verus! {

/// One trie node: its outgoing labelled edges and its terminal flag.
pub struct Node {
    /// Outgoing edges, each a letter together with the child node it reaches.
    /// At most one edge per letter.
    pub edges: Vec<(char, usize)>,
    /// True iff the path from the root to this node spells a stored word.
    pub terminal: bool,
}

/// The dictionary index. Node 0 is the root and always exists.
pub struct Trie {
    /// The dense node table; ids are indices into it and are never reused.
    pub nodes: Vec<Node>,
    /// For each node id, the word spelled by the unique root path to it.
    pub paths: Ghost<Map<int, Seq<char>>>,
}

/// No two edges of one node carry the same letter.
pub open spec fn edges_distinct(es: Seq<(char, usize)>) -> bool {
    forall|i: int, j: int| 0 <= i < j < es.len() ==> (#[trigger] es[i]).0 != (#[trigger] es[j]).0
}

/// Some edge of the node carries the letter `c`.
pub open spec fn has_edge(es: Seq<(char, usize)>, c: char) -> bool {
    exists|i: int| 0 <= i < es.len() && (#[trigger] es[i]).0 == c
}

/// The child reached through the edge carrying `c` (meaningful under
/// `has_edge` and `edges_distinct`).
pub open spec fn edge_target(es: Seq<(char, usize)>, c: char) -> int {
    let i = choose|i: int| 0 <= i < es.len() && (#[trigger] es[i]).0 == c;
    es[i].1 as int
}

/// Pushing an edge with a fresh letter keeps an edge list duplicate-free.
pub proof fn lemma_push_distinct(es: Seq<(char, usize)>, c: char, t: usize)
    requires
        edges_distinct(es),
        !has_edge(es, c),
    ensures
        edges_distinct(es.push((c, t))),
{
    let es2 = es.push((c, t));
    assert forall|i: int, j: int| 0 <= i < j < es2.len() implies (#[trigger] es2[i]).0 != (
    #[trigger] es2[j]).0 by {
        if j == es.len() {
            assert(es2[i] == es[i]);
            if es[i].0 == c {
                assert(has_edge(es, c));
            }
        } else {
            assert(es2[i] == es[i]);
            assert(es2[j] == es[j]);
        }
    }
}

/// Any edge carrying `c` in a duplicate-free edge list is the one
/// `edge_target` denotes.
pub proof fn lemma_edge_target_at(es: Seq<(char, usize)>, c: char, j: int)
    requires
        edges_distinct(es),
        0 <= j < es.len(),
        es[j].0 == c,
    ensures
        has_edge(es, c),
        edge_target(es, c) == es[j].1 as int,
{
    assert(has_edge(es, c));
    let i = choose|i: int| 0 <= i < es.len() && (#[trigger] es[i]).0 == c;
    assert(i == j);
}

/// Walks depend only on the edge structure: two tries with the same edges
/// walk alike, whatever their terminal flags or ghost state.
pub proof fn lemma_walk_same_edges(t1: Trie, t2: Trie, id: int, v: Seq<char>)
    requires
        t1.nodes@.len() == t2.nodes@.len(),
        forall|q: int|
            0 <= q < t1.nodes@.len() ==> (#[trigger] t2.nodes@[q]).edges@ == t1.nodes@[q].edges@,
    ensures
        t2.walk(id, v) == t1.walk(id, v),
    decreases v.len(),
{
    if v.len() != 0 {
        if t1.valid_id(id) {
            assert(t2.nodes@[id].edges@ == t1.nodes@[id].edges@);
        }
        assert(t2.step(id, v[0]) == t1.step(id, v[0]));
        match t1.step(id, v[0]) {
            Some(j) => {
                lemma_walk_same_edges(t1, t2, j, v.drop_first());
            }
            None => {}
        }
    }
}

/// Growing a trie by one fresh, edgeless, non-terminal node `f`, hung by a
/// previously absent letter `c` off the existing node `a`, preserves every
/// walk that succeeded before; and any walk that now succeeds either already
/// did, with the same result, or ends at `f`.
pub proof fn lemma_extend_walk(t1: Trie, t2: Trie, a: int, c: char, fresh: usize, id: int, v: Seq<char>)
    requires
        t1.wf(),
        t1.valid_id(a),
        !has_edge(t1.nodes@[a].edges@, c),
        fresh as nat == t1.nodes@.len(),
        t2.nodes@.len() == t1.nodes@.len() + 1,
        t2.nodes@[fresh as int].edges@.len() == 0,
        !t2.nodes@[fresh as int].terminal,
        t2.nodes@[a].edges@ == t1.nodes@[a].edges@.push((c, fresh)),
        t2.nodes@[a].terminal == t1.nodes@[a].terminal,
        forall|q: int| 0 <= q < t1.nodes@.len() && q != a ==> t2.nodes@[q] == t1.nodes@[q],
        t1.valid_id(id),
    ensures
        t1.walk(id, v) is Some ==> t2.walk(id, v) == t1.walk(id, v),
        t2.walk(id, v) is Some && t2.walk(id, v) != Some(fresh as int) ==> t1.walk(
            id,
            v,
        ) == t2.walk(id, v),
    decreases v.len(),
{
    let f: int = fresh as int;
    if v.len() == 0 {
        assert(id != f);
    } else {
        let c0 = v[0];
        let es1 = t1.nodes@[id].edges@;
        let es2 = t2.nodes@[id].edges@;
        if id == a {
            lemma_push_distinct(t1.nodes@[a].edges@, c, fresh);
            if c0 == c {
                assert(t1.step(id, c0) is None);
                assert(es2[es1.len() as int] == (c, fresh));
                lemma_edge_target_at(es2, c, es1.len() as int);
                assert(t2.step(id, c0) == Some(f));
                let rest = v.drop_first();
                if rest.len() == 0 {
                    assert(t2.walk(f, rest) == Some(f));
                } else {
                    assert(!has_edge(t2.nodes@[f].edges@, rest[0]));
                    assert(t2.walk(f, rest) is None);
                }
            } else {
                if has_edge(es1, c0) {
                    let i: int = choose|i: int|
                        0 <= i < es1.len() && (#[trigger] es1[i]).0 == c0;
                    lemma_edge_target_at(es1, c0, i);
                    assert(es2[i] == es1[i]);
                    lemma_edge_target_at(es2, c0, i);
                    let j: int = es1[i].1 as int;
                    assert(t1.step(id, c0) == Some(j));
                    assert(t2.step(id, c0) == Some(j));
                    assert(t1.valid_id(j));
                    lemma_extend_walk(t1, t2, a, c, fresh, j, v.drop_first());
                } else {
                    assert(!has_edge(es2, c0)) by {
                        if has_edge(es2, c0) {
                            let i: int = choose|i: int|
                                0 <= i < es2.len() && (#[trigger] es2[i]).0 == c0;
                            if i < es1.len() {
                                assert(es2[i] == es1[i]);
                                assert(has_edge(es1, c0));
                            } else {
                                assert(es2[i].0 == c);
                            }
                        }
                    }
                    assert(t1.step(id, c0) is None);
                    assert(t2.step(id, c0) is None);
                }
            }
        } else {
            assert(t2.nodes@[id] == t1.nodes@[id]);
            if has_edge(es1, c0) {
                let i: int = choose|i: int| 0 <= i < es1.len() && (#[trigger] es1[i]).0 == c0;
                lemma_edge_target_at(es1, c0, i);
                lemma_edge_target_at(es2, c0, i);
                let j: int = es1[i].1 as int;
                assert(t1.step(id, c0) == Some(j));
                assert(t2.step(id, c0) == Some(j));
                assert(t1.valid_id(j));
                lemma_extend_walk(t1, t2, a, c, fresh, j, v.drop_first());
            } else {
                assert(t1.step(id, c0) is None);
                assert(t2.step(id, c0) is None);
            }
        }
    }
}

impl Trie {
    /// Whether `id` names a node of the table.
    pub open spec fn valid_id(self, id: int) -> bool {
        0 <= id < self.nodes@.len()
    }

    /// Whether the node `id` exists and is terminal.
    pub open spec fn terminal_at(self, id: int) -> bool {
        self.valid_id(id) && self.nodes@[id].terminal
    }

    /// One traversal step: the child of `id` along the letter `c`, or `None`
    /// where `id` is out of range or has no such edge.
    pub open spec fn step(self, id: int, c: char) -> Option<int> {
        if self.valid_id(id) && has_edge(self.nodes@[id].edges@, c) {
            Some(edge_target(self.nodes@[id].edges@, c))
        } else {
            None
        }
    }

    /// The node reached from `id` by following `w` letter by letter.
    pub open spec fn walk(self, id: int, w: Seq<char>) -> Option<int>
        decreases w.len(),
    {
        if w.len() == 0 {
            Some(id)
        } else {
            match self.step(id, w[0]) {
                Some(j) => self.walk(j, w.drop_first()),
                None => None,
            }
        }
    }

    /// Whether the trie accepts `w`: the root path along `w` exists and ends
    /// at a terminal node.
    pub open spec fn accepts(self, w: Seq<char>) -> bool {
        match self.walk(0, w) {
            Some(id) => self.terminal_at(id),
            None => false,
        }
    }

    /// The set of words the trie holds: its mathematical model.
    pub open spec fn words(self) -> Set<Seq<char>> {
        Set::new(|w: Seq<char>| self.accepts(w))
    }

    /// Well-formedness: the root exists; edges are duplicate-free and stay in
    /// range; and the ghost `paths` map gives every node the word of its
    /// unique root path, consistently along every edge.
    pub open spec fn wf(self) -> bool {
        &&& self.nodes@.len() >= 1
        &&& self.paths@[0] == Seq::<char>::empty()
        &&& forall|id: int|
            self.valid_id(id) ==> edges_distinct((#[trigger] self.nodes@[id]).edges@)
        &&& forall|id: int, k: int|
            self.valid_id(id) && 0 <= k < self.nodes@[id].edges@.len() ==> (
            #[trigger] self.nodes@[id].edges@[k]).1 < self.nodes@.len()
        &&& forall|id: int, k: int|
            self.valid_id(id) && 0 <= k < self.nodes@[id].edges@.len()
                ==> self.paths@[(#[trigger] self.nodes@[id].edges@[k]).1 as int]
                == self.paths@[id].push(self.nodes@[id].edges@[k].0)
        &&& forall|id: int|
            self.valid_id(id) ==> self.walk(0, #[trigger] self.paths@[id]) == Some(id)
    }

    /// Membership in `words()` is exactly acceptance.
    pub proof fn lemma_words_contains(self, w: Seq<char>)
        ensures
            self.words().contains(w) <==> self.accepts(w),
    {
    }

    /// A step under well-formedness reaches a valid node whose path extends
    /// the source's path by the letter stepped on.
    pub proof fn lemma_step_path(self, id: int, c: char, j: int)
        requires
            self.wf(),
            self.valid_id(id),
            self.step(id, c) == Some(j),
        ensures
            self.valid_id(j),
            self.paths@[j] == self.paths@[id].push(c),
    {
        let es = self.nodes@[id].edges@;
        let i = choose|i: int| 0 <= i < es.len() && (#[trigger] es[i]).0 == c;
        assert(self.nodes@[id].edges@[i].1 < self.nodes@.len());
        assert(self.paths@[es[i].1 as int] == self.paths@[id].push(es[i].0));
    }

    /// Splitting a walk: following `u + v` is following `u`, then `v`.
    pub proof fn lemma_walk_append(self, id: int, u: Seq<char>, v: Seq<char>)
        ensures
            self.walk(id, u + v) == match self.walk(id, u) {
                Some(m) => self.walk(m, v),
                None => None,
            },
        decreases u.len(),
    {
        if u.len() == 0 {
            assert(u + v =~= v);
        } else {
            assert((u + v)[0] == u[0]);
            match self.step(id, u[0]) {
                Some(j) => {
                    assert((u + v).drop_first() =~= u.drop_first() + v);
                    self.lemma_walk_append(j, u.drop_first(), v);
                }
                None => {
                    assert((u + v).len() > 0);
                }
            }
        }
    }

    /// Extending a walk by one letter is one further step.
    pub proof fn lemma_walk_snoc(self, id: int, u: Seq<char>, c: char)
        ensures
            self.walk(id, u.push(c)) == match self.walk(id, u) {
                Some(m) => self.step(m, c),
                None => None,
            },
    {
        self.lemma_walk_append(id, u, seq![c]);
        assert(u.push(c) =~= u + seq![c]);
        if let Some(m) = self.walk(id, u) {
            assert(seq![c].len() == 1);
            assert(seq![c][0] == c);
            assert(seq![c].drop_first() =~= Seq::<char>::empty());
            match self.step(m, c) {
                Some(j) => {
                    assert(self.walk(j, seq![c].drop_first()) == Some(j));
                    assert(self.walk(m, seq![c]) == Some(j));
                }
                None => {}
            }
        }
    }

    /// Under well-formedness a successful walk ends at a valid node whose
    /// path is the source's path followed by the letters walked.
    pub proof fn lemma_walk_path(self, id: int, w: Seq<char>, k: int)
        requires
            self.wf(),
            self.valid_id(id),
            self.walk(id, w) == Some(k),
        ensures
            self.valid_id(k),
            self.paths@[k] == self.paths@[id] + w,
        decreases w.len(),
    {
        if w.len() == 0 {
            assert(k == id);
            assert(self.paths@[id] + w =~= self.paths@[id]);
        } else {
            let j = match self.step(id, w[0]) {
                Some(j) => j,
                None => 0,
            };
            self.lemma_step_path(id, w[0], j);
            self.lemma_walk_path(j, w.drop_first(), k);
            assert(self.paths@[id].push(w[0]) + w.drop_first() =~= self.paths@[id] + w);
        }
    }

    /// From the root, a successful walk along `w` ends at the node whose
    /// recorded path is `w` itself: root paths are unique.
    pub proof fn lemma_root_walk_path(self, w: Seq<char>, k: int)
        requires
            self.wf(),
            self.walk(0, w) == Some(k),
        ensures
            self.valid_id(k),
            self.paths@[k] == w,
    {
        self.lemma_walk_path(0, w, k);
        assert(Seq::<char>::empty() + w =~= w);
    }

    /// An empty trie: a lone, non-terminal root, holding no words.
    pub fn new() -> (t: Trie)
        ensures
            t.wf(),
            t.words() == Set::<Seq<char>>::empty(),
            t.nodes@.len() == 1,
            t.nodes@[0].edges@.len() == 0,
            !t.nodes@[0].terminal,
    {
        let root = Node { edges: Vec::new(), terminal: false };
        let t = Trie {
            nodes: vec![root],
            paths: Ghost(Map::<int, Seq<char>>::empty().insert(0, Seq::empty())),
        };
        proof {
            assert(t.nodes@.len() == 1);
            assert(t.nodes@[0].edges@.len() == 0);
            assert forall|w: Seq<char>| !t.accepts(w) by {
                if w.len() == 0 {
                    assert(t.walk(0, w) == Some(0int));
                    assert(!t.nodes@[0].terminal);
                } else {
                    assert(!has_edge(t.nodes@[0].edges@, w[0]));
                    assert(t.walk(0, w) is None);
                }
            }
            assert(t.words() =~= Set::<Seq<char>>::empty());
        }
        t
    }

    /// The child reached from `node_id` through `letter`, or `None` where no
    /// such edge exists. An out-of-range `node_id` yields `None` rather than
    /// an error, so a search may probe defensively.
    pub fn next_node(&self, node_id: usize, letter: char) -> (r: Option<usize>)
        requires
            self.wf(),
        ensures
            match r {
                Some(j) => self.step(node_id as int, letter) == Some(j as int) && self.valid_id(
                    j as int,
                ),
                None => self.step(node_id as int, letter) is None,
            },
    {
        if node_id >= self.nodes.len() {
            return None;
        }
        let edges = &self.nodes[node_id].edges;
        let mut k: usize = 0;
        while k < edges.len()
            invariant
                self.wf(),
                node_id < self.nodes@.len(),
                edges@ == self.nodes@[node_id as int].edges@,
                k <= edges@.len(),
                forall|m: int| 0 <= m < k ==> (#[trigger] edges@[m]).0 != letter,
            decreases edges@.len() - k,
        {
            let (ec, et): (char, usize) = edges[k];
            if ec == letter {
                proof {
                    lemma_edge_target_at(edges@, letter, k as int);
                    assert(self.nodes@[node_id as int].edges@[k as int].1 < self.nodes@.len());
                }
                return Some(et);
            }
            k += 1;
        }
        proof {
            assert(!has_edge(edges@, letter));
        }
        None
    }

    /// Whether `node_id` names a terminal node; false, not an error, for an
    /// out-of-range id.
    pub fn is_terminal(&self, node_id: usize) -> (r: bool)
        ensures
            r == self.terminal_at(node_id as int),
    {
        node_id < self.nodes.len() && self.nodes[node_id].terminal
    }

    /// Stores `word`, following existing edges and creating fresh nodes for
    /// the missing tail, then marks the final node terminal. The index gains
    /// exactly that one word. The node table is append-only: existing nodes
    /// keep their ids, their edges (new ones are only added after them) and
    /// their set terminal flags, and at most one node is allocated per
    /// character. Re-inserting a stored word leaves the structure unchanged.
    pub fn insert(&mut self, word: &str)
        requires
            old(self).wf(),
        ensures
            final(self).wf(),
            final(self).words() == old(self).words().insert(word@),
            old(self).nodes@.len() <= final(self).nodes@.len() <= old(self).nodes@.len()
                + word@.len(),
            forall|q: int|
                0 <= q < old(self).nodes@.len() ==> (#[trigger] old(
                    self,
                ).nodes@[q]).edges@.is_prefix_of(final(self).nodes@[q].edges@) && (old(
                    self,
                ).nodes@[q].terminal ==> final(self).nodes@[q].terminal),
            old(self).words().contains(word@) ==> final(self).nodes@ == old(self).nodes@
                && final(self).paths@ == old(self).paths@,
    {
        let n: usize = word.unicode_len();
        let mut id: usize = 0;
        let mut i: usize = 0;
        while i < n
            invariant
                self.wf(),
                n == word@.len(),
                i <= n,
                self.valid_id(id as int),
                self.walk(0, word@.take(i as int)) == Some(id as int),
                forall|v: Seq<char>| #[trigger] self.accepts(v) == old(self).accepts(v),
                old(self).nodes@.len() <= self.nodes@.len() <= old(self).nodes@.len() + i,
                forall|q: int|
                    0 <= q < old(self).nodes@.len() ==> (#[trigger] old(
                        self,
                    ).nodes@[q]).edges@.is_prefix_of(self.nodes@[q].edges@) && old(
                        self,
                    ).nodes@[q].terminal == self.nodes@[q].terminal,
                old(self).accepts(word@) ==> self.nodes@ == old(self).nodes@ && self.paths@
                    == old(self).paths@,
            decreases n - i,
        {
            let c = word.get_char(i);
            proof {
                self.lemma_walk_snoc(0, word@.take(i as int), c);
                assert(word@.take(i as int).push(c) =~= word@.take(i + 1));
            }
            match self.next_node(id, c) {
                Some(j) => {
                    id = j;
                }
                None => {
                    let f: usize = self.nodes.len();
                    let ghost t1 = *self;
                    self.nodes.push(Node { edges: Vec::new(), terminal: false });
                    self.paths = Ghost(
                        self.paths@.insert(f as int, self.paths@[id as int].push(c)),
                    );
                    self.nodes[id].edges.push((c, f));
                    proof {
                        let a: int = id as int;
                        let fi: int = f as int;
                        let t2 = *self;
                        assert(t2.nodes@.len() == t1.nodes@.len() + 1);
                        assert(t2.nodes@[fi].edges@.len() == 0);
                        assert(!t2.nodes@[fi].terminal);
                        assert(t2.nodes@[a].edges@ == t1.nodes@[a].edges@.push((c, f)));
                        assert(t2.nodes@[a].terminal == t1.nodes@[a].terminal);
                        assert(forall|q: int|
                            0 <= q < t1.nodes@.len() && q != a ==> t2.nodes@[q] == t1.nodes@[q]);
                        assert(!has_edge(t1.nodes@[a].edges@, c));
                        assert(t2.paths@ == t1.paths@.insert(fi, t1.paths@[a].push(c)));
                        lemma_push_distinct(t1.nodes@[a].edges@, c, f);
                        lemma_edge_target_at(
                            t2.nodes@[a].edges@,
                            c,
                            t1.nodes@[a].edges@.len() as int,
                        );
                        assert(t2.step(a, c) == Some(fi));

                        // well-formedness of the grown trie
                        assert forall|q: int| t2.valid_id(q) implies edges_distinct(
                            (#[trigger] t2.nodes@[q]).edges@,
                        ) by {
                            if q != a && q != fi {
                                assert(t2.nodes@[q] == t1.nodes@[q]);
                                assert(edges_distinct(t1.nodes@[q].edges@));
                            }
                        }
                        assert forall|q: int, k: int|
                            t2.valid_id(q) && 0 <= k < t2.nodes@[q].edges@.len() implies (
                        #[trigger] t2.nodes@[q].edges@[k]).1 < t2.nodes@.len() by {
                            if q == a {
                                if k < t1.nodes@[a].edges@.len() {
                                    assert(t2.nodes@[a].edges@[k] == t1.nodes@[a].edges@[k]);
                                    assert(t1.nodes@[a].edges@[k].1 < t1.nodes@.len());
                                }
                            } else if q != fi {
                                assert(t2.nodes@[q] == t1.nodes@[q]);
                                assert(t1.nodes@[q].edges@[k].1 < t1.nodes@.len());
                            }
                        }
                        assert forall|q: int, k: int|
                            t2.valid_id(q) && 0 <= k < t2.nodes@[q].edges@.len()
                            implies t2.paths@[(#[trigger] t2.nodes@[q].edges@[k]).1 as int]
                            == t2.paths@[q].push(t2.nodes@[q].edges@[k].0) by {
                            if q == a {
                                if k < t1.nodes@[a].edges@.len() {
                                    assert(t2.nodes@[a].edges@[k] == t1.nodes@[a].edges@[k]);
                                    assert(t1.paths@[t1.nodes@[a].edges@[k].1 as int]
                                        == t1.paths@[a].push(t1.nodes@[a].edges@[k].0));
                                    assert(t1.nodes@[a].edges@[k].1 < t1.nodes@.len());
                                } else {
                                    assert(t2.nodes@[a].edges@[k] == (c, f));
                                }
                            } else if q != fi {
                                assert(t2.nodes@[q] == t1.nodes@[q]);
                                assert(t1.paths@[t1.nodes@[q].edges@[k].1 as int]
                                    == t1.paths@[q].push(t1.nodes@[q].edges@[k].0));
                                assert(t1.nodes@[q].edges@[k].1 < t1.nodes@.len());
                            }
                        }
                        assert forall|q: int| t2.valid_id(q) implies t2.walk(
                            0,
                            #[trigger] t2.paths@[q],
                        ) == Some(q) by {
                            if q == fi {
                                lemma_extend_walk(t1, t2, a, c, f, 0, t1.paths@[a]);
                                assert(t1.walk(0, t1.paths@[a]) == Some(a));
                                assert(t2.walk(0, t1.paths@[a]) == Some(a));
                                t2.lemma_walk_snoc(0, t1.paths@[a], c);
                                assert(t2.paths@[fi] == t1.paths@[a].push(c));
                            } else {
                                lemma_extend_walk(t1, t2, a, c, f, 0, t1.paths@[q]);
                                assert(t1.walk(0, t1.paths@[q]) == Some(q));
                                assert(t2.paths@[q] == t1.paths@[q]);
                            }
                        }
                        assert(t2.paths@[0] == Seq::<char>::empty());
                        assert(t2.wf());

                        // the set of accepted words is untouched
                        assert forall|v: Seq<char>| #[trigger] t2.accepts(v) == old(
                            self,
                        ).accepts(v) by {
                            lemma_extend_walk(t1, t2, a, c, f, 0, v);
                            match t1.walk(0, v) {
                                Some(k) => {
                                    t1.lemma_walk_path(0, v, k);
                                    assert(t2.walk(0, v) == Some(k));
                                    assert(k != fi);
                                    if k != a {
                                        assert(t2.nodes@[k] == t1.nodes@[k]);
                                    }
                                    assert(t2.terminal_at(k) == t1.terminal_at(k));
                                }
                                None => {
                                    if t2.walk(0, v) is Some {
                                        assert(t2.walk(0, v) == Some(fi));
                                        assert(!t2.terminal_at(fi));
                                    }
                                }
                            }
                            assert(t2.accepts(v) == t1.accepts(v));
                            assert(t1.accepts(v) == old(self).accepts(v));
                        }

                        // the table only grew: old nodes keep edges and flags
                        assert forall|q: int|
                            0 <= q < old(self).nodes@.len() implies (#[trigger] old(
                            self,
                        ).nodes@[q]).edges@.is_prefix_of(t2.nodes@[q].edges@) && old(
                            self,
                        ).nodes@[q].terminal == t2.nodes@[q].terminal by {
                            let oe = old(self).nodes@[q].edges@;
                            if q == a {
                                assert(oe.is_prefix_of(t1.nodes@[a].edges@));
                                assert(t2.nodes@[a].edges@.subrange(0, oe.len() as int)
                                    =~= t1.nodes@[a].edges@.subrange(0, oe.len() as int));
                                assert(oe.is_prefix_of(t2.nodes@[a].edges@));
                            } else {
                                assert(t2.nodes@[q] == t1.nodes@[q]);
                            }
                        }

                        // a stored word never reaches this branch: its whole
                        // path already exists
                        if old(self).accepts(word@) {
                            assert(t1.nodes@ == old(self).nodes@);
                            assert(forall|q: int|
                                0 <= q < t1.nodes@.len() ==> (#[trigger] old(
                                    self,
                                ).nodes@[q]).edges@ == t1.nodes@[q].edges@);
                            assert(t1.walk(0, word@.take(i + 1)) is None);
                            lemma_walk_same_edges(t1, *old(self), 0, word@.take(i + 1));
                            assert(old(self).walk(0, word@.take(i + 1)) is None);
                            old(self).lemma_walk_append(0, word@.take(i + 1), word@.skip(i + 1));
                            assert(word@.take(i + 1) + word@.skip(i + 1) =~= word@);
                            assert(old(self).walk(0, word@) is None);
                            assert(false);
                        }

                        // the walk now continues into the fresh node
                        lemma_extend_walk(t1, t2, a, c, f, 0, word@.take(i as int));
                        t2.lemma_walk_snoc(0, word@.take(i as int), c);
                        assert(word@.take(i as int).push(c) =~= word@.take(i + 1));
                        assert(t2.walk(0, word@.take(i + 1)) == Some(fi));
                    }
                    id = f;
                }
            }
            i += 1;
        }
        proof {
            assert(word@.take(n as int) =~= word@);
        }
        let ghost t2 = *self;
        self.nodes[id].terminal = true;
        proof {
            let a: int = id as int;
            let t3 = *self;
            t2.lemma_root_walk_path(word@, a);
            assert(t2.paths@[a] == word@);
            assert(forall|q: int|
                0 <= q < t2.nodes@.len() && q != a ==> t3.nodes@[q] == t2.nodes@[q]);
            assert(t3.nodes@[a].edges@ == t2.nodes@[a].edges@);
            assert(t3.nodes@[a].terminal);
            assert(t3.paths@ == t2.paths@);
            assert forall|q: int|
                0 <= q < t2.nodes@.len() implies (#[trigger] t3.nodes@[q]).edges@
                == t2.nodes@[q].edges@ by {}

            // well-formedness survives flipping one terminal flag
            assert forall|q: int| t3.valid_id(q) implies edges_distinct(
                (#[trigger] t3.nodes@[q]).edges@,
            ) by {
                assert(edges_distinct(t2.nodes@[q].edges@));
            }
            assert forall|q: int, k: int|
                t3.valid_id(q) && 0 <= k < t3.nodes@[q].edges@.len() implies (
            #[trigger] t3.nodes@[q].edges@[k]).1 < t3.nodes@.len() by {
                assert(t2.nodes@[q].edges@[k].1 < t2.nodes@.len());
            }
            assert forall|q: int, k: int|
                t3.valid_id(q) && 0 <= k < t3.nodes@[q].edges@.len()
                implies t3.paths@[(#[trigger] t3.nodes@[q].edges@[k]).1 as int]
                == t3.paths@[q].push(t3.nodes@[q].edges@[k].0) by {
                assert(t2.paths@[t2.nodes@[q].edges@[k].1 as int] == t2.paths@[q].push(
                    t2.nodes@[q].edges@[k].0,
                ));
            }
            assert forall|q: int| t3.valid_id(q) implies t3.walk(0, #[trigger] t3.paths@[q])
                == Some(q) by {
                lemma_walk_same_edges(t2, t3, 0, t2.paths@[q]);
                assert(t2.walk(0, t2.paths@[q]) == Some(q));
            }
            assert(t3.wf());

            // exactly the inserted word was gained
            assert forall|v: Seq<char>| #[trigger] t3.accepts(v) == (old(self).accepts(v) || v
                == word@) by {
                lemma_walk_same_edges(t2, t3, 0, v);
                match t2.walk(0, v) {
                    Some(k) => {
                        t2.lemma_root_walk_path(v, k);
                        if k == a {
                            assert(v == word@);
                            assert(t3.terminal_at(k));
                        } else {
                            assert(t3.nodes@[k] == t2.nodes@[k]);
                            assert(t3.terminal_at(k) == t2.terminal_at(k));
                        }
                    }
                    None => {
                        assert(t3.walk(0, v) is None);
                        assert(t2.walk(0, word@) == Some(a));
                        assert(v != word@);
                    }
                }
                assert(t2.accepts(v) == old(self).accepts(v));
            }
            assert forall|v: Seq<char>| t3.words().contains(v) == old(self).words().insert(
                word@,
            ).contains(v) by {
                assert(t3.accepts(v) == (old(self).accepts(v) || v == word@));
            }
            assert(t3.words() =~= old(self).words().insert(word@));

            // the node-structure clauses carry through the terminal flip
            assert forall|q: int|
                0 <= q < old(self).nodes@.len() implies (#[trigger] old(
                self,
            ).nodes@[q]).edges@.is_prefix_of(t3.nodes@[q].edges@) && (old(
                self,
            ).nodes@[q].terminal ==> t3.nodes@[q].terminal) by {
                assert(t3.nodes@[q].edges@ == t2.nodes@[q].edges@);
                assert(old(self).nodes@[q].edges@.is_prefix_of(t2.nodes@[q].edges@));
                if q != a {
                    assert(t3.nodes@[q] == t2.nodes@[q]);
                }
            }

            // re-inserting a stored word flips a flag that is already set:
            // the structure is unchanged
            if old(self).words().contains(word@) {
                old(self).lemma_words_contains(word@);
                assert(old(self).accepts(word@));
                assert(t2.nodes@ == old(self).nodes@);
                assert(t2.paths@ == old(self).paths@);
                assert(forall|q: int|
                    0 <= q < t2.nodes@.len() ==> (#[trigger] old(self).nodes@[q]).edges@
                        == t2.nodes@[q].edges@);
                lemma_walk_same_edges(t2, *old(self), 0, word@);
                assert(t2.walk(0, word@) == Some(a));
                assert(old(self).walk(0, word@) == Some(a));
                assert(old(self).nodes@[a].terminal);
                assert(t2.nodes@[a].terminal);
                assert(t3.nodes@[a].edges == t2.nodes@[a].edges);
                assert(t3.nodes@[a] == t2.nodes@[a]);
                assert(t3.nodes@ =~= t2.nodes@);
                assert(t3.paths@ == t2.paths@);
            }
        }
    }

    /// Exact membership: whether `word` was stored in the index.
    pub fn contains(&self, word: &str) -> (r: bool)
        requires
            self.wf(),
        ensures
            r == self.words().contains(word@),
    {
        let n: usize = word.unicode_len();
        let mut id: usize = 0;
        let mut i: usize = 0;
        while i < n
            invariant
                self.wf(),
                n == word@.len(),
                i <= n,
                self.valid_id(id as int),
                self.walk(0, word@.take(i as int)) == Some(id as int),
            decreases n - i,
        {
            let c = word.get_char(i);
            proof {
                self.lemma_walk_snoc(0, word@.take(i as int), c);
                assert(word@.take(i as int).push(c) =~= word@.take(i + 1));
            }
            match self.next_node(id, c) {
                Some(j) => {
                    id = j;
                }
                None => {
                    proof {
                        assert(self.walk(0, word@.take(i + 1)) is None);
                        self.lemma_walk_append(0, word@.take(i + 1), word@.skip(i + 1));
                        assert(word@.take(i + 1) + word@.skip(i + 1) =~= word@);
                        assert(!self.accepts(word@));
                    }
                    return false;
                }
            }
            i += 1;
        }
        proof {
            assert(word@.take(n as int) =~= word@);
        }
        self.is_terminal(id)
    }
}

} // verus!
