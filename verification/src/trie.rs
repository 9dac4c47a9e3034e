//! A trie of the token sequences of labels.

use crate::label_map::LabelMap;
use crate::scoring;
use crate::text;
use vstd::prelude::*;

verus! {

/// A node in the [`LabelTrie`].
#[derive(Debug)]
pub struct TrieNode {
    /// Child nodes with the token that leads to each.
    pub children: Vec<(String, TrieNode)>,
    /// Whether this node marks the end of a label token sequence.
    pub is_terminal: bool,
    /// The label, if this is a terminal node.
    pub label: Option<String>,
}

/// What a node says of the path that leads to it.
pub struct Mark {
    pub is_terminal: bool,
    pub label: Option<Seq<char>>,
}

impl TrieNode {
    /// The tokens that lead to children.
    pub open spec fn tokens(self) -> Seq<Seq<char>> {
        self.children@.map_values(|c: (String, TrieNode)| c.0@)
    }

    /// The child that `token` leads to.
    pub open spec fn child(self, token: Seq<char>) -> Option<TrieNode> {
        if self.tokens().contains(token) {
            Some(self.children@[self.tokens().index_of(token)].1)
        } else {
            None
        }
    }

    /// The node at the end of `path`.
    pub open spec fn at(self, path: Seq<Seq<char>>) -> Option<TrieNode>
        decreases path.len(),
    {
        if path.len() == 0 {
            Some(self)
        } else {
            match self.child(path[0]) {
                Some(c) => c.at(path.drop_first()),
                None => None,
            }
        }
    }

    /// The mark at the end of `path`; a path that is not there has none.
    pub open spec fn mark(self, path: Seq<Seq<char>>) -> Mark {
        match self.at(path) {
            Some(node) => Mark {
                is_terminal: node.is_terminal,
                label: match node.label {
                    Some(l) => Some(l@),
                    None => None,
                },
            },
            None => Mark { is_terminal: false, label: None },
        }
    }

    /// A path is followed by following all but its last token first.
    pub proof fn lemma_at_push(self, path: Seq<Seq<char>>, token: Seq<char>)
        ensures
            self.at(path.push(token)) == match self.at(path) {
                Some(node) => node.child(token),
                None => None,
            },
        decreases path.len(),
    {
        let long = path.push(token);
        if path.len() == 0 {
            assert(long.drop_first() =~= Seq::<Seq<char>>::empty());
            match self.child(token) {
                Some(c) => assert(c.at(Seq::empty()) == Some(c)),
                None => {},
            }
        } else {
            assert(long.drop_first() =~= path.drop_first().push(token));
            match self.child(path[0]) {
                Some(c) => c.lemma_at_push(path.drop_first(), token),
                None => {},
            }
        }
    }

    /// At every node, each token leads to one child.
    pub open spec fn wf(self) -> bool {
        forall|path: Seq<Seq<char>>|
            (#[trigger] self.at(path)) matches Some(node) ==> node.tokens().no_duplicates()
    }

    /// A child of a well-formed node is well-formed.
    proof fn lemma_child_wf(self, token: Seq<char>)
        requires
            self.wf(),
            self.child(token) is Some,
        ensures
            self.child(token)->0.wf(),
    {
        let c = self.child(token)->0;
        assert forall|path: Seq<Seq<char>>| (#[trigger] c.at(path)) matches Some(node) implies
            c.at(path)->0.tokens().no_duplicates() by {
            let long = seq![token] + path;
            assert(long.drop_first() =~= path);
            assert(self.at(long) == c.at(path));
        }
    }

    /// The child at position `i` is the one its token leads to.
    proof fn lemma_child_at(self, i: int)
        requires
            self.tokens().no_duplicates(),
            0 <= i < self.children@.len(),
        ensures
            self.child(self.tokens()[i]) == Some(self.children@[i].1),
    {
        let t = self.tokens()[i];
        assert(self.tokens().contains(t));
        assert(self.tokens()[self.tokens().index_of(t)] == t);
    }

    /// A node without children or mark.
    pub fn new() -> (r: Self)
        ensures
            r.children@.len() == 0,
            !r.is_terminal,
            r.label is None,
            r.wf(),
            forall|path: Seq<Seq<char>>| (#[trigger] r.at(path)) is Some <==> path.len() == 0,
    {
        let r = TrieNode { children: Vec::new(), is_terminal: false, label: None };
        proof {
            assert forall|path: Seq<Seq<char>>| (#[trigger] r.at(path)) is Some <==> path.len()
                == 0 by {
                if path.len() > 0 {
                    assert(!r.tokens().contains(path[0]));
                }
            }
        }
        r
    }

    /// The position of the child that `token` leads to.
    fn position(&self, token: &String) -> (r: Option<usize>)
        ensures
            match r {
                Some(i) => i < self.children@.len() && self.tokens()[i as int] == token@,
                None => !self.tokens().contains(token@),
            },
    {
        let n: usize = self.children.len();
        for i in 0..n
            invariant
                n == self.children@.len(),
                forall|j: int| 0 <= j < i ==> #[trigger] self.tokens()[j] != token@,
        {
            if self.children[i].0 == *token {
                return Some(i);
            }
        }
        None
    }

    /// The child that `token` leads to.
    pub fn get_child(&self, token: &String) -> (r: Option<&TrieNode>)
        requires
            self.wf(),
        ensures
            match r {
                Some(c) => self.child(token@) == Some(*c) && c.wf(),
                None => self.child(token@) is None,
            },
    {
        match self.position(token) {
            Some(i) => {
                proof {
                    assert(self.at(Seq::empty()) == Some(*self));
                    self.lemma_child_at(i as int);
                    self.lemma_child_wf(token@);
                }
                Some(&self.children[i].1)
            },
            None => None,
        }
    }

    /// Adds the path `tokens[start..]` and marks its end with `label`.
    fn insert_path(&mut self, label: &str, tokens: &[String], start: usize)
        requires
            old(self).wf(),
            start <= tokens@.len(),
        ensures
            final(self).wf(),
            forall|path: Seq<Seq<char>>|
                (#[trigger] final(self).at(path)) is Some <==> (old(self).at(path) is Some
                    || path.is_prefix_of(text::texts(tokens@).skip(start as int))),
            forall|path: Seq<Seq<char>>| #[trigger]
                final(self).mark(path) == if path == text::texts(tokens@).skip(start as int) {
                    Mark { is_terminal: true, label: Some(label@) }
                } else {
                    old(self).mark(path)
                },
        decreases tokens@.len() - start,
    {
        let ghost before = *self;
        let ghost rest = text::texts(tokens@).skip(start as int);
        if start == tokens.len() {
            self.is_terminal = true;
            self.label = Some(label.to_owned());
            proof {
                let after = *self;
                assert(rest =~= Seq::<Seq<char>>::empty());
                assert(after.tokens() =~= before.tokens());
                assert forall|path: Seq<Seq<char>>| path.len() > 0 implies #[trigger] after.at(path)
                    == before.at(path) by {
                    assert(after.child(path[0]) == before.child(path[0]));
                }
                assert(before.at(Seq::empty()) == Some(before));
                assert forall|path: Seq<Seq<char>>|
                    (#[trigger] after.at(path)) matches Some(node) implies after.at(
                    path,
                )->0.tokens().no_duplicates() by {
                    if path.len() > 0 {
                        assert(after.at(path) == before.at(path));
                    }
                }
                assert forall|path: Seq<Seq<char>>| #[trigger] after.mark(path) == if path == rest {
                    Mark { is_terminal: true, label: Some(label@) }
                } else {
                    before.mark(path)
                } by {
                    if path.len() > 0 {
                        assert(after.at(path) == before.at(path));
                    } else {
                        assert(path =~= rest);
                    }
                }
            }
        } else {
            let token = tokens[start].clone();
            let ghost t = token@;
            proof {
                assert(before.at(Seq::empty()) == Some(before));
                assert(rest[0] == t);
                assert(rest.drop_first() =~= text::texts(tokens@).skip(start + 1));
            }
            let i: usize = match self.position(&token) {
                Some(i) => i,
                None => {
                    let node = TrieNode::new();
                    self.children.push((token, node));
                    self.children.len() - 1
                },
            };
            let ghost grown = *self;
            proof {
                if before.tokens().contains(t) {
                    assert(grown == before);
                } else {
                    assert(grown.tokens() =~= before.tokens().push(t));
                }
                assert(grown.tokens().no_duplicates());
                grown.lemma_child_at(i as int);
                if !before.tokens().contains(t) {
                    assert(grown.children@.drop_last() =~= before.children@);
                    lemma_grown(before, grown, t);
                }
                grown.lemma_child_wf(t);
            }
            let ghost old_child = self.children@[i as int].1;
            let (key, mut child) = self.children.remove(i);
            child.insert_path(label, tokens, start + 1);
            let ghost new_child = child;
            self.children.insert(i, (key, child));
            proof {
                let after = *self;
                assert(after.tokens() =~= grown.tokens());
                after.lemma_child_at(i as int);
                assert forall|u: Seq<char>| u != t implies #[trigger] after.child(u) == grown.child(
                    u,
                ) by {
                    if after.tokens().contains(u) {
                        let j = after.tokens().index_of(u);
                        assert(after.tokens()[j] == u);
                        assert(grown.tokens()[j] == u);
                        grown.lemma_child_at(j);
                        after.lemma_child_at(j);
                        assert(after.children@[j] == grown.children@[j]);
                    }
                }
                assert forall|path: Seq<Seq<char>>|
                    (#[trigger] after.at(path)) matches Some(node) implies after.at(
                    path,
                )->0.tokens().no_duplicates() by {
                    if path.len() > 0 {
                        if path[0] == t {
                            assert(new_child.at(path.drop_first()) is Some);
                        } else {
                            assert(after.at(path) == grown.at(path));
                        }
                    }
                }
                assert forall|path: Seq<Seq<char>>|
                    (#[trigger] after.at(path)) is Some <==> (before.at(path) is Some
                        || path.is_prefix_of(rest)) by {
                    if path.len() > 0 {
                        let tail = path.drop_first();
                        if path[0] == t {
                            assert(after.at(path) == new_child.at(tail));
                            assert(grown.at(path) == old_child.at(tail));
                            lemma_prefix_step(path, rest);
                            if path == seq![t] {
                                assert(path.is_prefix_of(rest));
                            }
                        } else {
                            assert(after.at(path) == grown.at(path));
                            if path.is_prefix_of(rest) {
                                assert(path[0] == rest[0]);
                            }
                        }
                    } else {
                        assert(path.is_prefix_of(rest));
                    }

                }
                assert forall|path: Seq<Seq<char>>| #[trigger] after.mark(path) == if path == rest {
                    Mark { is_terminal: true, label: Some(label@) }
                } else {
                    before.mark(path)
                } by {
                    assert(grown.mark(path) == before.mark(path)) by {
                        assert(grown.at(path) is Some || before.at(path) is None);
                    }
                    if path.len() > 0 && path[0] == t {
                        assert(after.mark(path) == new_child.mark(path.drop_first()));
                        assert(grown.mark(path) == old_child.mark(path.drop_first()));
                        if path.drop_first() == rest.drop_first() {
                            assert(path =~= seq![t] + path.drop_first());
                            assert(rest =~= seq![t] + rest.drop_first());
                        }
                    }
                }
            }
        }
    }
}

impl TrieNode {
    /// The largest number of children of a node at or below this one.
    fn max_branching(&self) -> (r: usize)
        requires
            self.wf(),
        ensures
            is_max_branching(*self, r as nat),
        decreases self,
    {
        let mut best: usize = self.children.len();
        let ghost mut witness: Seq<Seq<char>> = Seq::empty();
        let n: usize = self.children.len();
        proof {
            assert(self.at(Seq::empty()) == Some(*self));
        }
        for i in 0..n
            invariant
                n == self.children@.len(),
                self.wf(),
                self.tokens().no_duplicates(),
                best >= self.children@.len(),
                self.at(witness) matches Some(node) && node.children@.len() == best,
                forall|j: int, path: Seq<Seq<char>>|
                    0 <= j < i ==> ((#[trigger] self.children@[j].1.at(path)) matches Some(node)
                        ==> node.children@.len() <= best),
        {
            proof {
                self.lemma_child_at(i as int);
                self.lemma_child_wf(self.tokens()[i as int]);
            }
            let below: usize = self.children[i].1.max_branching();
            if below > best {
                best = below;
                proof {
                    let c = self.children@[i as int].1;
                    let p = choose|p: Seq<Seq<char>>|
                        (#[trigger] c.at(p)) matches Some(node) && node.children@.len() == below;
                    witness = seq![self.tokens()[i as int]] + p;
                    assert(witness.drop_first() =~= p);
                }
            }
        }
        proof {
            assert forall|path: Seq<Seq<char>>| (#[trigger] self.at(path)) matches Some(node) implies self.at(
                path,
            )->0.children@.len() <= best by {
                if path.len() > 0 {
                    let j = self.tokens().index_of(path[0]);
                    assert(self.tokens()[j] == path[0]);
                    assert(self.children@[j].1.at(path.drop_first()) == self.at(path));
                }
            }
        }
        best
    }
}

/// `b` is the largest number of children of a node of the trie.
pub open spec fn is_max_branching(root: TrieNode, b: nat) -> bool {
    &&& forall|path: Seq<Seq<char>>|
        (#[trigger] root.at(path)) matches Some(node) ==> node.children@.len() <= b
    &&& exists|path: Seq<Seq<char>>|
        (#[trigger] root.at(path)) matches Some(node) && node.children@.len() == b
}

/// A trie has one largest branching factor.
pub proof fn lemma_max_branching_unique(root: TrieNode, a: nat, b: nat)
    requires
        is_max_branching(root, a),
        is_max_branching(root, b),
    ensures
        a == b,
{
    let p = choose|path: Seq<Seq<char>>|
        (#[trigger] root.at(path)) matches Some(node) && node.children@.len() == a;
    let q = choose|path: Seq<Seq<char>>|
        (#[trigger] root.at(path)) matches Some(node) && node.children@.len() == b;
    assert(root.at(p) is Some && root.at(q) is Some);
}

/// Trie built from per-label token sequences.
///
/// Used to compute the largest branching factor, which sets the
/// `top_logprobs` budget, and to decide whether a candidate token continues
/// some label.
#[derive(Debug)]
pub struct LabelTrie {
    root: TrieNode,
    sequences: LabelMap<Vec<String>>,
}

impl LabelTrie {
    /// The root node.
    pub closed spec fn root_node(self) -> TrieNode {
        self.root
    }

    /// The labels, in the order of their first insertion.
    pub closed spec fn labels(self) -> Seq<Seq<char>> {
        self.sequences.keys()
    }

    /// The paths that lead to a node.
    pub open spec fn paths(self) -> Set<Seq<Seq<char>>> {
        Set::new(|path: Seq<Seq<char>>| self.root_node().at(path) is Some)
    }

    /// The token sequence stored for each label.
    pub closed spec fn sequences(self) -> Map<Seq<char>, Seq<Seq<char>>> {
        scoring::token_texts(self.sequences)
    }

    #[verifier::type_invariant]
    spec fn well_formed(self) -> bool {
        self.root.wf()
    }

    /// Create an empty trie.
    pub fn new() -> (r: Self)
        ensures
            r.labels() == Seq::<Seq<char>>::empty(),
            r.sequences() == Map::<Seq<char>, Seq<Seq<char>>>::empty(),
            r.root_node().children@.len() == 0,
            forall|path: Seq<Seq<char>>|
                (#[trigger] r.root_node().at(path)) is Some <==> path.len() == 0,
            forall|path: Seq<Seq<char>>| #[trigger]
                r.root_node().mark(path) == (Mark { is_terminal: false, label: None }),
    {
        let r = LabelTrie { root: TrieNode::new(), sequences: LabelMap::new() };
        assert(r.sequences() =~= Map::<Seq<char>, Seq<Seq<char>>>::empty());
        proof {
            assert forall|path: Seq<Seq<char>>| #[trigger] r.root_node().mark(path) == (Mark {
                is_terminal: false,
                label: None,
            }) by {
                assert(r.root.at(path) is Some <==> path.len() == 0);
            }
        }
        r
    }

    /// Insert a label and its token sequence. A label that is inserted again
    /// gets the new sequence; the nodes of the old one stay.
    pub fn insert(&mut self, label: &str, tokens: &[String])
        ensures
            final(self).sequences() == old(self).sequences().insert(label@, text::texts(tokens@)),
            final(self).labels() == if old(self).sequences().contains_key(label@) {
                old(self).labels()
            } else {
                old(self).labels().push(label@)
            },
            forall|path: Seq<Seq<char>>|
                (#[trigger] final(self).root_node().at(path)) is Some <==> (old(
                    self,
                ).root_node().at(path) is Some || path.is_prefix_of(text::texts(tokens@))),
            forall|path: Seq<Seq<char>>| #[trigger]
                final(self).root_node().mark(path) == if path == text::texts(tokens@) {
                    Mark { is_terminal: true, label: Some(label@) }
                } else {
                    old(self).root_node().mark(path)
                },
    {
        proof {
            use_type_invariant(&*self);
            assert(text::texts(tokens@).skip(0) =~= text::texts(tokens@));
        }
        let mut root = TrieNode::new();
        let mut sequences: LabelMap<Vec<String>> = LabelMap::new();
        let ghost before = *self;
        core::mem::swap(&mut root, &mut self.root);
        core::mem::swap(&mut sequences, &mut self.sequences);
        root.insert_path(label, tokens, 0);
        sequences.insert(label.to_owned(), text::copy_texts(tokens));
        self.root = root;
        self.sequences = sequences;
        proof {
            before.sequences.lemma_keys(label@);
            assert(self.sequences() =~= before.sequences().insert(label@, text::texts(tokens@)));
        }
    }

    /// The largest branching factor across the trie. It drives the
    /// `top_logprobs` budget.
    pub fn max_branching_factor(&self) -> (r: usize)
        ensures
            is_max_branching(self.root_node(), r as nat),
    {
        proof {
            use_type_invariant(self);
        }
        self.root.max_branching()
    }

    /// The stored token sequence of a label; empty where there is none.
    pub fn get_token_sequence(&self, label: &str) -> (r: Vec<String>)
        ensures
            text::texts(r@) == scoring::tokens_of(self.sequences(), label@),
    {
        scoring::tokens_or_none(&self.sequences, label)
    }

    /// All labels known to the trie.
    pub fn all_labels(&self) -> (r: Vec<String>)
        ensures
            text::texts(r@) == self.labels(),
    {
        self.sequences.all_keys()
    }

    /// The root node, from which candidate tokens are followed.
    pub fn root(&self) -> (r: &TrieNode)
        ensures
            *r == self.root_node(),
            r.wf(),
    {
        proof {
            use_type_invariant(self);
        }
        &self.root
    }
}

impl Clone for TrieNode {
    /// A node with the same paths and marks.
    fn clone(&self) -> (r: Self)
        ensures
            r.tokens() == self.tokens(),
            forall|path: Seq<Seq<char>>| (#[trigger] r.at(path)) is Some <==> self.at(path) is Some,
            forall|path: Seq<Seq<char>>| #[trigger] r.mark(path) == self.mark(path),
            self.wf() ==> r.wf(),
        decreases self,
    {
        let mut children: Vec<(String, TrieNode)> = Vec::new();
        let n: usize = self.children.len();
        for i in 0..n
            invariant
                n == self.children@.len(),
                children@.len() == i,
                forall|j: int|
                    0 <= j < i ==> same_node(self.children@[j], #[trigger] children@[j]),
            decreases n - i,
        {
            let entry = &self.children[i];
            let copy = (entry.0.clone(), entry.1.clone());
            assert(same_node(self.children@[i as int], copy));
            children.push(copy);
        }
        let label = match &self.label {
            Some(l) => Some(l.clone()),
            None => None,
        };
        let r = TrieNode { children, is_terminal: self.is_terminal, label };
        proof {
            assert(r.tokens() =~= self.tokens());
            assert forall|path: Seq<Seq<char>>|
                ((#[trigger] r.at(path)) is Some <==> self.at(path) is Some) && r.mark(path)
                    == self.mark(path) && (self.wf() && r.at(path) is Some ==> r.at(
                    path,
                )->0.tokens().no_duplicates()) by {
                if path.len() == 0 {
                    assert(self.at(path) == Some(*self));
                } else if self.tokens().contains(path[0]) {
                    let j = self.tokens().index_of(path[0]);
                    assert(self.tokens()[j] == path[0]);
                    assert(same_node(self.children@[j], r.children@[j]));
                    let a = self.children@[j].1;
                    let b = r.children@[j].1;
                    let rest = path.drop_first();
                    assert(r.at(path) == b.at(rest));
                    assert(self.at(path) == a.at(rest));
                    assert(b.mark(rest) == a.mark(rest));
                    if self.wf() {
                        self.lemma_child_wf(path[0]);
                    }
                }
            }
            assert forall|path: Seq<Seq<char>>| #[trigger] r.mark(path) == self.mark(path) by {
                assert(r.at(path) is Some <==> self.at(path) is Some);
            }
        }
        r
    }
}

/// Whether two children have the same token, and the same paths and marks.
spec fn same_node(a: (String, TrieNode), b: (String, TrieNode)) -> bool {
    &&& a.0@ == b.0@
    &&& forall|path: Seq<Seq<char>>| (#[trigger] b.1.at(path)) is Some <==> a.1.at(path) is Some
    &&& forall|path: Seq<Seq<char>>| #[trigger] b.1.mark(path) == a.1.mark(path)
    &&& a.1.wf() ==> b.1.wf()
}

impl Default for TrieNode {
    fn default() -> (r: Self)
        ensures
            r.children@.len() == 0,
            !r.is_terminal,
            r.label is None,
            r.wf(),
    {
        TrieNode::new()
    }
}

impl Clone for LabelTrie {
    /// A trie with the same labels, paths and marks.
    fn clone(&self) -> (r: Self)
        ensures
            r.labels() == self.labels(),
            r.sequences() == self.sequences(),
            r.paths() == self.paths(),
            forall|path: Seq<Seq<char>>| #[trigger]
                r.root_node().mark(path) == self.root_node().mark(path),
    {
        proof {
            use_type_invariant(self);
        }
        let mut sequences: LabelMap<Vec<String>> = LabelMap::new();
        let n: usize = self.sequences.len();
        let ghost keys = self.sequences.keys();
        for i in 0..n
            invariant
                n == keys.len(),
                keys == self.sequences.keys(),
                keys.no_duplicates(),
                sequences.keys() == keys.take(i as int),
                forall|j: int|
                    0 <= j < i ==> sequences@[#[trigger] keys[j]]@ == self.sequences@[keys[j]]@,
        {
            let label = self.sequences.key_at(i).clone();
            proof {
                assert(!sequences.keys().contains(label@));
                sequences.lemma_keys(label@);
            }
            sequences.insert(label, text::copy_texts(self.sequences.value_at(i).as_slice()));
            assert(sequences.keys() =~= keys.take(i + 1));
        }
        assert(keys.take(n as int) =~= keys);
        let r = LabelTrie { root: self.root.clone(), sequences };
        proof {
            assert forall|l: Seq<char>| #[trigger] keys.contains(l) implies r.sequences@[l]@
                == self.sequences@[l]@ by {
                assert(keys[keys.index_of(l)] == l);
            }
            assert forall|l: Seq<char>| #[trigger] r.sequences@.contains_key(l) <==> keys.contains(
                l,
            ) by {
                r.sequences.lemma_keys(l);
            }
            assert forall|l: Seq<char>| #[trigger] self.sequences@.contains_key(l) <==> keys.contains(
                l,
            ) by {
                self.sequences.lemma_keys(l);
            }
            assert(r.sequences() =~= self.sequences());
            assert(r.paths() =~= self.paths());
        }
        r
    }
}

impl Default for LabelTrie {
    fn default() -> (r: Self)
        ensures
            r.labels() == Seq::<Seq<char>>::empty(),
            r.sequences() == Map::<Seq<char>, Seq<Seq<char>>>::empty(),
            r.root_node().children@.len() == 0,
            forall|path: Seq<Seq<char>>|
                (#[trigger] r.root_node().at(path)) is Some <==> path.len() == 0,
            forall|path: Seq<Seq<char>>| #[trigger]
                r.root_node().mark(path) == (Mark { is_terminal: false, label: None }),
    {
        LabelTrie::new()
    }
}

/// Whether one path begins another is decided token by token.
proof fn lemma_prefix_step(path: Seq<Seq<char>>, full: Seq<Seq<char>>)
    requires
        path.len() > 0,
        full.len() > 0,
        path[0] == full[0],
    ensures
        path.is_prefix_of(full) <==> path.drop_first().is_prefix_of(full.drop_first()),
{
    let a = path.drop_first();
    let b = full.drop_first();
    if path.is_prefix_of(full) {
        assert(a =~= b.subrange(0, a.len() as int));
    }
    if a.is_prefix_of(b) {
        assert forall|i: int| 0 <= i < path.len() implies path[i] == full[i] by {
            if i > 0 {
                assert(a[i - 1] == b.subrange(0, a.len() as int)[i - 1]);
            }
        }
        assert(path =~= full.subrange(0, path.len() as int));
    }
}

/// A fresh child adds one path and no mark.
proof fn lemma_grown(before: TrieNode, grown: TrieNode, t: Seq<char>)
    requires
        before.wf(),
        !before.tokens().contains(t),
        grown.is_terminal == before.is_terminal,
        grown.label == before.label,
        grown.children@.len() == before.children@.len() + 1,
        grown.children@.drop_last() == before.children@,
        grown.children@.last().0@ == t,
        grown.children@.last().1.children@.len() == 0,
        !grown.children@.last().1.is_terminal,
        grown.children@.last().1.label is None,
    ensures
        grown.wf(),
        forall|path: Seq<Seq<char>>|
            (#[trigger] grown.at(path)) is Some <==> (before.at(path) is Some || path == seq![t]),
        forall|path: Seq<Seq<char>>| #[trigger] grown.mark(path) == before.mark(path),
        forall|u: Seq<char>| u != t ==> #[trigger] grown.child(u) == before.child(u),
{
    let fresh = grown.children@.last().1;
    let n = before.children@.len() as int;
    assert(before.at(Seq::empty()) == Some(before));
    assert forall|i: int| 0 <= i < n implies #[trigger] grown.children@[i] == before.children@[i] by {
        assert(grown.children@.drop_last()[i] == before.children@[i]);
    }
    assert(grown.tokens() =~= before.tokens().push(t));
    assert(grown.tokens().no_duplicates());
    assert(grown.tokens()[n] == t);
    grown.lemma_child_at(n);
    assert forall|u: Seq<char>| u != t implies #[trigger] grown.child(u) == before.child(u) by {
        if before.tokens().contains(u) {
            let j = before.tokens().index_of(u);
            assert(before.tokens()[j] == u);
            assert(grown.tokens()[j] == u);
            grown.lemma_child_at(j);
        }
        if grown.tokens().contains(u) {
            let j = grown.tokens().index_of(u);
            assert(grown.tokens()[j] == u);
            assert(before.tokens()[j] == u);
        }
    }
    assert forall|path: Seq<Seq<char>>| (#[trigger] fresh.at(path)) is Some <==> path.len() == 0 by {
        if path.len() > 0 {
            assert(!fresh.tokens().contains(path[0]));
        }
    }
    assert forall|path: Seq<Seq<char>>|
        (#[trigger] grown.at(path)) is Some <==> (before.at(path) is Some || path == seq![t]) by {
        if path.len() > 0 {
            if path[0] == t {
                assert(before.child(t) is None);
                assert(grown.at(path) == fresh.at(path.drop_first()));
                if path.len() == 1 {
                    assert(path =~= seq![t]);
                }
            } else {
                assert(grown.child(path[0]) == before.child(path[0]));
                assert(grown.at(path) == before.at(path));
            }
        }
    }
    assert forall|path: Seq<Seq<char>>| #[trigger] grown.mark(path) == before.mark(path) by {
        if path.len() > 0 {
            if path[0] == t {
                assert(before.child(t) is None);
                assert(grown.at(path) == fresh.at(path.drop_first()));
                if path.len() == 1 {
                    assert(path.drop_first().len() == 0);
                }
            } else {
                assert(grown.child(path[0]) == before.child(path[0]));
                assert(grown.at(path) == before.at(path));
            }
        }
    }
    assert forall|path: Seq<Seq<char>>| (#[trigger] grown.at(path)) matches Some(node) implies grown.at(
        path,
    )->0.tokens().no_duplicates() by {
        if path.len() > 0 {
            if path[0] == t {
                assert(grown.at(path) == fresh.at(path.drop_first()));
                assert(path.drop_first().len() == 0);
                assert(fresh.tokens() =~= Seq::<Seq<char>>::empty());
            } else {
                assert(grown.child(path[0]) == before.child(path[0]));
                assert(grown.at(path) == before.at(path));
            }
        }
    }
}

// ---------------------------------------------------------------------------
// Laws of nodes
// ---------------------------------------------------------------------------

/// A token leads to a child exactly where some child has it; the empty path
/// leads to the node itself, and a path leads where its tokens lead, one after
/// the other. A path that leads to a node has the mark of the node, and any
/// other has none.
pub proof fn law_paths_lead_token_by_token(
    node: TrieNode,
    token: Seq<char>,
    path: Seq<Seq<char>>,
    i: int,
)
    ensures
        node.tokens().len() == node.children@.len(),
        0 <= i < node.children@.len() ==> node.tokens()[i] == node.children@[i].0@,
        node.child(token) is Some <==> exists|k: int|
            0 <= k < node.children@.len() && (#[trigger] node.children@[k]).0@ == token,
        node.tokens().no_duplicates() && 0 <= i < node.children@.len() ==> node.child(
            node.children@[i].0@,
        ) == Some(node.children@[i].1),
        node.at(Seq::empty()) == Some(node),
        node.child(token) matches Some(c) ==> node.at(seq![token] + path) == c.at(path),
        node.child(token) is None ==> node.at(seq![token] + path) is None,
        node.at(path) matches Some(end) ==> node.mark(path).is_terminal == end.is_terminal && (
        end.label matches Some(l) ==> node.mark(path).label == Some(l@)) && (end.label is None
            ==> node.mark(path).label is None),
        node.at(path) is None ==> !node.mark(path).is_terminal && node.mark(path).label is None,
{
    let long = seq![token] + path;
    assert(long.drop_first() =~= path);
    if node.child(token) is Some {
        let k = node.tokens().index_of(token);
        assert(node.tokens()[k] == token);
        assert(node.children@[k].0@ == token);
    }
    if exists|k: int| 0 <= k < node.children@.len() && (#[trigger] node.children@[k]).0@ == token {
        let k = choose|k: int|
            0 <= k < node.children@.len() && (#[trigger] node.children@[k]).0@ == token;
        assert(node.tokens()[k] == token);
    }
    if node.tokens().no_duplicates() && 0 <= i < node.children@.len() {
        node.lemma_child_at(i);
    }
}

/// The paths of a trie are those that lead to a node.
pub proof fn law_paths_of_a_trie(trie: LabelTrie, path: Seq<Seq<char>>)
    ensures
        trie.paths().contains(path) <==> trie.root_node().at(path) is Some,
{
}

/// The largest branching factor is the number of children of some node, and no
/// node has more.
pub proof fn law_largest_branching_is_reached(root: TrieNode, b: nat, path: Seq<Seq<char>>)
    requires
        is_max_branching(root, b),
    ensures
        root.at(path) matches Some(node) ==> node.children@.len() <= b,
        exists|p: Seq<Seq<char>>|
            (#[trigger] root.at(p)) is Some && root.at(p)->0.children@.len() == b,
{
    let p = choose|p: Seq<Seq<char>>|
        (#[trigger] root.at(p)) matches Some(node) && node.children@.len() == b;
    assert(root.at(p) is Some);
}

} // verus!
