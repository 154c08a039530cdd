//! Dictionary trie: an ordered-children prefix tree over words, supporting
//! prefix membership queries used to validate partial words during search.

use vstd::prelude::*;

verus! {

/// One trie node. The root carries the blank character and represents the
/// empty prefix; every other node represents the prefix spelled by the
/// characters on the path from the root down to it. Each letter appears on
/// at most one child of a node built by `construct_tree`, so the first
/// matching child is the only one.
#[verifier::ext_equal]
pub struct Node {
    pub character: char,
    pub is_word: bool,
    pub children: Vec<Node>,
}

/// The first child carrying character `c`, if any.
pub open spec fn seek(children: Seq<Node>, c: char) -> Option<Node>
    decreases children.len(),
{
    if children.len() == 0 {
        None
    } else if children[0].character == c {
        Some(children[0])
    } else {
        seek(children.skip(1), c)
    }
}

impl Node {
    /// Some word inserted below this node spells exactly `w`.
    pub open spec fn has_word(self, w: Seq<char>) -> bool
        decreases w.len(),
    {
        if w.len() == 0 {
            self.is_word
        } else {
            match seek(self.children@, w[0]) {
                Some(child) => child.has_word(w.skip(1)),
                None => false,
            }
        }
    }

    /// `p` is spelled by a root-to-node path below this node; the empty
    /// sequence is always such a path.
    pub open spec fn has_prefix(self, p: Seq<char>) -> bool
        decreases p.len(),
    {
        if p.len() == 0 {
            true
        } else {
            match seek(self.children@, p[0]) {
                Some(child) => child.has_prefix(p.skip(1)),
                None => false,
            }
        }
    }
}

/// At most one child per letter value at this node.
pub open spec fn distinct_children(nd: Node) -> bool {
    forall|i: int, j: int|
        0 <= i < nd.children@.len() && 0 <= j < nd.children@.len() && i != j
            ==> (#[trigger] nd.children@[i]).character != (#[trigger] nd.children@[j]).character
}

/// The node reached from `nd` by walking down along the characters of `p`.
pub open spec fn node_at(nd: Node, p: Seq<char>) -> Option<Node>
    decreases p.len(),
{
    if p.len() == 0 {
        Some(nd)
    } else {
        match seek(nd.children@, p[0]) {
            Some(child) => node_at(child, p.skip(1)),
            None => None,
        }
    }
}

/// Structural invariant of the tree: every node keeps at most one child per
/// letter value.
pub open spec fn wf(nd: Node) -> bool {
    forall|p: Seq<char>|
        (#[trigger] node_at(nd, p)) is Some ==> distinct_children(node_at(nd, p)->Some_0)
}

/// The trie `root` indexes exactly the word list `words`.
pub open spec fn represents(root: Node, words: Seq<Seq<char>>) -> bool {
    &&& forall|s: Seq<char>| #[trigger] root.has_word(s) <==> words.contains(s)
    &&& forall|s: Seq<char>|
        #[trigger] root.has_prefix(s) <==> (s.len() == 0 || exists|i: int|
            0 <= i < words.len() && s.is_prefix_of(#[trigger] words[i]))
}

/// `seek` finds position `j` when no earlier position matches.
proof fn lemma_seek_at(children: Seq<Node>, c: char, j: int)
    requires
        0 <= j < children.len(),
        children[j].character == c,
        forall|m: int| 0 <= m < j ==> (#[trigger] children[m]).character != c,
    ensures
        seek(children, c) == Some(children[j]),
    decreases children.len(),
{
    if j > 0 {
        lemma_seek_at(children.skip(1), c, j - 1);
    }
}

/// `seek` fails when no position matches.
proof fn lemma_seek_none(children: Seq<Node>, c: char)
    requires
        forall|m: int| 0 <= m < children.len() ==> (#[trigger] children[m]).character != c,
    ensures
        seek(children, c) is None,
    decreases children.len(),
{
    if children.len() > 0 {
        assert(children[0].character != c);
        assert forall|m: int| 0 <= m < children.skip(1).len()
            implies (#[trigger] children.skip(1)[m]).character != c by {
            assert(children.skip(1)[m] == children[m + 1]);
        }
        lemma_seek_none(children.skip(1), c);
    }
}

/// Appending a child changes `seek` only when nothing matched before.
proof fn lemma_seek_extend(a: Seq<Node>, x: Node, c: char)
    ensures
        seek(a, c) is Some ==> seek(a.push(x), c) == seek(a, c),
        seek(a, c) is None && x.character == c ==> seek(a.push(x), c) == Some(x),
        seek(a, c) is None && x.character != c ==> seek(a.push(x), c) is None,
    decreases a.len(),
{
    if a.len() == 0 {
        assert(a.push(x)[0] == x);
        assert(a.push(x).skip(1) =~= Seq::<Node>::empty());
        assert(seek(Seq::<Node>::empty(), c) is None);
    } else {
        assert(a.push(x)[0] == a[0]);
        assert(a.push(x).skip(1) =~= a.skip(1).push(x));
        lemma_seek_extend(a.skip(1), x, c);
    }
}

/// `seek` agrees on two child lists with identical characters whose nodes
/// differ at most where the character is not the sought one.
proof fn lemma_seek_same(a: Seq<Node>, b: Seq<Node>, c: char)
    requires
        a.len() == b.len(),
        forall|k: int| 0 <= k < a.len() ==> (#[trigger] a[k]).character == (#[trigger] b[k]).character,
        forall|k: int| 0 <= k < a.len() && (#[trigger] a[k]).character == c ==> a[k] == b[k],
    ensures
        seek(a, c) == seek(b, c),
    decreases a.len(),
{
    if a.len() > 0 {
        if a[0].character != c {
            assert forall|k: int| 0 <= k < a.skip(1).len()
                implies (#[trigger] a.skip(1)[k]).character == (#[trigger] b.skip(1)[k]).character by {
                assert(a.skip(1)[k] == a[k + 1]);
                assert(b.skip(1)[k] == b[k + 1]);
            }
            assert forall|k: int| 0 <= k < a.skip(1).len() && (#[trigger] a.skip(1)[k]).character == c
                implies a.skip(1)[k] == b.skip(1)[k] by {
                assert(a.skip(1)[k] == a[k + 1]);
                assert(b.skip(1)[k] == b[k + 1]);
            }
            lemma_seek_same(a.skip(1), b.skip(1), c);
        }
    }
}

/// A successful `seek` hands back one of the children.
proof fn lemma_seek_yields_member(children: Seq<Node>, c: char)
    requires
        seek(children, c) is Some,
    ensures
        exists|k: int| 0 <= k < children.len() && children[k] == seek(children, c)->Some_0,
    decreases children.len(),
{
    if children[0].character == c {
        assert(children[0] == seek(children, c)->Some_0);
    } else {
        lemma_seek_yields_member(children.skip(1), c);
        let k = choose|k: int|
            0 <= k < children.skip(1).len() && children.skip(1)[k] == seek(
                children.skip(1),
                c,
            )->Some_0;
        assert(children[k + 1] == seek(children, c)->Some_0);
    }
}

/// Every child of a well-formed node is itself well-formed.
proof fn lemma_wf_child(nd: Node, k: int)
    requires
        wf(nd),
        0 <= k < nd.children@.len(),
    ensures
        wf(nd.children@[k]),
{
    let child = nd.children@[k];
    assert(node_at(nd, Seq::<char>::empty()) == Some(nd));
    assert(distinct_children(nd));
    assert forall|m: int| 0 <= m < k implies (#[trigger] nd.children@[m]).character
        != child.character by {}
    lemma_seek_at(nd.children@, child.character, k);
    assert forall|p: Seq<char>| (#[trigger] node_at(child, p)) is Some
        implies distinct_children(node_at(child, p)->Some_0) by {
        let q = seq![child.character] + p;
        assert(q.len() == p.len() + 1);
        assert(q[0] == child.character);
        assert(q.skip(1) =~= p);
        assert(node_at(nd, q) == node_at(child, p));
    }
}

/// A node with pairwise-distinct children, all of them well-formed, is
/// well-formed.
proof fn lemma_wf_assemble(nd: Node)
    requires
        distinct_children(nd),
        forall|k: int| 0 <= k < nd.children@.len() ==> wf(#[trigger] nd.children@[k]),
    ensures
        wf(nd),
{
    assert forall|p: Seq<char>| (#[trigger] node_at(nd, p)) is Some
        implies distinct_children(node_at(nd, p)->Some_0) by {
        if p.len() == 0 {
            assert(node_at(nd, p)->Some_0 == nd);
        } else {
            let child = seek(nd.children@, p[0])->Some_0;
            lemma_seek_yields_member(nd.children@, p[0]);
            let k = choose|k: int| 0 <= k < nd.children@.len() && nd.children@[k] == child;
            assert(wf(nd.children@[k]));
            assert(node_at(nd, p) == node_at(child, p.skip(1)));
        }
    }
}

/// A node without children is well-formed.
proof fn lemma_leaf_wf(nd: Node)
    requires
        nd.children@.len() == 0,
    ensures
        wf(nd),
{
    assert forall|p: Seq<char>| (#[trigger] node_at(nd, p)) is Some
        implies distinct_children(node_at(nd, p)->Some_0) by {
        if p.len() > 0 {
            assert(seek(nd.children@, p[0]) is None);
        }
    }
}

/// A node without children holds no word and only the empty prefix.
proof fn lemma_leaf(nd: Node)
    requires
        nd.children@.len() == 0,
    ensures
        forall|s: Seq<char>| #[trigger] nd.has_word(s) <==> (s.len() == 0 && nd.is_word),
        forall|s: Seq<char>| #[trigger] nd.has_prefix(s) <==> s.len() == 0,
{
    assert forall|s: Seq<char>| #[trigger] nd.has_word(s) <==> (s.len() == 0 && nd.is_word) by {
        if s.len() > 0 {
            assert(seek(nd.children@, s[0]) is None);
        }
    }
    assert forall|s: Seq<char>| #[trigger] nd.has_prefix(s) <==> s.len() == 0 by {
        if s.len() > 0 {
            assert(seek(nd.children@, s[0]) is None);
        }
    }
}

/// Two non-empty sequences are equal exactly when their heads and tails are.
proof fn lemma_head_tail_eq(s: Seq<char>, t: Seq<char>)
    requires
        s.len() > 0,
        t.len() > 0,
    ensures
        (s == t) <==> (s[0] == t[0] && s.skip(1) == t.skip(1)),
{
    if s[0] == t[0] && s.skip(1) == t.skip(1) {
        assert(s.skip(1).len() == s.len() - 1);
        assert(t.skip(1).len() == t.len() - 1);
        assert(s =~= t) by {
            assert forall|k: int| 0 <= k < s.len() implies s[k] == t[k] by {
                if k > 0 {
                    assert(s.skip(1)[k - 1] == s[k]);
                    assert(t.skip(1)[k - 1] == t[k]);
                }
            }
        }
    }
}

/// A non-empty prefix starts with the head of what it prefixes.
proof fn lemma_prefix_head(s: Seq<char>, t: Seq<char>)
    requires
        s.len() > 0,
        s.is_prefix_of(t),
    ensures
        t.len() >= s.len(),
        s[0] == t[0],
{
    assert(s[0] == t.subrange(0, s.len() as int)[0]);
}

/// Prefix relations on non-empty sequences with equal heads descend to tails.
proof fn lemma_head_tail_prefix(s: Seq<char>, t: Seq<char>)
    requires
        s.len() > 0,
        t.len() > 0,
        s[0] == t[0],
    ensures
        s.is_prefix_of(t) <==> s.skip(1).is_prefix_of(t.skip(1)),
{
    if s.is_prefix_of(t) {
        assert(s.skip(1) =~= t.skip(1).subrange(0, s.skip(1).len() as int)) by {
            assert forall|k: int| 0 <= k < s.len() - 1 implies s.skip(1)[k] == t.skip(1)[k] by {
                assert(s[k + 1] == t.subrange(0, s.len() as int)[k + 1]);
            }
        }
    }
    if s.skip(1).is_prefix_of(t.skip(1)) {
        assert(s =~= t.subrange(0, s.len() as int)) by {
            assert forall|k: int| 0 <= k < s.len() implies s[k] == t[k] by {
                if k > 0 {
                    assert(s.skip(1)[k - 1] == t.skip(1).subrange(0, s.len() - 1)[k - 1]);
                    assert(t.skip(1)[k - 1] == t[k]);
                }
            }
        }
    }
}

/// Index of the first child of `children` carrying `c`, if any.
fn find_child(children: &Vec<Node>, c: char) -> (r: Option<usize>)
    ensures
        match r {
            Some(j) => {
                &&& j < children@.len()
                &&& children@[j as int].character == c
                &&& forall|m: int| 0 <= m < j ==> (#[trigger] children@[m]).character != c
            },
            None => forall|m: int| 0 <= m < children@.len()
                ==> (#[trigger] children@[m]).character != c,
        },
{
    let mut k: usize = 0;
    while k < children.len()
        invariant
            k <= children@.len(),
            forall|m: int| 0 <= m < k ==> (#[trigger] children@[m]).character != c,
        decreases children@.len() - k,
    {
        if children[k].character == c {
            return Some(k);
        }
        k = k + 1;
    }
    None
}

impl Node {
    /// Adds the suffix of `w` starting at `i` below this node, creating any
    /// missing intermediate nodes and marking the final node terminal.
    fn insert_from(&mut self, w: &Vec<char>, i: usize)
        requires
            i <= w@.len(),
            wf(*old(self)),
        ensures
            final(self).character == old(self).character,
            wf(*final(self)),
            forall|s: Seq<char>|
                #[trigger] final(self).has_word(s)
                    <==> (old(self).has_word(s) || s == w@.skip(i as int)),
            forall|s: Seq<char>|
                #[trigger] final(self).has_prefix(s)
                    <==> (old(self).has_prefix(s) || s.is_prefix_of(w@.skip(i as int))),
        decreases w@.len() - i,
    {
        let ghost target = w@.skip(i as int);
        if i == w.len() {
            let ghost entry = *self;
            self.is_word = true;
            proof {
                assert(target.len() == 0);
                assert(node_at(entry, Seq::<char>::empty()) == Some(entry));
                assert forall|p: Seq<char>| (#[trigger] node_at(*self, p)) is Some
                    implies distinct_children(node_at(*self, p)->Some_0) by {
                    if p.len() == 0 {
                        assert(node_at(*self, p)->Some_0 == *self);
                        assert(distinct_children(entry));
                    } else {
                        assert(node_at(*self, p) == node_at(entry, p));
                    }
                }
                assert forall|s: Seq<char>|
                    #[trigger] self.has_word(s) <==> (old(self).has_word(s) || s == target) by {
                    if s.len() == 0 {
                        assert(s =~= target);
                    } else {
                        assert(s != target);
                    }
                }
                assert forall|s: Seq<char>|
                    #[trigger] self.has_prefix(s)
                        <==> (old(self).has_prefix(s) || s.is_prefix_of(target)) by {
                    if s.len() > 0 && s.is_prefix_of(target) {
                        lemma_prefix_head(s, target);
                    }
                }
            }
        } else {
            let c = w[i];
            let ghost rest = w@.skip(i as int + 1);
            proof {
                assert(target.len() == w@.len() - i);
                assert(target[0] == c);
                assert(target.skip(1) =~= rest);
            }
            let ghost o = old(self).children@;
            let ghost n = o.len() as int;
            match find_child(&self.children, c) {
                Some(j) => {
                    let ghost oldchild = o[j as int];
                    let mut child = self.children.remove(j);
                    proof {
                        lemma_wf_child(*old(self), j as int);
                    }
                    child.insert_from(w, i + 1);
                    self.children.insert(j, child);
                    proof {
                        let q = self.children@;
                        let nc = q[j as int];
                        assert(q.len() == n);
                        assert forall|k: int| 0 <= k < n && k != j implies q[k] == o[k] by {
                            if k < j {
                                assert(q[k] == o.remove(j as int)[k]);
                            } else {
                                assert(q[k] == o.remove(j as int)[k - 1]);
                            }
                        }
                        assert(nc.character == c);
                        assert(oldchild.character == c);
                        assert(seek(q, c) == Some(nc)) by {
                            lemma_seek_at(q, c, j as int);
                        }
                        assert(seek(o, c) == Some(oldchild)) by {
                            lemma_seek_at(o, c, j as int);
                        }
                        assert forall|d: char| d != c implies seek(q, d) == seek(o, d) by {
                            lemma_seek_same(q, o, d);
                        }
                        assert(node_at(*old(self), Seq::<char>::empty()) == Some(*old(self)));
                        assert(distinct_children(*old(self)));
                        assert forall|k1: int, k2: int|
                            0 <= k1 < q.len() && 0 <= k2 < q.len() && k1 != k2
                            implies (#[trigger] q[k1]).character != (#[trigger] q[k2]).character
                            by {
                            assert(q[k1].character == o[k1].character);
                            assert(q[k2].character == o[k2].character);
                        }
                        assert forall|k: int| 0 <= k < q.len() implies wf(#[trigger] q[k]) by {
                            if k != j {
                                lemma_wf_child(*old(self), k);
                                assert(q[k] == o[k]);
                            }
                        }
                        lemma_wf_assemble(*self);
                        assert forall|s: Seq<char>|
                            #[trigger] self.has_word(s)
                                <==> (old(self).has_word(s) || s == target) by {
                            if s.len() == 0 {
                                assert(s != target);
                            } else if s[0] != c {
                                assert(s != target);
                                assert(seek(q, s[0]) == seek(o, s[0]));
                            } else {
                                lemma_head_tail_eq(s, target);
                                assert(self.has_word(s) == nc.has_word(s.skip(1)));
                                assert(old(self).has_word(s) == oldchild.has_word(s.skip(1)));
                            }
                        }
                        assert forall|s: Seq<char>|
                            #[trigger] self.has_prefix(s)
                                <==> (old(self).has_prefix(s) || s.is_prefix_of(target)) by {
                            if s.len() == 0 {
                            } else if s[0] != c {
                                assert(seek(q, s[0]) == seek(o, s[0]));
                                if s.is_prefix_of(target) {
                                    lemma_prefix_head(s, target);
                                }
                            } else {
                                lemma_head_tail_prefix(s, target);
                                assert(self.has_prefix(s) == nc.has_prefix(s.skip(1)));
                                assert(old(self).has_prefix(s) == oldchild.has_prefix(s.skip(1)));
                            }
                        }
                    }
                }
                None => {
                    let mut child = Node { character: c, is_word: false, children: Vec::new() };
                    proof {
                        lemma_leaf(child);
                        lemma_leaf_wf(child);
                    }
                    let ghost fresh = child;
                    child.insert_from(w, i + 1);
                    self.children.push(child);
                    proof {
                        let q = self.children@;
                        let nc = q[n];
                        assert(q.len() == n + 1);
                        assert(o.push(nc) =~= q);
                        assert(nc.character == c);
                        assert(seek(o, c) is None) by {
                            lemma_seek_none(o, c);
                        }
                        assert(node_at(*old(self), Seq::<char>::empty()) == Some(*old(self)));
                        assert(distinct_children(*old(self)));
                        assert forall|k1: int, k2: int|
                            0 <= k1 < q.len() && 0 <= k2 < q.len() && k1 != k2
                            implies (#[trigger] q[k1]).character != (#[trigger] q[k2]).character
                            by {
                            if k1 < n && k2 < n {
                                assert(q[k1] == o[k1] && q[k2] == o[k2]);
                            } else if k1 < n {
                                assert(q[k1] == o[k1] && q[k2] == nc);
                            } else if k2 < n {
                                assert(q[k2] == o[k2] && q[k1] == nc);
                            }
                        }
                        assert forall|k: int| 0 <= k < q.len() implies wf(#[trigger] q[k]) by {
                            if k < n {
                                lemma_wf_child(*old(self), k);
                                assert(q[k] == o[k]);
                            }
                        }
                        lemma_wf_assemble(*self);
                        assert forall|d: char| #[trigger] seek(q, d) == (if d == c { Some(nc) }
                            else { seek(o, d) }) by {
                            lemma_seek_extend(o, nc, d);
                            if d == c {
                            } else {
                                match seek(o, d) {
                                    Some(_) => {},
                                    None => {},
                                }
                            }
                        }
                        // the fresh chain below `nc` holds exactly the suffix
                        assert(forall|s2: Seq<char>|
                            #[trigger] nc.has_word(s2) <==> (fresh.has_word(s2) || s2 == rest));
                        assert forall|s2: Seq<char>|
                            #[trigger] nc.has_word(s2) <==> s2 == rest by {
                            if fresh.has_word(s2) {
                                assert(s2.len() == 0 && fresh.is_word);
                            }
                        }
                        assert forall|s2: Seq<char>|
                            #[trigger] nc.has_prefix(s2) <==> s2.is_prefix_of(rest) by {
                            assert(nc.has_prefix(s2) <==> (fresh.has_prefix(s2)
                                || s2.is_prefix_of(rest)));
                            if fresh.has_prefix(s2) {
                                assert(s2.len() == 0);
                                assert(s2 =~= rest.subrange(0, 0));
                            }
                        }
                        assert forall|s: Seq<char>|
                            #[trigger] self.has_word(s)
                                <==> (old(self).has_word(s) || s == target) by {
                            if s.len() == 0 {
                                assert(s != target);
                            } else if s[0] != c {
                                assert(s != target);
                                assert(seek(q, s[0]) == seek(o, s[0]));
                            } else {
                                lemma_head_tail_eq(s, target);
                                assert(seek(q, s[0]) == Some(nc));
                                assert(self.has_word(s) == nc.has_word(s.skip(1)));
                                assert(seek(o, s[0]) is None);
                                assert(!old(self).has_word(s));
                            }
                        }
                        assert forall|s: Seq<char>|
                            #[trigger] self.has_prefix(s)
                                <==> (old(self).has_prefix(s) || s.is_prefix_of(target)) by {
                            if s.len() == 0 {
                                assert(s =~= target.subrange(0, 0));
                            } else if s[0] != c {
                                assert(seek(q, s[0]) == seek(o, s[0]));
                                if s.is_prefix_of(target) {
                                    lemma_prefix_head(s, target);
                                }
                            } else {
                                lemma_head_tail_prefix(s, target);
                                assert(seek(q, s[0]) == Some(nc));
                                assert(self.has_prefix(s) == nc.has_prefix(s.skip(1)));
                                assert(seek(o, s[0]) is None);
                                assert(!old(self).has_prefix(s));
                            }
                        }
                    }
                }
            }
        }
    }

    /// Adds one word to the trie, keeping at most one child per letter at
    /// every node; re-inserting a word the trie already holds changes
    /// nothing.
    pub fn insert(&mut self, word: &Vec<char>)
        requires
            wf(*old(self)),
        ensures
            final(self).character == old(self).character,
            wf(*final(self)),
            old(self).has_word(word@) ==> *final(self) == *old(self),
            forall|s: Seq<char>|
                #[trigger] final(self).has_word(s) <==> (old(self).has_word(s) || s == word@),
            forall|s: Seq<char>|
                #[trigger] final(self).has_prefix(s)
                    <==> (old(self).has_prefix(s) || s.is_prefix_of(word@)),
    {
        if self.contains_word(word) {
            proof {
                assert forall|s: Seq<char>|
                    #[trigger] self.has_prefix(s)
                        <==> (self.has_prefix(s) || s.is_prefix_of(word@)) by {
                    if s.is_prefix_of(word@) {
                        lemma_has_word_prefix(*self, word@, s.len() as int);
                        assert(s =~= word@.take(s.len() as int));
                    }
                }
            }
            return;
        }
        proof {
            assert(word@.skip(0) =~= word@);
        }
        self.insert_from(word, 0);
    }

    /// Walks the trie along `prefix`; true exactly when every character in
    /// turn has a matching child.
    pub fn contains_prefix(&self, prefix: &Vec<char>) -> (r: bool)
        ensures
            r == self.has_prefix(prefix@),
    {
        let mut cur: &Node = self;
        let mut k: usize = 0;
        let n = prefix.len();
        proof {
            assert(prefix@.skip(0) =~= prefix@);
        }
        while k < n
            invariant
                k <= n,
                n == prefix@.len(),
                self.has_prefix(prefix@) <==> cur.has_prefix(prefix@.skip(k as int)),
            decreases n - k,
        {
            let ghost p = prefix@.skip(k as int);
            proof {
                assert(p.len() == n - k);
                assert(p[0] == prefix@[k as int]);
                assert(p.skip(1) =~= prefix@.skip(k as int + 1));
            }
            match find_child(&cur.children, prefix[k]) {
                Some(j) => {
                    proof {
                        lemma_seek_at(cur.children@, p[0], j as int);
                        assert(cur.has_prefix(p) == cur.children@[j as int].has_prefix(p.skip(1)));
                    }
                    cur = &cur.children[j];
                }
                None => {
                    proof {
                        lemma_seek_none(cur.children@, p[0]);
                        assert(!cur.has_prefix(p));
                    }
                    return false;
                }
            }
            k = k + 1;
        }
        proof {
            assert(prefix@.skip(n as int).len() == 0);
        }
        true
    }

    /// Walks the trie along `word`; true exactly when the walk succeeds and
    /// ends on a terminal node, i.e. `word` was inserted.
    pub fn contains_word(&self, word: &Vec<char>) -> (r: bool)
        ensures
            r == self.has_word(word@),
    {
        let mut cur: &Node = self;
        let mut k: usize = 0;
        let n = word.len();
        proof {
            assert(word@.skip(0) =~= word@);
        }
        while k < n
            invariant
                k <= n,
                n == word@.len(),
                self.has_word(word@) <==> cur.has_word(word@.skip(k as int)),
            decreases n - k,
        {
            let ghost p = word@.skip(k as int);
            proof {
                assert(p.len() == n - k);
                assert(p[0] == word@[k as int]);
                assert(p.skip(1) =~= word@.skip(k as int + 1));
            }
            match find_child(&cur.children, word[k]) {
                Some(j) => {
                    proof {
                        lemma_seek_at(cur.children@, p[0], j as int);
                        assert(cur.has_word(p) == cur.children@[j as int].has_word(p.skip(1)));
                    }
                    cur = &cur.children[j];
                }
                None => {
                    proof {
                        lemma_seek_none(cur.children@, p[0]);
                        assert(!cur.has_word(p));
                    }
                    return false;
                }
            }
            k = k + 1;
        }
        proof {
            assert(word@.skip(n as int).len() == 0);
        }
        cur.is_word
    }
}

/// Builds the trie of the given word list: the resulting root indexes exactly
/// those words.
pub fn construct_tree(input: &Vec<Vec<char>>) -> (root: Node)
    ensures
        represents(root, input.deep_view()),
        wf(root),
        root.character == ' ',
{
    let ghost words = input.deep_view();
    let mut root = Node { character: ' ', is_word: false, children: Vec::new() };
    proof {
        lemma_leaf(root);
        lemma_leaf_wf(root);
    }
    let mut idx: usize = 0;
    while idx < input.len()
        invariant
            idx <= input@.len(),
            words == input.deep_view(),
            words.len() == input@.len(),
            forall|i: int| 0 <= i < input@.len() ==> words[i] == #[trigger] input@[i]@,
            root.character == ' ',
            wf(root),
            forall|s: Seq<char>|
                #[trigger] root.has_word(s) <==> exists|i: int|
                    0 <= i < idx && #[trigger] words[i] == s,
            forall|s: Seq<char>|
                #[trigger] root.has_prefix(s) <==> (s.len() == 0 || exists|i: int|
                    0 <= i < idx && s.is_prefix_of(#[trigger] words[i])),
        decreases input@.len() - idx,
    {
        let ghost before = root;
        root.insert(&input[idx]);
        proof {
            assert(input@[idx as int]@ == words[idx as int]);
            assert forall|s: Seq<char>|
                #[trigger] root.has_word(s) <==> exists|i: int|
                    0 <= i < idx + 1 && #[trigger] words[i] == s by {
                if root.has_word(s) {
                    if before.has_word(s) {
                        let i = choose|i: int| 0 <= i < idx && #[trigger] words[i] == s;
                        assert(0 <= i < idx + 1 && words[i] == s);
                    } else {
                        assert(words[idx as int] == s);
                    }
                } else {
                    assert(forall|i: int| 0 <= i < idx + 1 ==> #[trigger] words[i] != s);
                }
            }
            assert forall|s: Seq<char>|
                #[trigger] root.has_prefix(s) <==> (s.len() == 0 || exists|i: int|
                    0 <= i < idx + 1 && s.is_prefix_of(#[trigger] words[i])) by {
                if root.has_prefix(s) && s.len() > 0 {
                    if before.has_prefix(s) {
                        let i = choose|i: int| 0 <= i < idx && s.is_prefix_of(#[trigger] words[i]);
                        assert(0 <= i < idx + 1 && s.is_prefix_of(words[i]));
                    } else {
                        assert(s.is_prefix_of(words[idx as int]));
                    }
                }
            }
        }
        idx = idx + 1;
    }
    proof {
        assert forall|s: Seq<char>| #[trigger] root.has_word(s) <==> words.contains(s) by {
            if words.contains(s) {
                let i = choose|i: int| 0 <= i < words.len() && words[i] == s;
            }
        }
    }
    root
}

/// A node that holds a word admits every leading part of that word as a
/// prefix.
pub proof fn lemma_has_word_prefix(nd: Node, w: Seq<char>, k: int)
    requires
        nd.has_word(w),
        0 <= k <= w.len(),
    ensures
        nd.has_prefix(w.take(k)),
    decreases w.len(),
{
    if k == 0 {
        assert(w.take(0).len() == 0);
    } else {
        let child = seek(nd.children@, w[0])->Some_0;
        assert(child.has_word(w.skip(1)));
        assert(w.take(k)[0] == w[0]);
        assert(w.take(k).skip(1) =~= w.skip(1).take(k - 1));
        lemma_has_word_prefix(child, w.skip(1), k - 1);
    }
}

/// For every inserted word, every non-empty prefix of it is reported as a
/// valid prefix by the trie.
pub proof fn lemma_prefix_of_inserted_word(
    root: Node,
    words: Seq<Seq<char>>,
    w: Seq<char>,
    p: Seq<char>,
)
    requires
        represents(root, words),
        words.contains(w),
        p.len() > 0,
        p.is_prefix_of(w),
    ensures
        root.has_prefix(p),
{
    let i = choose|i: int| 0 <= i < words.len() && words[i] == w;
    assert(p.is_prefix_of(words[i]));
}

/// A non-empty sequence that is a prefix of no inserted word is rejected by
/// the trie's prefix query.
pub proof fn lemma_prefix_of_no_word(root: Node, words: Seq<Seq<char>>, p: Seq<char>)
    requires
        represents(root, words),
        p.len() > 0,
        forall|i: int| 0 <= i < words.len() ==> !p.is_prefix_of(#[trigger] words[i]),
    ensures
        !root.has_prefix(p),
{
}

} // verus!
