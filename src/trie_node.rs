//! The node of a trie and the operations on its children and payload.
use vstd::prelude::*;

use crate::tree::Tree;

verus! {

/// One position in the character-sequence space: the children, each behind
/// the character that leads to it, and the payload of the key that ends here.
///
/// Children are kept in a vector sorted by character, so siblings are always
/// visited in character order.
pub struct TrieNode<TValue> {
    children: Vec<(char, TrieNode<TValue>)>,
    value: Option<TValue>,
}

impl<TValue> TrieNode<TValue> {
    spec fn edges_of(s: Seq<(char, TrieNode<TValue>)>) -> Seq<(char, Tree<TValue>)>
        decreases s,
    {
        if s.len() == 0 {
            Seq::empty()
        } else {
            Self::edges_of(s.drop_last()).push((s.last().0, s.last().1.tree()))
        }
    }

    /// The model of the subtree rooted at this node.
    pub closed spec fn tree(&self) -> Tree<TValue>
        decreases self,
    {
        Tree { edges: Self::edges_of(self.children@), val: self.value }
    }

    proof fn lemma_edges_of(s: Seq<(char, TrieNode<TValue>)>)
        ensures
            Self::edges_of(s).len() == s.len(),
            forall|i: int|
                0 <= i < s.len() ==> #[trigger] Self::edges_of(s)[i] == (s[i].0, s[i].1.tree()),
        decreases s.len(),
    {
        if s.len() > 0 {
            Self::lemma_edges_of(s.drop_last());
        }
    }

    proof fn lemma_view(&self)
        ensures
            self.tree().edges.len() == self.children@.len(),
            self.tree().val == self.value,
            forall|i: int|
                0 <= i < self.children@.len() ==> #[trigger] self.tree().edges[i] == (
                    self.children@[i].0,
                    self.children@[i].1.tree(),
                ),
    {
        Self::lemma_edges_of(self.children@);
    }

    proof fn lemma_view_all()
        ensures
            forall|n: TrieNode<TValue>|
                {
                    &&& (#[trigger] n.tree()).edges.len() == n.children@.len()
                    &&& n.tree().val == n.value
                    &&& forall|i: int|
                        0 <= i < n.children@.len() ==> #[trigger] n.tree().edges[i] == (
                            n.children@[i].0,
                            n.children@[i].1.tree(),
                        )
                },
    {
        assert forall|n: TrieNode<TValue>|
            {
                &&& (#[trigger] n.tree()).edges.len() == n.children@.len()
                &&& n.tree().val == n.value
                &&& forall|i: int|
                    0 <= i < n.children@.len() ==> #[trigger] n.tree().edges[i] == (
                        n.children@[i].0,
                        n.children@[i].1.tree(),
                    )
            } by {
            n.lemma_view();
        }
    }

    /// Creates a node with no children and no payload.
    pub fn new() -> (r: Self)
        ensures
            r.tree() == Tree::<TValue>::leaf(),
    {
        let r = TrieNode { children: Vec::new(), value: None };
        proof {
            r.lemma_view();
            assert(r.tree().edges =~= Seq::empty());
        }
        r
    }

    /// Whether the node has at least one child.
    pub fn has_children(&self) -> (r: bool)
        ensures
            r == (self.tree().edges.len() > 0),
    {
        proof {
            self.lemma_view();
        }
        self.children.len() > 0
    }

    /// Finds the child labelled `c`: `Ok` with its index, or `Err` with the
    /// index at which such a child would be inserted.
    fn locate(&self, c: char) -> (r: Result<usize, usize>)
        requires
            self.tree().labels_sorted(),
        ensures
            match r {
                Ok(i) => i < self.tree().edges.len() && self.tree().edges[i as int].0 == c
                    && self.tree().has_label(c) && self.tree().label_index(c) == i,
                Err(p) => !self.tree().has_label(c) && self.tree().fits_at(c, p as int)
                    && self.tree().insert_pos(c) == p,
            },
    {
        proof {
            self.lemma_view();
        }
        let ghost t = self.tree();
        let mut i: usize = 0;
        while i < self.children.len()
            invariant
                0 <= i <= self.children@.len(),
                t == self.tree(),
                t.labels_sorted(),
                t.edges.len() == self.children@.len(),
                forall|j: int| 0 <= j < self.children@.len() ==> (#[trigger] t.edges[j]).0 == self.children@[j].0,
                forall|j: int| 0 <= j < i ==> (#[trigger] t.edges[j]).0 < c,
            decreases self.children.len() - i,
        {
            let l = self.children[i].0;
            proof {
                assert(t.edges[i as int].0 == l);
            }
            if l == c {
                proof {
                    assert(t.edges[i as int].0 == c);
                    assert(t.has_label(c));
                    let k = t.label_index(c);
                    if k < i as int {
                        assert(t.edges[k].0 < c);
                    } else if k > i as int {
                        assert(t.edges[i as int].0 < t.edges[k].0);
                    }
                }
                return Ok(i);
            }
            if c < l {
                proof {
                    assert forall|j: int| i <= j < t.edges.len() implies c < (
                    (#[trigger] t.edges[j]).0) by {
                        if j > i as int {
                            assert(t.edges[i as int].0 < t.edges[j].0);
                        }
                    }
                    Tree::<TValue>::lemma_fits_at_unique(t, c, i as int);
                }
                return Err(i);
            }
            i = i + 1;
        }
        proof {
            Tree::<TValue>::lemma_fits_at_unique(t, c, i as int);
        }
        Err(i)
    }

    /// The child labelled `c`, if there is one.
    pub fn get_child(&self, c: char) -> (r: Option<&TrieNode<TValue>>)
        requires
            self.tree().labels_sorted(),
        ensures
            match r {
                Some(n) => self.tree().child(c) == Some(n.tree()),
                None => self.tree().child(c) is None,
            },
    {
        proof {
            self.lemma_view();
        }
        match self.locate(c) {
            Ok(i) => Some(&self.children[i].1),
            Err(_) => None,
        }
    }

    /// The child labelled `c`, if there is one, to be changed in place.
    pub fn get_child_mut(&mut self, c: char) -> (r: Option<&mut TrieNode<TValue>>)
        requires
            old(self).tree().labels_sorted(),
        ensures
            match r {
                Some(n) => {
                    &&& old(self).tree().child(c) == Some(n.tree())
                    &&& final(self).tree().edges =~= old(self).tree().edges.update(
                        old(self).tree().label_index(c),
                        (c, final(n).tree()),
                    )
                    &&& final(self).tree().val == old(self).tree().val
                },
                None => {
                    &&& old(self).tree().child(c) is None
                    &&& final(self).tree() == old(self).tree()
                },
            },
    {
        proof {
            self.lemma_view();
        }
        match self.locate(c) {
            Ok(i) => {
                proof {
                    Self::lemma_view_all();
                }
                Some(&mut self.children[i].1)
            },
            Err(_) => None,
        }
    }

    /// The child labelled `c`, created empty first if there is none, to be
    /// changed in place. The labels stay sorted.
    pub fn add_child(&mut self, c: char) -> (r: &mut TrieNode<TValue>)
        requires
            old(self).tree().labels_sorted(),
        ensures
            final(self).tree().val == old(self).tree().val,
            old(self).tree().has_label(c) ==> {
                &&& r.tree() == old(self).tree().child(c)->0
                &&& final(self).tree().edges =~= old(self).tree().edges.update(
                    old(self).tree().label_index(c),
                    (c, final(r).tree()),
                )
            },
            !old(self).tree().has_label(c) ==> {
                &&& old(self).tree().fits_at(c, old(self).tree().insert_pos(c))
                &&& r.tree() == Tree::<TValue>::leaf()
                &&& final(self).tree().edges =~= old(self).tree().edges.insert(
                    old(self).tree().insert_pos(c),
                    (c, final(r).tree()),
                )
            },
    {
        proof {
            Self::lemma_view_all();
        }
        match self.locate(c) {
            Ok(i) => &mut self.children[i].1,
            Err(p) => {
                self.children.insert(p, (c, TrieNode::new()));
                &mut self.children[p].1
            },
        }
    }

    /// Removes the child labelled `c`, if there is one.
    pub fn remove_child(&mut self, c: char)
        requires
            old(self).tree().labels_sorted(),
        ensures
            final(self).tree().val == old(self).tree().val,
            old(self).tree().has_label(c) ==> final(self).tree().edges =~= old(
                self,
            ).tree().edges.remove(old(self).tree().label_index(c)),
            !old(self).tree().has_label(c) ==> final(self).tree() == old(self).tree(),
    {
        proof {
            Self::lemma_view_all();
        }
        match self.locate(c) {
            Ok(i) => {
                self.children.remove(i);
            },
            Err(_) => {},
        }
    }

    /// Whether a key ends at this node.
    pub fn is_end_of_word(&self) -> (r: bool)
        ensures
            r == self.tree().val is Some,
    {
        proof {
            self.lemma_view();
        }
        self.value.is_some()
    }

    /// The payload stored at this node.
    pub fn get_value(&self) -> (r: Option<&TValue>)
        ensures
            match r {
                Some(v) => self.tree().val == Some(*v),
                None => self.tree().val is None,
            },
    {
        proof {
            self.lemma_view();
        }
        self.value.as_ref()
    }

    /// The children with their labels, in label order.
    pub fn children_iter(&self) -> (r: Vec<(char, &TrieNode<TValue>)>)
        ensures
            r@.len() == self.tree().edges.len(),
            forall|i: int|
                0 <= i < r@.len() ==> (#[trigger] r@[i]).0 == self.tree().edges[i].0 && r@[i].1.tree()
                    == self.tree().edges[i].1,
    {
        proof {
            self.lemma_view();
        }
        let mut r: Vec<(char, &TrieNode<TValue>)> = Vec::new();
        let mut i: usize = 0;
        while i < self.children.len()
            invariant
                0 <= i <= self.children@.len(),
                r@.len() == i,
                forall|j: int|
                    0 <= j < i ==> (#[trigger] r@[j]).0 == self.children@[j].0 && r@[j].1
                        == &self.children@[j].1,
            decreases self.children.len() - i,
        {
            r.push((self.children[i].0, &self.children[i].1));
            i = i + 1;
        }
        r
    }

    /// Stores `value` at this node, replacing any payload it had.
    pub fn set_value(&mut self, value: TValue)
        ensures
            final(self).tree() == (Tree { edges: old(self).tree().edges, val: Some(value) }),
    {
        proof {
            Self::lemma_view_all();
        }
        self.value = Some(value);
        proof {
            assert(self.tree().edges =~= old(self).tree().edges);
        }
    }

    /// Removes the payload from this node and returns it.
    pub fn clear_value(&mut self) -> (r: Option<TValue>)
        ensures
            r == old(self).tree().val,
            final(self).tree() == (Tree { edges: old(self).tree().edges, val: None::<TValue> }),
    {
        proof {
            Self::lemma_view_all();
        }
        let r = self.value.take();
        proof {
            assert(self.tree().edges =~= old(self).tree().edges);
        }
        r
    }
}

impl<TValue> Default for TrieNode<TValue> {
    fn default() -> (r: Self)
        ensures
            r.tree() == Tree::<TValue>::leaf(),
    {
        Self::new()
    }
}

} // verus!
