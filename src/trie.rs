//! The trie: insertion, lookup, deletion with pruning, prefix search and
//! bounded autocomplete.
use vstd::prelude::*;

use crate::tree::{
    capped, fill_up, lemma_fill_up_concat, lemma_fill_up_empty, lemma_prepend_concat,
    lemma_prepend_twice, lex_sorted, prepend_all, Tree,
};
use crate::trie_node::TrieNode;

verus! {

/// A map from character sequences to values, stored as a prefix tree.
///
/// Keys are visited in lexicographic order of their characters' code points,
/// since the children of each node are sorted by character.
pub struct Trie<TValue: Clone> {
    root: TrieNode<TValue>,
}

impl<TValue: Clone> View for Trie<TValue> {
    type V = Map<Seq<char>, TValue>;

    /// The stored keys with their values.
    open spec fn view(&self) -> Map<Seq<char>, TValue> {
        self.tree().key_map()
    }
}

/// An item that can be read as a key: its characters, borrowed as a `str`.
pub trait AsKey {
    /// The characters of the key.
    spec fn key_view(&self) -> Seq<char>;

    fn as_key(&self) -> (r: &str)
        ensures
            r@ == self.key_view(),
    ;
}

impl AsKey for String {
    open spec fn key_view(&self) -> Seq<char> {
        self@
    }

    fn as_key(&self) -> (r: &str) {
        self.as_str()
    }
}

impl<'a> AsKey for &'a str {
    open spec fn key_view(&self) -> Seq<char> {
        (*self)@
    }

    fn as_key(&self) -> (r: &str) {
        *self
    }
}

/// `after` is `before` with `key` stored, under a clone of `value`.
pub open spec fn inserted<TValue: Clone>(
    before: Map<Seq<char>, TValue>,
    after: Map<Seq<char>, TValue>,
    key: Seq<char>,
    value: TValue,
) -> bool {
    &&& after.contains_key(key)
    &&& cloned(value, after[key])
    &&& after == before.insert(key, after[key])
}

/// `removed` tells whether `key` was stored, and not empty, in `before`;
/// `after` is `before` without it.
pub open spec fn deleted<TValue>(
    before: Map<Seq<char>, TValue>,
    after: Map<Seq<char>, TValue>,
    key: Seq<char>,
    removed: bool,
) -> bool {
    &&& removed == (key.len() > 0 && before.contains_key(key))
    &&& after == if removed {
        before.remove(key)
    } else {
        before
    }
}

/// No item after the `j`-th gives the same key.
pub open spec fn is_last_with_key<T: AsKey>(items: Seq<T>, j: int) -> bool {
    forall|j2: int| j < j2 < items.len() ==> (#[trigger] items[j2].key_view()) != items[j].key_view()
}

/// `w` is a clone of a value that `f` may return for `item`.
pub open spec fn made_by<T, TValue: Clone, F: Fn(&T) -> TValue>(f: &F, item: &T, w: TValue) -> bool {
    exists|v: TValue| #[trigger] f.ensures((item,), v) && cloned(v, w)
}

/// The character sequences of `v`, in order.
pub open spec fn string_views(v: Seq<String>) -> Seq<Seq<char>> {
    v.map_values(|s: String| s@)
}

/// Relies on `String::push`: appends the character at the end of the string.
#[verifier::external_body]
fn push_char(s: &mut String, c: char)
    ensures
        final(s)@ == old(s)@.push(c),
{
    s.push(c);
}

/// The characters of `s`, in order.
fn chars_of(s: &str) -> (r: Vec<char>)
    ensures
        r@ == s@,
{
    let mut r: Vec<char> = Vec::new();
    for c in it: s.chars()
        invariant
            r@ == it.seq().take(it.index() as int),
    {
        r.push(c);
    }
    r
}

impl<TValue: Clone> Trie<TValue> {
    #[verifier::type_invariant]
    spec fn inv(&self) -> bool {
        &&& self.root.tree().sorted()
        &&& self.root.tree().pruned()
    }

    /// The model of the whole tree, from the root.
    pub closed spec fn tree(&self) -> Tree<TValue> {
        self.root.tree()
    }

    proof fn lemma_prefix(&self, p: Seq<char>)
        requires
            self.tree().pruned(),
        ensures
            (self.tree().subtree(p) is Some) == (p.len() == 0 || exists|k: Seq<char>|
                #[trigger] self@.contains_key(k) && p.is_prefix_of(k)),
    {
        let t = self.tree();
        Tree::<TValue>::lemma_prefix_reaches(t, p);
        if exists|k: Seq<char>| #[trigger] t.key_map().contains_key(k) && p.is_prefix_of(k) {
            let k = choose|k: Seq<char>| #[trigger] t.key_map().contains_key(k) && p.is_prefix_of(k);
            assert(self@.contains_key(k));
        }
        if exists|k: Seq<char>| #[trigger] self@.contains_key(k) && p.is_prefix_of(k) {
            let k = choose|k: Seq<char>| #[trigger] self@.contains_key(k) && p.is_prefix_of(k);
            assert(t.key_map().contains_key(k));
        }
    }

    /// What a list of completions says over the stored keys.
    proof fn lemma_completion_facts(&self, p: Seq<char>, n: int, r: Seq<String>)
        requires
            self.tree().sorted(),
            n >= 0,
            string_views(r) == self.tree().completions(p, n),
        ensures
            r.len() <= n,
            string_views(r).no_duplicates(),
            lex_sorted(string_views(r)),
            forall|i: int|
                0 <= i < r.len() ==> self@.contains_key(#[trigger] r[i]@) && p.is_prefix_of(r[i]@),
            self@.contains_key(p) && n > 0 ==> r.len() > 0 && r[0]@ == p,
            r.len() < n ==> forall|k: Seq<char>|
                #[trigger] self@.contains_key(k) && p.is_prefix_of(k) ==> string_views(r).contains(k),
    {
        let t = self.tree();
        Tree::<TValue>::lemma_completions(t, p, n);
        let c = t.completions(p, n);
        assert forall|i: int| 0 <= i < r.len() implies self@.contains_key(#[trigger] r[i]@)
            && p.is_prefix_of(r[i]@) by {
            assert(string_views(r)[i] == r[i]@);
            assert(t.lookup(c[i]) is Some);
        }
        if self@.contains_key(p) && n > 0 {
            assert(string_views(r)[0] == r[0]@);
        }
        if r.len() < n {
            assert forall|k: Seq<char>| #[trigger] self@.contains_key(k) && p.is_prefix_of(k) implies string_views(
                r,
            ).contains(k) by {
                assert(t.lookup(k) is Some);
            }
        }
    }

    /// Creates an empty trie.
    pub fn new() -> (r: Self)
        ensures
            r.tree() == Tree::<TValue>::leaf(),
            r@ == Map::<Seq<char>, TValue>::empty(),
    {
        let r = Trie { root: TrieNode::new() };
        proof {
            assert forall|k: Seq<char>| !(#[trigger] r@.contains_key(k)) by {
                Tree::<TValue>::lemma_leaf_lookup(k);
            }
            assert(r@ =~= Map::<Seq<char>, TValue>::empty());
        }
        r
    }

    /// Stores a clone of `value` under `key@.skip(pos)` below `node`.
    fn insert_at(node: &mut TrieNode<TValue>, key: &Vec<char>, pos: usize, value: &TValue)
        requires
            old(node).tree().sorted(),
            old(node).tree().pruned(),
            pos <= key@.len(),
        ensures
            final(node).tree().sorted(),
            final(node).tree().pruned(),
            final(node).tree().is_live(),
            final(node).tree().lookup(key@.skip(pos as int)) is Some,
            cloned(*value, final(node).tree().lookup(key@.skip(pos as int))->0),
            forall|k: Seq<char>|
                k != key@.skip(pos as int) ==> #[trigger] final(node).tree().lookup(k) == old(
                    node,
                ).tree().lookup(k),
        decreases key@.len() - pos,
    {
        let ghost t = node.tree();
        let ghost rest = key@.skip(pos as int);
        if pos == key.len() {
            node.set_value(value.clone());
            proof {
                let u = node.tree();
                assert(u.edges == t.edges);
                assert(t.sorted());
                assert(t.labels_sorted());
                assert(u.labels_sorted());
                assert(u.sorted());
                assert(rest =~= Seq::<char>::empty());
                assert forall|k: Seq<char>| k != rest implies #[trigger] u.lookup(k) == t.lookup(k) by {
                    if k.len() > 0 {
                        Tree::<TValue>::lemma_lookup_step(u, k);
                        Tree::<TValue>::lemma_lookup_step(t, k);
                        assert(u.child(k[0]) == t.child(k[0]));
                    } else {
                        assert(k =~= rest);
                    }
                }
            }
        } else {
            let c = key[pos];
            let ghost had = t.has_label(c);
            let ghost s_old = if had {
                t.child(c)->0
            } else {
                Tree::<TValue>::leaf()
            };
            let child = node.add_child(c);
            Self::insert_at(child, key, pos + 1, value);
            proof {
                let u = node.tree();
                let s_new = child.tree();
                if had {
                    assert(u.edges == t.edges.update(t.label_index(c), (c, s_new)));
                    Tree::<TValue>::lemma_update_child(t, c, s_new, u);
                } else {
                    assert(u.edges == t.edges.insert(t.insert_pos(c), (c, s_new)));
                    Tree::<TValue>::lemma_insert_child(t, c, s_new, u);
                }
                let tail = key@.skip(pos + 1);
                assert(rest[0] == c);
                assert(rest.drop_first() =~= tail);
                Tree::<TValue>::lemma_lookup_step(u, rest);
                assert forall|k: Seq<char>| k != rest implies #[trigger] u.lookup(k) == t.lookup(k) by {
                    if k.len() > 0 {
                        Tree::<TValue>::lemma_lookup_step(u, k);
                        Tree::<TValue>::lemma_lookup_step(t, k);
                        if k[0] == c {
                            if k.drop_first() == tail {
                                assert forall|i: int| 0 <= i < k.len() implies k[i] == rest[i] by {
                                    if i > 0 {
                                        assert(k[i] == k.drop_first()[i - 1]);
                                        assert(rest[i] == rest.drop_first()[i - 1]);
                                    }
                                }
                                assert(k =~= rest);
                            }
                            if !had {
                                Tree::<TValue>::lemma_leaf_lookup(k.drop_first());
                            }
                        }
                    }
                }
            }
        }
    }

    /// Stores a clone of `value` under `key`, replacing the value the key had.
    pub fn insert(&mut self, key: &str, value: &TValue)
        ensures
            inserted(old(self)@, final(self)@, key@, *value),
            final(self).tree().sorted(),
            final(self).tree().pruned(),
    {
        proof {
            use_type_invariant(&*self);
        }
        let chars = chars_of(key);
        let mut root = TrieNode::new();
        std::mem::swap(&mut root, &mut self.root);
        Self::insert_at(&mut root, &chars, 0, value);
        self.root = root;
        proof {
            assert(chars@.skip(0) =~= key@);
            assert(self@ =~= old(self)@.insert(key@, self@[key@]));
        }
    }

    /// The value stored under `key`, if `key` is stored.
    pub fn get(&self, key: &str) -> (r: Option<&TValue>)
        ensures
            match r {
                Some(v) => self@.contains_key(key@) && *v == self@[key@],
                None => !self@.contains_key(key@),
            },
    {
        proof {
            use_type_invariant(self);
        }
        let ghost t = self.tree();
        let mut current_node = &self.root;
        for c in it: key.chars()
            invariant
                t == self.tree(),
                t.sorted(),
                it.seq() == key@,
                t.subtree(key@.take(it.index() as int)) == Some(current_node.tree()),
        {
            proof {
                Tree::<TValue>::lemma_subtree_push(t, key@.take(it.index() as int), c);
                assert(key@.take(it.index() as int).push(c) =~= key@.take(it.index() + 1));
                Tree::<TValue>::lemma_subtree_wf(t, key@.take(it.index() as int));
            }
            if let Some(node) = current_node.get_child(c) {
                current_node = node;
            } else {
                proof {
                    let q = key@.skip(it.index() + 1);
                    assert(key@.take(it.index() + 1) + q =~= key@);
                    Tree::<TValue>::lemma_subtree_append(t, key@.take(it.index() + 1), q);
                }
                return None;
            }
        }
        proof {
            assert(key@.take(key@.len() as int) =~= key@);
        }
        current_node.get_value()
    }

    /// Whether some node is reached by following `prefix` from the root: some
    /// stored key starts with `prefix`, or `prefix` is empty.
    pub fn prefix_search(&self, prefix: &str) -> (r: bool)
        ensures
            r == (self.tree().subtree(prefix@) is Some),
            r == (prefix@.len() == 0 || exists|k: Seq<char>|
                #[trigger] self@.contains_key(k) && prefix@.is_prefix_of(k)),
            prefix@.len() == 0 ==> r,
    {
        proof {
            use_type_invariant(self);
        }
        let ghost t = self.tree();
        let mut current_node = &self.root;
        for c in it: prefix.chars()
            invariant
                t == self.tree(),
                t.sorted(),
                t.pruned(),
                it.seq() == prefix@,
                t.subtree(prefix@.take(it.index() as int)) == Some(current_node.tree()),
        {
            proof {
                Tree::<TValue>::lemma_subtree_push(t, prefix@.take(it.index() as int), c);
                assert(prefix@.take(it.index() as int).push(c) =~= prefix@.take(it.index() + 1));
                Tree::<TValue>::lemma_subtree_wf(t, prefix@.take(it.index() as int));
            }
            if let Some(child_node) = current_node.get_child(c) {
                current_node = child_node;
            } else {
                proof {
                    let q = prefix@.skip(it.index() + 1);
                    assert(prefix@.take(it.index() + 1) + q =~= prefix@);
                    Tree::<TValue>::lemma_subtree_append(t, prefix@.take(it.index() + 1), q);
                    self.lemma_prefix(prefix@);
                }
                return false;
            }
        }
        proof {
            assert(prefix@.take(prefix@.len() as int) =~= prefix@);
            self.lemma_prefix(prefix@);
        }
        true
    }

    /// Removes the key `key@.skip(pos)` below `current_node`, if it is there,
    /// and prunes the nodes that no longer lead to a key. Sets `deleted` when
    /// the key was found; returns whether `current_node` itself has become
    /// useless, so that its parent should remove it.
    fn delete_recursively(
        current_node: &mut TrieNode<TValue>,
        key: &Vec<char>,
        pos: usize,
        deleted: &mut bool,
    ) -> (prune: bool)
        requires
            old(current_node).tree().sorted(),
            old(current_node).tree().pruned(),
            pos <= key@.len(),
        ensures
            ({
                let t = old(current_node).tree();
                let u = final(current_node).tree();
                let k = key@.skip(pos as int);
                &&& *final(deleted) == (*old(deleted) || t.lookup(k) is Some)
                &&& t.lookup(k) is None ==> u == t
                &&& forall|k2: Seq<char>| #[trigger]
                    u.lookup(k2) == if k2 == k {
                        None
                    } else {
                        t.lookup(k2)
                    }
                &&& u.sorted()
                &&& u.pruned()
                &&& prune == (t.lookup(k) is Some && !u.is_live())
            }),
        decreases key@.len() - pos,
    {
        let ghost t = current_node.tree();
        let ghost k = key@.skip(pos as int);
        if pos == key.len() {
            proof {
                assert(k =~= Seq::<char>::empty());
            }
            if current_node.is_end_of_word() {
                current_node.clear_value();
                *deleted = true;
                proof {
                    let u = current_node.tree();
                    assert forall|k2: Seq<char>| #[trigger]
                        u.lookup(k2) == if k2 == k {
                            None
                        } else {
                            t.lookup(k2)
                        } by {
                        if k2.len() > 0 {
                            Tree::<TValue>::lemma_lookup_step(u, k2);
                            Tree::<TValue>::lemma_lookup_step(t, k2);
                        } else {
                            assert(k2 =~= k);
                        }
                    }
                }
                return !current_node.has_children();
            }
            return false;
        }
        let c = key[pos];
        let ghost rest = key@.skip(pos + 1);
        proof {
            assert(k[0] == c);
            assert(k.drop_first() =~= rest);
            Tree::<TValue>::lemma_lookup_step(t, k);
        }
        let ghost s = t.child(c)->0;
        let ghost mut s2 = s;
        let should_delete_child = if let Some(child_node) = current_node.get_child_mut(c) {
            proof {
                Tree::<TValue>::lemma_child_wf(t, c);
            }
            let r = Self::delete_recursively(child_node, key, pos + 1, deleted);
            proof {
                s2 = child_node.tree();
            }
            r
        } else {
            return false;
        };
        let ghost u1 = current_node.tree();
        proof {
            if s.lookup(rest) is None {
                assert(u1.edges =~= t.edges);
                assert(u1 == t);
            } else {
                assert(u1.edges == t.edges.update(t.label_index(c), (c, s2)));
                Tree::<TValue>::lemma_update_child(t, c, s2, u1);
            }
        }
        if should_delete_child {
            current_node.remove_child(c);
            proof {
                let u2 = current_node.tree();
                let i = t.label_index(c);
                let j = u1.label_index(c);
                assert(u1.edges[i].0 == c);
                if i != j {
                    assert(u1.edges[j].0 == c);
                }
                assert(u2.edges =~= t.edges.remove(i));
                Tree::<TValue>::lemma_remove_child(t, c, u2);
                assert forall|k2: Seq<char>| #[trigger]
                    u2.lookup(k2) == if k2 == k {
                        None
                    } else {
                        t.lookup(k2)
                    } by {
                    if k2.len() > 0 {
                        Tree::<TValue>::lemma_lookup_step(u2, k2);
                        Tree::<TValue>::lemma_lookup_step(t, k2);
                        if k2[0] == c {
                            let k3 = k2.drop_first();
                            Tree::<TValue>::lemma_dead_lookup(s2, k3);
                            assert(s2.lookup(k3) == if k3 == rest {
                                None
                            } else {
                                s.lookup(k3)
                            });
                            if k3 == rest {
                                assert(k2 =~= k) by {
                                    assert forall|x: int| 0 <= x < k2.len() implies k2[x] == k[x] by {
                                        if x > 0 {
                                            assert(k2[x] == k3[x - 1]);
                                            assert(k[x] == k.drop_first()[x - 1]);
                                        }
                                    }
                                }
                            }
                        }
                    } else {
                        assert(k2 != k);
                    }
                }
            }
            return !current_node.is_end_of_word() && !current_node.has_children();
        }
        proof {
            if s.lookup(rest) is Some {
                assert forall|k2: Seq<char>| #[trigger]
                    u1.lookup(k2) == if k2 == k {
                        None
                    } else {
                        t.lookup(k2)
                    } by {
                    if k2.len() > 0 {
                        Tree::<TValue>::lemma_lookup_step(u1, k2);
                        Tree::<TValue>::lemma_lookup_step(t, k2);
                        if k2[0] == c {
                            let k3 = k2.drop_first();
                            assert(s2.lookup(k3) == if k3 == rest {
                                None
                            } else {
                                s.lookup(k3)
                            });
                            if k3 == rest {
                                assert(k2 =~= k) by {
                                    assert forall|x: int| 0 <= x < k2.len() implies k2[x] == k[x] by {
                                        if x > 0 {
                                            assert(k2[x] == k3[x - 1]);
                                            assert(k[x] == k.drop_first()[x - 1]);
                                        }
                                    }
                                }
                            } else {
                                assert(k2 != k);
                            }
                        }
                    } else {
                        assert(k2 != k);
                    }
                }
            }
        }
        false
    }

    /// Removes `key` and its value. Returns whether the key was stored and
    /// has been removed. The empty key is never removed: its value, once set,
    /// stays. When nothing is removed the tree is left exactly as it was.
    pub fn delete(&mut self, key: &str) -> (r: bool)
        ensures
            deleted(old(self)@, final(self)@, key@, r),
            !r ==> final(self).tree() == old(self).tree(),
            final(self).tree().sorted(),
            final(self).tree().pruned(),
    {
        proof {
            use_type_invariant(&*self);
        }
        if key.is_empty() {
            return false;
        }
        let chars = chars_of(key);
        let mut deleted = false;
        let mut root = TrieNode::new();
        std::mem::swap(&mut root, &mut self.root);
        Self::delete_recursively(&mut root, &chars, 0, &mut deleted);
        self.root = root;
        proof {
            assert(chars@.skip(0) =~= key@);
            assert(self@ =~= old(self)@.remove(key@));
        }
        deleted
    }

    /// Appends to `results` the keys below `node`, other than the node's own,
    /// each after `curr_prefix`, in depth-first order, until `results` holds
    /// `max_results` entries. Stops as soon as it holds that many: no further
    /// node is visited.
    fn collect_words_recursive(
        node: &TrieNode<TValue>,
        curr_prefix: String,
        results: &mut Vec<String>,
        max_results: usize,
    )
        ensures
            string_views(final(results)@) == fill_up(
                string_views(old(results)@),
                prepend_all(curr_prefix@, node.tree().words_from(0)),
                max_results as int,
            ),
        decreases node.tree(),
    {
        let ghost t = node.tree();
        let ghost target = fill_up(
            string_views(results@),
            prepend_all(curr_prefix@, t.words_from(0)),
            max_results as int,
        );
        if results.len() >= max_results {
            return;
        }
        let children = node.children_iter();
        let mut i: usize = 0;
        while i < children.len()
            invariant
                0 <= i <= children@.len(),
                t == node.tree(),
                children@.len() == t.edges.len(),
                forall|j: int|
                    0 <= j < children@.len() ==> (#[trigger] children@[j]).0 == t.edges[j].0
                        && children@[j].1.tree() == t.edges[j].1,
                fill_up(
                    string_views(results@),
                    prepend_all(curr_prefix@, t.words_from(i as int)),
                    max_results as int,
                ) == target,
                target == fill_up(
                    string_views(old(results)@),
                    prepend_all(curr_prefix@, t.words_from(0)),
                    max_results as int,
                ),
            decreases children.len() - i,
        {
            if results.len() >= max_results {
                return;
            }
            let (c, child) = children[i];
            let ghost s = child.tree();
            let ghost before = string_views(results@);
            let mut new_prefix = curr_prefix.clone();
            push_char(&mut new_prefix, c);
            let ghost own = if s.val is Some {
                seq![Seq::<char>::empty()]
            } else {
                Seq::<Seq<char>>::empty()
            };
            if child.is_end_of_word() {
                results.push(new_prefix.clone());
                proof {
                    assert(string_views(results@) =~= before.push(new_prefix@));
                    assert(prepend_all(new_prefix@, own) =~= seq![new_prefix@]);
                    assert(before + seq![new_prefix@] =~= before.push(new_prefix@));
                }
            }
            proof {
                if s.val is None {
                    assert(prepend_all(new_prefix@, own) =~= Seq::<Seq<char>>::empty());
                    lemma_fill_up_empty(before, max_results as int);
                }
                assert(string_views(results@) == fill_up(before, prepend_all(new_prefix@, own), max_results as int));
                assert(decreases_to!(t => t.edges[i as int].1));
            }
            Self::collect_words_recursive(child, new_prefix, results, max_results);
            proof {
                let ws = s.words();
                lemma_fill_up_concat(
                    before,
                    prepend_all(new_prefix@, own),
                    prepend_all(new_prefix@, s.words_from(0)),
                    max_results as int,
                );
                lemma_prepend_concat(new_prefix@, own, s.words_from(0));
                assert(new_prefix@ == curr_prefix@ + seq![c]);
                lemma_prepend_twice(curr_prefix@, seq![c], ws);
                lemma_prepend_concat(curr_prefix@, prepend_all(seq![c], ws), t.words_from(i + 1));
                lemma_fill_up_concat(
                    before,
                    prepend_all(curr_prefix@, prepend_all(seq![c], ws)),
                    prepend_all(curr_prefix@, t.words_from(i + 1)),
                    max_results as int,
                );
            }
            i = i + 1;
        }
        proof {
            lemma_fill_up_empty(string_views(results@), max_results as int);
        }
    }

    /// Up to `max_results` stored keys that start with `prefix`, in
    /// lexicographic order: `prefix` itself first where it is a key, then the
    /// longer keys in depth-first order. Nothing is visited when
    /// `max_results` is 0, and the walk stops once `max_results` keys are found.
    pub fn auto_complete(&self, prefix: &str, max_results: usize) -> (r: Vec<String>)
        ensures
            string_views(r@) == self.tree().completions(prefix@, max_results as int),
            r@.len() <= max_results,
            max_results == 0 ==> r@.len() == 0,
            string_views(r@).no_duplicates(),
            lex_sorted(string_views(r@)),
            forall|i: int|
                0 <= i < r@.len() ==> self@.contains_key(#[trigger] r@[i]@) && prefix@.is_prefix_of(
                    r@[i]@,
                ),
            self@.contains_key(prefix@) && max_results > 0 ==> r@.len() > 0 && r@[0]@ == prefix@,
            r@.len() < max_results ==> forall|k: Seq<char>|
                #[trigger] self@.contains_key(k) && prefix@.is_prefix_of(k) ==> string_views(
                    r@,
                ).contains(k),
    {
        proof {
            use_type_invariant(self);
        }
        let ghost t = self.tree();
        let ghost expected = t.completions(prefix@, max_results as int);
        let mut results: Vec<String> = Vec::new();
        if max_results == 0 {
            proof {
                assert(string_views(results@) =~= expected);
                self.lemma_completion_facts(prefix@, max_results as int, results@);
            }
            return results;
        }
        let mut current_node = &self.root;
        for c in it: prefix.chars()
            invariant
                t == self.tree(),
                t.sorted(),
                it.seq() == prefix@,
                t.subtree(prefix@.take(it.index() as int)) == Some(current_node.tree()),
                results@.len() == 0,
                expected == t.completions(prefix@, max_results as int),
        {
            proof {
                Tree::<TValue>::lemma_subtree_push(t, prefix@.take(it.index() as int), c);
                assert(prefix@.take(it.index() as int).push(c) =~= prefix@.take(it.index() + 1));
                Tree::<TValue>::lemma_subtree_wf(t, prefix@.take(it.index() as int));
            }
            if let Some(child_node) = current_node.get_child(c) {
                current_node = child_node;
            } else {
                proof {
                    let q = prefix@.skip(it.index() + 1);
                    assert(prefix@.take(it.index() + 1) + q =~= prefix@);
                    Tree::<TValue>::lemma_subtree_append(t, prefix@.take(it.index() + 1), q);
                    assert(string_views(results@) =~= expected);
                    self.lemma_completion_facts(prefix@, max_results as int, results@);
                }
                return results;
            }
        }
        let ghost s = current_node.tree();
        let ghost own = if s.val is Some {
            seq![Seq::<char>::empty()]
        } else {
            Seq::<Seq<char>>::empty()
        };
        proof {
            assert(prefix@.take(prefix@.len() as int) =~= prefix@);
            assert(t.subtree(prefix@) == Some(s));
        }
        if current_node.is_end_of_word() {
            results.push(prefix.to_string());
            proof {
                assert(string_views(results@) =~= seq![prefix@]);
                assert(prepend_all(prefix@, own) =~= seq![prefix@]);
                assert(Seq::<Seq<char>>::empty() + seq![prefix@] =~= seq![prefix@]);
            }
            if results.len() >= max_results {
                proof {
                    assert(prepend_all(prefix@, s.words())[0] == prefix@ + Seq::<char>::empty());
                    assert(prefix@ + Seq::<char>::empty() =~= prefix@);
                    assert(string_views(results@) =~= expected);
                    self.lemma_completion_facts(prefix@, max_results as int, results@);
                }
                return results;
            }
        }
        proof {
            let e = Seq::<Seq<char>>::empty();
            if s.val is None {
                assert(prepend_all(prefix@, own) =~= e);
                lemma_fill_up_empty(e, max_results as int);
            }
            assert(string_views(results@) == fill_up(e, prepend_all(prefix@, own), max_results as int));
        }
        Self::collect_words_recursive(current_node, prefix.to_string(), &mut results, max_results);
        proof {
            let e = Seq::<Seq<char>>::empty();
            lemma_fill_up_concat(
                e,
                prepend_all(prefix@, own),
                prepend_all(prefix@, s.words_from(0)),
                max_results as int,
            );
            lemma_prepend_concat(prefix@, own, s.words_from(0));
            assert(e + capped(prepend_all(prefix@, s.words()), max_results as int) =~= expected);
            assert(string_views(results@) == expected);
            self.lemma_completion_facts(prefix@, max_results as int, results@);
        }
        results
    }

    /// Inserts every item of `items`, in order, each with the value that
    /// `value_generator` computes for it. Where two items give the same key,
    /// the later one's value stays.
    pub fn add_word_list<T: AsKey, F: Fn(&T) -> TValue>(&mut self, items: &[T], value_generator: F)
        requires
            forall|i: int| 0 <= i < items@.len() ==> value_generator.requires((&items@[i],)),
        ensures
            forall|k: Seq<char>|
                #[trigger] final(self)@.contains_key(k) == (old(self)@.contains_key(k) || exists|j: int|
                    0 <= j < items@.len() && (#[trigger] items@[j].key_view()) == k),
            forall|k: Seq<char>|
                old(self)@.contains_key(k) && (forall|j: int|
                    0 <= j < items@.len() ==> (#[trigger] items@[j].key_view()) != k) ==> (
                #[trigger] final(self)@[k]) == old(self)@[k],
            forall|j: int|
                0 <= j < items@.len() && is_last_with_key(items@, j) ==> made_by(
                    &value_generator,
                    &items@[j],
                    #[trigger] final(self)@[items@[j].key_view()],
                ),
    {
        let mut i: usize = 0;
        while i < items.len()
            invariant
                0 <= i <= items@.len(),
                forall|j: int| 0 <= j < items@.len() ==> value_generator.requires((&items@[j],)),
                forall|k: Seq<char>|
                    #[trigger] self@.contains_key(k) == (old(self)@.contains_key(k) || exists|j: int|
                        0 <= j < i && (#[trigger] items@[j].key_view()) == k),
                forall|k: Seq<char>|
                    old(self)@.contains_key(k) && (forall|j: int|
                        0 <= j < i ==> (#[trigger] items@[j].key_view()) != k) ==> (
                    #[trigger] self@[k]) == old(self)@[k],
                forall|j: int|
                    0 <= j < i && is_last_with_key(items@.take(i as int), j) ==> made_by(
                        &value_generator,
                        &items@[j],
                        #[trigger] self@[items@[j].key_view()],
                    ),
            decreases items@.len() - i,
        {
            let item = &items[i];
            let value = value_generator(item);
            let key = item.as_key();
            let ghost before = self@;
            self.insert(key, &value);
            proof {
                let k = items@[i as int].key_view();
                assert(key@ == k);
                assert(made_by(&value_generator, &items@[i as int], self@[k]));
                assert forall|j: int|
                    0 <= j < i + 1 && is_last_with_key(items@.take(i + 1), j) implies made_by(
                        &value_generator,
                        &items@[j],
                        #[trigger] self@[items@[j].key_view()],
                    ) by {
                    if j < i {
                        assert(items@.take(i + 1)[i as int] == items@[i as int]);
                        assert(items@[i as int].key_view() != items@[j].key_view());
                        assert forall|j2: int| j < j2 < i implies (#[trigger] items@.take(
                            i as int,
                        )[j2].key_view()) != items@.take(i as int)[j].key_view() by {
                            assert(items@.take(i + 1)[j2] == items@[j2]);
                        }
                        assert(self@[items@[j].key_view()] == before[items@[j].key_view()]);
                    }
                }
            }
            i = i + 1;
        }
        proof {
            assert(items@.take(i as int) =~= items@);
        }
    }
}

impl<TValue: Clone> Default for Trie<TValue> {
    fn default() -> (r: Self)
        ensures
            r@ == Map::<Seq<char>, TValue>::empty(),
    {
        Self::new()
    }
}

} // verus!
