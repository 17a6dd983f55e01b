//! The mathematical model of a trie: a tree of labelled edges with optional
//! payloads, the keys it stores, and the order in which it lists them.
use vstd::prelude::*;

verus! {

/// The mathematical model of a trie node: its labelled edges, in order, and
/// the payload of the key that ends here, if any.
pub ghost struct Tree<TValue> {
    pub edges: Seq<(char, Tree<TValue>)>,
    pub val: Option<TValue>,
}

/// `prefix` followed by every word of `words`, in the same order.
pub open spec fn prepend_all(prefix: Seq<char>, words: Seq<Seq<char>>) -> Seq<Seq<char>> {
    words.map_values(|w: Seq<char>| prefix + w)
}

/// The first `n` entries of `s`, or all of `s` where it has fewer.
pub open spec fn capped<A>(s: Seq<A>, n: int) -> Seq<A> {
    if s.len() <= n {
        s
    } else {
        s.take(n)
    }
}

/// `a` followed by entries of `w`, in order, until `a` holds `n` entries; `a`
/// itself where it already holds that many.
pub open spec fn fill_up<A>(a: Seq<A>, w: Seq<A>, n: int) -> Seq<A> {
    if a.len() >= n {
        a
    } else {
        a + capped(w, n - a.len())
    }
}

/// Filling up with `x` and then with `y` is filling up with `x + y`.
pub proof fn lemma_fill_up_concat<A>(a: Seq<A>, x: Seq<A>, y: Seq<A>, n: int)
    ensures
        fill_up(fill_up(a, x, n), y, n) == fill_up(a, x + y, n),
{
    if a.len() < n {
        let m = n - a.len();
        if x.len() >= m {
            assert((x + y).take(m) =~= x.take(m));
            if x.len() == m {
                assert(x.take(m) =~= x);
            }
        } else if x.len() + y.len() <= m {
            assert(a + x + y =~= a + (x + y));
        } else {
            assert(a + x + y.take(m - x.len()) =~= a + (x + y).take(m));
        }
    }
}

/// Filling up with nothing changes nothing.
pub proof fn lemma_fill_up_empty<A>(a: Seq<A>, n: int)
    ensures
        fill_up(a, Seq::<A>::empty(), n) == a,
{
    assert(a + Seq::<A>::empty() =~= a);
}

/// Prepending distributes over concatenation.
pub proof fn lemma_prepend_concat(p: Seq<char>, a: Seq<Seq<char>>, b: Seq<Seq<char>>)
    ensures
        prepend_all(p, a + b) == prepend_all(p, a) + prepend_all(p, b),
{
    assert(prepend_all(p, a + b) =~= prepend_all(p, a) + prepend_all(p, b));
}

/// Prepending twice is prepending the concatenation.
pub proof fn lemma_prepend_twice(p: Seq<char>, q: Seq<char>, a: Seq<Seq<char>>)
    ensures
        prepend_all(p, prepend_all(q, a)) == prepend_all(p + q, a),
{
    assert forall|i: int| 0 <= i < a.len() implies prepend_all(p, prepend_all(q, a))[i] == prepend_all(
        p + q,
        a,
    )[i] by {
        assert(p + (q + a[i]) =~= (p + q) + a[i]);
    }
    assert(prepend_all(p, prepend_all(q, a)) =~= prepend_all(p + q, a));
}

/// A word is among the prepended words exactly when it starts with the prefix
/// and the rest is among the words.
pub proof fn lemma_prepend_contains(p: Seq<char>, a: Seq<Seq<char>>, w: Seq<char>)
    ensures
        prepend_all(p, a).contains(w) == (p.len() <= w.len() && w.take(p.len() as int) == p
            && a.contains(w.skip(p.len() as int))),
{
    if prepend_all(p, a).contains(w) {
        let i = choose|i: int| 0 <= i < prepend_all(p, a).len() && prepend_all(p, a)[i] == w;
        assert(w.take(p.len() as int) =~= p);
        assert(w.skip(p.len() as int) =~= a[i]);
    }
    if p.len() <= w.len() && w.take(p.len() as int) == p && a.contains(w.skip(p.len() as int)) {
        let i = choose|i: int| 0 <= i < a.len() && a[i] == w.skip(p.len() as int);
        assert(p + a[i] =~= w);
        assert(prepend_all(p, a)[i] == w);
    }
}

/// Prepending keeps distinct words distinct.
pub proof fn lemma_prepend_no_dup(p: Seq<char>, a: Seq<Seq<char>>)
    requires
        a.no_duplicates(),
    ensures
        prepend_all(p, a).no_duplicates(),
{
    let b = prepend_all(p, a);
    assert forall|i: int, j: int| 0 <= i < b.len() && 0 <= j < b.len() && i != j implies b[i]
        != b[j] by {
        if b[i] == b[j] {
            assert(b[i].skip(p.len() as int) =~= a[i]);
            assert(b[j].skip(p.len() as int) =~= a[j]);
        }
    }
}

/// Something is in a concatenation exactly when it is in one of the parts.
pub proof fn lemma_concat_contains<A>(a: Seq<A>, b: Seq<A>, x: A)
    ensures
        (a + b).contains(x) == (a.contains(x) || b.contains(x)),
{
    if a.contains(x) {
        let i = choose|i: int| 0 <= i < a.len() && a[i] == x;
        assert((a + b)[i] == x);
    }
    if b.contains(x) {
        let i = choose|i: int| 0 <= i < b.len() && b[i] == x;
        assert((a + b)[a.len() + i] == x);
    }
    if (a + b).contains(x) {
        let i = choose|i: int| 0 <= i < (a + b).len() && (a + b)[i] == x;
        if i < a.len() {
            assert(a[i] == x);
        } else {
            assert(b[i - a.len()] == x);
        }
    }
}

/// A concatenation of parts without duplicates and without common entries
/// has no duplicates.
pub proof fn lemma_concat_no_dup<A>(a: Seq<A>, b: Seq<A>)
    requires
        a.no_duplicates(),
        b.no_duplicates(),
        forall|x: A| a.contains(x) ==> !b.contains(x),
    ensures
        (a + b).no_duplicates(),
{
    let c = a + b;
    assert forall|i: int, j: int| 0 <= i < c.len() && 0 <= j < c.len() && i != j implies c[i]
        != c[j] by {
        if i < a.len() && j >= a.len() {
            assert(a.contains(c[i]));
            assert(b[j - a.len()] == c[j]);
        } else if j < a.len() && i >= a.len() {
            assert(a.contains(c[j]));
            assert(b[i - a.len()] == c[i]);
        } else if i >= a.len() && j >= a.len() {
            assert(b[i - a.len()] == c[i]);
            assert(b[j - a.len()] == c[j]);
        }
    }
}

/// `a` comes strictly before `b` in lexicographic order of characters: `a`
/// is a proper prefix of `b`, or `a` has the smaller character where they
/// first differ.
pub open spec fn lex_less(a: Seq<char>, b: Seq<char>) -> bool
    decreases a.len(),
{
    if b.len() == 0 {
        false
    } else if a.len() == 0 {
        true
    } else if a[0] != b[0] {
        a[0] < b[0]
    } else {
        lex_less(a.drop_first(), b.drop_first())
    }
}

/// The words strictly increase in lexicographic order.
pub open spec fn lex_sorted(s: Seq<Seq<char>>) -> bool {
    forall|i: int, j: int| 0 <= i < j < s.len() ==> lex_less(#[trigger] s[i], #[trigger] s[j])
}

/// A common prefix does not change the order of two words.
pub proof fn lemma_lex_prepend(p: Seq<char>, a: Seq<char>, b: Seq<char>)
    ensures
        lex_less(p + a, p + b) == lex_less(a, b),
    decreases p.len(),
{
    if p.len() == 0 {
        assert(p + a =~= a);
        assert(p + b =~= b);
    } else {
        assert((p + a)[0] == p[0]);
        assert((p + b)[0] == p[0]);
        assert((p + a).drop_first() =~= p.drop_first() + a);
        assert((p + b).drop_first() =~= p.drop_first() + b);
        lemma_lex_prepend(p.drop_first(), a, b);
    }
}

/// Prepending keeps sorted words sorted.
pub proof fn lemma_prepend_sorted(p: Seq<char>, a: Seq<Seq<char>>)
    requires
        lex_sorted(a),
    ensures
        lex_sorted(prepend_all(p, a)),
{
    let b = prepend_all(p, a);
    assert forall|i: int, j: int| 0 <= i < j < b.len() implies lex_less(#[trigger] b[i], #[trigger] b[j]) by {
        lemma_lex_prepend(p, a[i], a[j]);
    }
}

/// Two sorted runs, each word of the first before each of the second, make
/// a sorted run.
pub proof fn lemma_concat_sorted(a: Seq<Seq<char>>, b: Seq<Seq<char>>)
    requires
        lex_sorted(a),
        lex_sorted(b),
        forall|x: Seq<char>, y: Seq<char>| a.contains(x) && b.contains(y) ==> lex_less(x, y),
    ensures
        lex_sorted(a + b),
{
    let c = a + b;
    assert forall|i: int, j: int| 0 <= i < j < c.len() implies lex_less(#[trigger] c[i], #[trigger] c[j]) by {
        if j < a.len() {
            assert(c[i] == a[i] && c[j] == a[j]);
        } else if i >= a.len() {
            assert(c[i] == b[i - a.len()] && c[j] == b[j - a.len()]);
        } else {
            assert(a.contains(c[i]));
            assert(c[j] == b[j - a.len()]);
            assert(b.contains(c[j]));
        }
    }
}

impl<TValue> Tree<TValue> {
    /// A node with no children and no payload.
    pub open spec fn leaf() -> Tree<TValue> {
        Tree { edges: Seq::empty(), val: None }
    }

    /// The labels of the edges strictly increase from left to right.
    pub open spec fn labels_sorted(self) -> bool {
        forall|i: int, j: int|
            #![trigger self.edges[i], self.edges[j]]
            0 <= i < j < self.edges.len() ==> self.edges[i].0 < self.edges[j].0
    }

    /// Labels are sorted at this node and at every node below it.
    pub open spec fn sorted(self) -> bool
        decreases self,
    {
        &&& self.labels_sorted()
        &&& forall|i: int| 0 <= i < self.edges.len() ==> (#[trigger] self.edges[i]).1.sorted()
    }

    /// The node ends a key or leads to one.
    pub open spec fn is_live(self) -> bool {
        self.val is Some || self.edges.len() > 0
    }

    /// Every node below this one is live: no useless node hangs in the tree.
    pub open spec fn pruned(self) -> bool
        decreases self,
    {
        forall|i: int|
            0 <= i < self.edges.len() ==> (#[trigger] self.edges[i]).1.is_live()
                && self.edges[i].1.pruned()
    }

    /// Some edge of this node is labelled `c`.
    pub open spec fn has_label(self, c: char) -> bool {
        exists|i: int| 0 <= i < self.edges.len() && (#[trigger] self.edges[i]).0 == c
    }

    /// The position of an edge labelled `c`; the only one where labels are sorted.
    pub open spec fn label_index(self, c: char) -> int {
        choose|i: int| 0 <= i < self.edges.len() && (#[trigger] self.edges[i]).0 == c
    }

    /// The child reached through the edge labelled `c`.
    pub open spec fn child(self, c: char) -> Option<Tree<TValue>> {
        if self.has_label(c) {
            Some(self.edges[self.label_index(c)].1)
        } else {
            None
        }
    }

    /// `p` is a place where `c` can be inserted with the labels kept sorted.
    pub open spec fn fits_at(self, c: char, p: int) -> bool {
        &&& 0 <= p <= self.edges.len()
        &&& forall|j: int| 0 <= j < p ==> (#[trigger] self.edges[j]).0 < c
        &&& forall|j: int| p <= j < self.edges.len() ==> c < (#[trigger] self.edges[j]).0
    }

    /// Where `c` would be inserted to keep the labels sorted.
    pub open spec fn insert_pos(self, c: char) -> int {
        choose|p: int| #[trigger] self.fits_at(c, p)
    }

    /// The place found by `fits_at` is the only one, and the label is absent.
    pub proof fn lemma_fits_at_unique(t: Tree<TValue>, c: char, p: int)
        requires
            t.fits_at(c, p),
        ensures
            t.insert_pos(c) == p,
            !t.has_label(c),
    {
        let q = t.insert_pos(c);
        assert(t.fits_at(c, q));
        if q < p {
            assert(t.edges[q].0 < c);
        } else if q > p {
            assert(t.edges[p].0 < c);
        }
        if t.has_label(c) {
            let k = t.label_index(c);
            assert(t.edges[k].0 == c);
        }
    }

    /// The node reached by following the characters of `k` from this one.
    pub open spec fn subtree(self, k: Seq<char>) -> Option<Tree<TValue>>
        decreases k.len(),
    {
        if k.len() == 0 {
            Some(self)
        } else {
            match self.child(k[0]) {
                Some(t) => t.subtree(k.drop_first()),
                None => None,
            }
        }
    }

    /// The payload stored under `k`.
    pub open spec fn lookup(self, k: Seq<char>) -> Option<TValue> {
        match self.subtree(k) {
            Some(t) => t.val,
            None => None,
        }
    }

    /// The keys below this node with their payloads.
    pub open spec fn key_map(self) -> Map<Seq<char>, TValue> {
        Map::new(|k: Seq<char>| self.lookup(k) is Some, |k: Seq<char>| self.lookup(k)->0)
    }

    /// The keys below this node in depth-first order, edges taken left to
    /// right: this node's own key (the empty sequence) first, if it has one.
    pub open spec fn words(self) -> Seq<Seq<char>>
        decreases self, self.edges.len() + 1,
    {
        let own = if self.val is Some {
            seq![Seq::<char>::empty()]
        } else {
            Seq::<Seq<char>>::empty()
        };
        own + self.words_from(0)
    }

    /// The keys below the edges `i..`, each starting with its edge's label.
    pub open spec fn words_from(self, i: int) -> Seq<Seq<char>>
        decreases self, self.edges.len() - i,
    {
        if 0 <= i < self.edges.len() {
            prepend_all(seq![self.edges[i].0], self.edges[i].1.words()) + self.words_from(i + 1)
        } else {
            Seq::empty()
        }
    }

    /// The keys that start with `prefix`, in depth-first order, at most `n` of them.
    pub open spec fn completions(self, prefix: Seq<char>, n: int) -> Seq<Seq<char>> {
        match self.subtree(prefix) {
            Some(t) => capped(prepend_all(prefix, t.words()), n),
            None => Seq::empty(),
        }
    }

    /// Replacing the subtree behind an existing label changes only what is
    /// reached through that label.
    pub proof fn lemma_update_child(t: Tree<TValue>, c: char, s: Tree<TValue>, u: Tree<TValue>)
        requires
            t.labels_sorted(),
            t.has_label(c),
            u.edges == t.edges.update(t.label_index(c), (c, s)),
        ensures
            u.labels_sorted(),
            u.child(c) == Some(s),
            forall|d: char| d != c ==> #[trigger] u.child(d) == t.child(d),
            t.sorted() && s.sorted() ==> u.sorted(),
            t.pruned() && s.is_live() && s.pruned() ==> u.pruned(),
    {
        let i = t.label_index(c);
        assert(u.edges[i].0 == c);
        assert forall|a: int, b: int| 0 <= a < b < u.edges.len() implies u.edges[a].0
            < u.edges[b].0 by {
            assert(t.edges[a].0 < t.edges[b].0);
        }
        let j = u.label_index(c);
        if j != i {
            assert(t.edges[j].0 == c);
        }
        assert forall|d: char| d != c implies #[trigger] u.child(d) == t.child(d) by {
            if t.has_label(d) {
                let k = t.label_index(d);
                assert(u.edges[k].0 == d);
                let m = u.label_index(d);
                if m != k {
                    assert(t.edges[m].0 == d);
                    if m < k {
                        assert(t.edges[m].0 < t.edges[k].0);
                    } else {
                        assert(t.edges[k].0 < t.edges[m].0);
                    }
                }
            } else if u.has_label(d) {
                let m = u.label_index(d);
                assert(t.edges[m].0 == d);
            }
        }
    }

    /// Adding a child behind a new label, at its sorted place, changes only
    /// what is reached through that label.
    pub proof fn lemma_insert_child(t: Tree<TValue>, c: char, s: Tree<TValue>, u: Tree<TValue>)
        requires
            t.labels_sorted(),
            !t.has_label(c),
            t.fits_at(c, t.insert_pos(c)),
            u.edges == t.edges.insert(t.insert_pos(c), (c, s)),
        ensures
            u.labels_sorted(),
            u.child(c) == Some(s),
            forall|d: char| d != c ==> #[trigger] u.child(d) == t.child(d),
            t.sorted() && s.sorted() ==> u.sorted(),
            t.pruned() && s.is_live() && s.pruned() ==> u.pruned(),
    {
        let p = t.insert_pos(c);
        assert(u.edges[p].0 == c);
        assert forall|a: int, b: int| 0 <= a < b < u.edges.len() implies u.edges[a].0
            < u.edges[b].0 by {
            if b < p {
                assert(t.edges[a].0 < t.edges[b].0);
            } else if b == p {
                assert(u.edges[a].0 == t.edges[a].0);
            } else if a < p {
                assert(u.edges[a].0 == t.edges[a].0);
                assert(u.edges[b].0 == t.edges[b - 1].0);
                assert(t.edges[a].0 < c);
            } else if a == p {
                assert(u.edges[b].0 == t.edges[b - 1].0);
            } else {
                assert(u.edges[a].0 == t.edges[a - 1].0);
                assert(u.edges[b].0 == t.edges[b - 1].0);
                assert(t.edges[a - 1].0 < t.edges[b - 1].0);
            }
        }
        let j = u.label_index(c);
        if j != p {
            if j < p {
                assert(t.edges[j].0 == c);
            } else {
                assert(t.edges[j - 1].0 == c);
            }
        }
        assert forall|d: char| d != c implies #[trigger] u.child(d) == t.child(d) by {
            if t.has_label(d) {
                let k = t.label_index(d);
                let k2 = if k < p { k } else { k + 1 };
                assert(u.edges[k2].0 == d);
                let m = u.label_index(d);
                if m != k2 {
                    assert(u.edges[m].0 != u.edges[k2].0);
                }
            } else if u.has_label(d) {
                let m = u.label_index(d);
                if m < p {
                    assert(t.edges[m].0 == d);
                } else if m > p {
                    assert(t.edges[m - 1].0 == d);
                }
            }
        }
        if t.sorted() && s.sorted() {
            assert forall|i: int| 0 <= i < u.edges.len() implies #[trigger] u.edges[i].1.sorted() by {
                if i > p {
                    assert(u.edges[i] == t.edges[i - 1]);
                    assert(t.edges[i - 1].1.sorted());
                } else if i < p {
                    assert(u.edges[i] == t.edges[i]);
                    assert(t.edges[i].1.sorted());
                }
            }
            assert(u.sorted());
        }
        if t.pruned() && s.is_live() && s.pruned() {
            assert forall|i: int| 0 <= i < u.edges.len() implies #[trigger] u.edges[i].1.is_live()
                && u.edges[i].1.pruned() by {
                if i > p {
                    assert(u.edges[i] == t.edges[i - 1]);
                    assert(t.edges[i - 1].1.is_live() && t.edges[i - 1].1.pruned());
                } else if i < p {
                    assert(u.edges[i] == t.edges[i]);
                    assert(t.edges[i].1.is_live() && t.edges[i].1.pruned());
                }
            }
            assert(u.pruned());
        }
    }

    /// Removing the child behind a label changes only what is reached through
    /// that label.
    pub proof fn lemma_remove_child(t: Tree<TValue>, c: char, u: Tree<TValue>)
        requires
            t.labels_sorted(),
            t.has_label(c),
            u.edges == t.edges.remove(t.label_index(c)),
        ensures
            u.labels_sorted(),
            !u.has_label(c),
            forall|d: char| d != c ==> #[trigger] u.child(d) == t.child(d),
            t.sorted() ==> u.sorted(),
            t.pruned() ==> u.pruned(),
    {
        let i = t.label_index(c);
        assert forall|a: int, b: int| 0 <= a < b < u.edges.len() implies u.edges[a].0
            < u.edges[b].0 by {
            if b < i {
                assert(u.edges[a].0 == t.edges[a].0);
                assert(u.edges[b].0 == t.edges[b].0);
                assert(t.edges[a].0 < t.edges[b].0);
            } else if a < i {
                assert(u.edges[a].0 == t.edges[a].0);
                assert(u.edges[b].0 == t.edges[b + 1].0);
                assert(t.edges[a].0 < t.edges[b + 1].0);
            } else {
                assert(u.edges[a].0 == t.edges[a + 1].0);
                assert(u.edges[b].0 == t.edges[b + 1].0);
                assert(t.edges[a + 1].0 < t.edges[b + 1].0);
            }
        }
        if u.has_label(c) {
            let m = u.label_index(c);
            if m < i {
                assert(t.edges[m].0 == c);
                assert(t.edges[m].0 < t.edges[i].0);
            } else {
                assert(t.edges[m + 1].0 == c);
                assert(t.edges[i].0 < t.edges[m + 1].0);
            }
        }
        assert forall|d: char| d != c implies #[trigger] u.child(d) == t.child(d) by {
            if t.has_label(d) {
                let k = t.label_index(d);
                let k2 = if k < i { k } else { k - 1 };
                assert(u.edges[k2].0 == d);
                let m = u.label_index(d);
                if m != k2 {
                    assert(u.edges[m].0 != u.edges[k2].0);
                }
            } else if u.has_label(d) {
                let m = u.label_index(d);
                if m < i {
                    assert(t.edges[m].0 == d);
                } else {
                    assert(t.edges[m + 1].0 == d);
                }
            }
        }
        if t.sorted() {
            assert forall|j: int| 0 <= j < u.edges.len() implies #[trigger] u.edges[j].1.sorted() by {
                if j >= i {
                    assert(u.edges[j] == t.edges[j + 1]);
                    assert(t.edges[j + 1].1.sorted());
                } else {
                    assert(u.edges[j] == t.edges[j]);
                    assert(t.edges[j].1.sorted());
                }
            }
            assert(u.sorted());
        }
        if t.pruned() {
            assert forall|j: int| 0 <= j < u.edges.len() implies #[trigger] u.edges[j].1.is_live()
                && u.edges[j].1.pruned() by {
                if j >= i {
                    assert(u.edges[j] == t.edges[j + 1]);
                    assert(t.edges[j + 1].1.is_live() && t.edges[j + 1].1.pruned());
                } else {
                    assert(u.edges[j] == t.edges[j]);
                    assert(t.edges[j].1.is_live() && t.edges[j].1.pruned());
                }
            }
            assert(u.pruned());
        }
    }

    /// A non-empty key is looked up in the child behind its first character.
    pub proof fn lemma_lookup_step(t: Tree<TValue>, k: Seq<char>)
        requires
            k.len() > 0,
        ensures
            t.lookup(k) == match t.child(k[0]) {
                Some(s) => s.lookup(k.drop_first()),
                None => None,
            },
    {
    }

    /// A node without children or payload holds no key.
    pub proof fn lemma_leaf_lookup(k: Seq<char>)
        ensures
            Tree::<TValue>::leaf().lookup(k) is None,
    {
        if k.len() > 0 {
            assert(!Tree::<TValue>::leaf().has_label(k[0]));
        }
    }


    /// The children of a well-formed node are well-formed, and live where
    /// the node is pruned.
    pub proof fn lemma_child_wf(t: Tree<TValue>, c: char)
        requires
            t.child(c) is Some,
        ensures
            t.sorted() ==> t.child(c)->0.sorted(),
            t.pruned() ==> t.child(c)->0.pruned() && t.child(c)->0.is_live(),
    {
        let i = t.label_index(c);
        assert(t.edges[i] == t.edges[i]);
    }

    /// Following one more character goes to a child of the node reached so far.
    pub proof fn lemma_subtree_push(t: Tree<TValue>, p: Seq<char>, c: char)
        ensures
            t.subtree(p.push(c)) == match t.subtree(p) {
                Some(s) => s.child(c),
                None => None,
            },
        decreases p.len(),
    {
        let q = p.push(c);
        if p.len() == 0 {
            assert(q.drop_first() =~= Seq::<char>::empty());
            match t.child(c) {
                Some(s) => {
                    assert(s.subtree(q.drop_first()) == Some(s));
                },
                None => {},
            }
        } else {
            assert(q[0] == p[0]);
            assert(q.drop_first() =~= p.drop_first().push(c));
            match t.child(p[0]) {
                Some(s) => {
                    Self::lemma_subtree_push(s, p.drop_first(), c);
                },
                None => {},
            }
        }
    }

    /// The node reached by `p + q` is the one reached by `q` from the node
    /// reached by `p`.
    pub proof fn lemma_subtree_append(t: Tree<TValue>, p: Seq<char>, q: Seq<char>)
        ensures
            t.subtree(p + q) == match t.subtree(p) {
                Some(s) => s.subtree(q),
                None => None,
            },
        decreases p.len(),
    {
        if p.len() == 0 {
            assert(p + q =~= q);
        } else {
            assert((p + q)[0] == p[0]);
            assert((p + q).drop_first() =~= p.drop_first() + q);
            match t.child(p[0]) {
                Some(s) => {
                    Self::lemma_subtree_append(s, p.drop_first(), q);
                },
                None => {},
            }
        }
    }

    /// Below a well-formed node every node is well-formed, and every node
    /// other than itself is live where it is pruned.
    pub proof fn lemma_subtree_wf(t: Tree<TValue>, p: Seq<char>)
        requires
            t.subtree(p) is Some,
        ensures
            t.sorted() ==> t.subtree(p)->0.sorted(),
            t.pruned() ==> t.subtree(p)->0.pruned(),
            t.pruned() && p.len() > 0 ==> t.subtree(p)->0.is_live(),
        decreases p.len(),
    {
        if p.len() > 0 {
            Self::lemma_child_wf(t, p[0]);
            Self::lemma_subtree_wf(t.child(p[0])->0, p.drop_first());
        }
    }

    /// A node that is not live holds no key.
    pub proof fn lemma_dead_lookup(t: Tree<TValue>, k: Seq<char>)
        requires
            !t.is_live(),
        ensures
            t.lookup(k) is None,
    {
        if k.len() > 0 {
            assert(!t.has_label(k[0]));
        }
    }

    /// A live, pruned node holds at least one key.
    pub proof fn lemma_live_has_key(t: Tree<TValue>) -> (w: Seq<char>)
        requires
            t.is_live(),
            t.pruned(),
        ensures
            t.lookup(w) is Some,
        decreases t,
    {
        if t.val is Some {
            Seq::empty()
        } else {
            let c = t.edges[0].0;
            assert(t.has_label(c));
            let i = t.label_index(c);
            assert(t.edges[i] == t.edges[i]);
            let s = t.edges[i].1;
            let w0 = Self::lemma_live_has_key(s);
            let w = seq![c] + w0;
            assert(w[0] == c);
            assert(w.drop_first() =~= w0);
            Self::lemma_lookup_step(t, w);
            w
        }
    }

    /// Some stored key starts with `p` exactly when `p` leads to a node, in
    /// a pruned tree; the empty prefix always leads to the root.
    pub proof fn lemma_prefix_reaches(t: Tree<TValue>, p: Seq<char>)
        requires
            t.pruned(),
        ensures
            (t.subtree(p) is Some) == (p.len() == 0 || exists|k: Seq<char>|
                #[trigger] t.key_map().contains_key(k) && p.is_prefix_of(k)),
    {
        if t.subtree(p) is Some && p.len() > 0 {
            Self::lemma_subtree_wf(t, p);
            let s = t.subtree(p)->0;
            let w = Self::lemma_live_has_key(s);
            Self::lemma_subtree_append(t, p, w);
            let k = p + w;
            assert(k.subrange(0, p.len() as int) =~= p);
            assert(t.key_map().contains_key(k));
        }
        if exists|k: Seq<char>| #[trigger] t.key_map().contains_key(k) && p.is_prefix_of(k) {
            let k = choose|k: Seq<char>| #[trigger] t.key_map().contains_key(k) && p.is_prefix_of(k);
            let q = k.skip(p.len() as int);
            assert(p + q =~= k);
            Self::lemma_subtree_append(t, p, q);
        }
    }

    /// A word is listed below the edges `i..` exactly when it starts with the
    /// label of one of them and the rest is listed below that edge.
    pub proof fn lemma_words_from_contains(t: Tree<TValue>, i: int)
        requires
            0 <= i <= t.edges.len(),
        ensures
            forall|w: Seq<char>| #[trigger]
                t.words_from(i).contains(w) == (w.len() > 0 && exists|j: int|
                    i <= j < t.edges.len() && (#[trigger] t.edges[j]).0 == w[0]
                        && t.edges[j].1.words().contains(w.drop_first())),
        decreases t.edges.len() - i,
    {
        if i < t.edges.len() {
            Self::lemma_words_from_contains(t, i + 1);
            let l = t.edges[i].0;
            let a = prepend_all(seq![l], t.edges[i].1.words());
            let b = t.words_from(i + 1);
            assert forall|w: Seq<char>| #[trigger]
                t.words_from(i).contains(w) == (w.len() > 0 && exists|j: int|
                    i <= j < t.edges.len() && (#[trigger] t.edges[j]).0 == w[0]
                        && t.edges[j].1.words().contains(w.drop_first())) by {
                lemma_concat_contains(a, b, w);
                lemma_prepend_contains(seq![l], t.edges[i].1.words(), w);
                if w.len() > 0 {
                    assert(w.skip(1) =~= w.drop_first());
                    if w[0] == l {
                        assert(w.take(1) =~= seq![l]);
                    }
                }
            }
        } else {
            assert forall|w: Seq<char>| #[trigger] t.words_from(i).contains(w) == (w.len() > 0
                && exists|j: int|
                i <= j < t.edges.len() && (#[trigger] t.edges[j]).0 == w[0]
                    && t.edges[j].1.words().contains(w.drop_first())) by {
                assert(!t.words_from(i).contains(w));
            }
        }
    }

    /// The listed words are exactly the stored keys, in a sorted tree.
    pub proof fn lemma_words_contains(t: Tree<TValue>)
        requires
            t.sorted(),
        ensures
            forall|w: Seq<char>| #[trigger] t.words().contains(w) == (t.lookup(w) is Some),
        decreases t,
    {
        assert forall|j: int| #![trigger t.edges[j]] 0 <= j < t.edges.len() implies forall|w: Seq<char>|
            #[trigger] t.edges[j].1.words().contains(w) == (t.edges[j].1.lookup(w) is Some) by {
            assert(t.edges[j] == t.edges[j]);
            Self::lemma_words_contains(t.edges[j].1);
        }
        Self::lemma_words_from_contains(t, 0);
        let own = if t.val is Some {
            seq![Seq::<char>::empty()]
        } else {
            Seq::<Seq<char>>::empty()
        };
        assert forall|w: Seq<char>| #[trigger] t.words().contains(w) == (t.lookup(w) is Some) by {
            lemma_concat_contains(own, t.words_from(0), w);
            if w.len() == 0 {
                assert(w =~= Seq::<char>::empty());
                if t.val is Some {
                    assert(own[0] == w);
                }
            } else {
                assert(!own.contains(w));
                Self::lemma_lookup_step(t, w);
                if t.has_label(w[0]) {
                    let k = t.label_index(w[0]);
                    assert(t.edges[k].0 == w[0]);
                    if t.words_from(0).contains(w) {
                        let j = choose|j: int|
                            0 <= j < t.edges.len() && (#[trigger] t.edges[j]).0 == w[0]
                                && t.edges[j].1.words().contains(w.drop_first());
                        if j != k {
                            assert(t.edges[j].0 != t.edges[k].0);
                        }
                    }
                } else {
                    if t.words_from(0).contains(w) {
                        let j = choose|j: int|
                            0 <= j < t.edges.len() && (#[trigger] t.edges[j]).0 == w[0]
                                && t.edges[j].1.words().contains(w.drop_first());
                        assert(t.has_label(w[0]));
                    }
                }
            }
        }
    }

    /// No word is listed twice below the edges `i..` of a node whose labels
    /// are sorted, when none is listed twice below each child.
    pub proof fn lemma_words_from_no_dup(t: Tree<TValue>, i: int)
        requires
            0 <= i <= t.edges.len(),
            t.labels_sorted(),
            forall|j: int| 0 <= j < t.edges.len() ==> (#[trigger] t.edges[j]).1.words().no_duplicates(),
        ensures
            t.words_from(i).no_duplicates(),
        decreases t.edges.len() - i,
    {
        if i < t.edges.len() {
            Self::lemma_words_from_no_dup(t, i + 1);
            Self::lemma_words_from_contains(t, i + 1);
            let l = t.edges[i].0;
            let ws = t.edges[i].1.words();
            let a = prepend_all(seq![l], ws);
            let b = t.words_from(i + 1);
            lemma_prepend_no_dup(seq![l], ws);
            assert forall|x: Seq<char>| a.contains(x) implies !b.contains(x) by {
                lemma_prepend_contains(seq![l], ws, x);
                assert(x[0] == x.take(1)[0]);
                if b.contains(x) {
                    let j = choose|j: int|
                        i + 1 <= j < t.edges.len() && (#[trigger] t.edges[j]).0 == x[0]
                            && t.edges[j].1.words().contains(x.drop_first());
                    assert(t.edges[i].0 < t.edges[j].0);
                }
            }
            lemma_concat_no_dup(a, b);
        }
    }

    /// No key is listed twice, in a sorted tree.
    pub proof fn lemma_words_no_dup(t: Tree<TValue>)
        requires
            t.sorted(),
        ensures
            t.words().no_duplicates(),
        decreases t,
    {
        assert forall|j: int| 0 <= j < t.edges.len() implies (#[trigger] t.edges[j]).1.words().no_duplicates() by {
            Self::lemma_words_no_dup(t.edges[j].1);
        }
        Self::lemma_words_from_no_dup(t, 0);
        Self::lemma_words_from_contains(t, 0);
        let own = if t.val is Some {
            seq![Seq::<char>::empty()]
        } else {
            Seq::<Seq<char>>::empty()
        };
        assert forall|x: Seq<char>| own.contains(x) implies !t.words_from(0).contains(x) by {
            assert(x == own[0]);
        }
        lemma_concat_no_dup(own, t.words_from(0));
    }

    /// What the completions of `p` are, over the stored keys of a well-formed tree.
    pub proof fn lemma_completions(t: Tree<TValue>, p: Seq<char>, n: int)
        requires
            t.sorted(),
            n >= 0,
        ensures
            t.completions(p, n).len() <= n,
            t.completions(p, n).no_duplicates(),
            lex_sorted(t.completions(p, n)),
            forall|i: int|
                0 <= i < t.completions(p, n).len() ==> t.lookup(#[trigger] t.completions(p, n)[i]) is Some
                    && p.is_prefix_of(t.completions(p, n)[i]),
            t.lookup(p) is Some && n > 0 ==> t.completions(p, n).len() > 0 && t.completions(p, n)[0]
                == p,
            t.completions(p, n).len() < n ==> forall|k: Seq<char>|
                t.lookup(k) is Some && p.is_prefix_of(k) ==> #[trigger] t.completions(p, n).contains(k),
    {
        let r = t.completions(p, n);
        if let Some(s) = t.subtree(p) {
            Self::lemma_subtree_wf(t, p);
            Self::lemma_words_contains(s);
            Self::lemma_words_no_dup(s);
            Self::lemma_words_sorted(s);
            let all = prepend_all(p, s.words());
            lemma_prepend_no_dup(p, s.words());
            lemma_prepend_sorted(p, s.words());
            assert forall|i: int, j: int| 0 <= i < j < r.len() implies lex_less(#[trigger] r[i], #[trigger] r[j]) by {
                assert(r[i] == all[i] && r[j] == all[j]);
            }
            assert forall|i: int| 0 <= i < r.len() implies t.lookup(#[trigger] r[i]) is Some
                && p.is_prefix_of(r[i]) by {
                assert(r[i] == all[i]);
                assert(s.words().contains(s.words()[i]));
                Self::lemma_subtree_append(t, p, s.words()[i]);
                assert((p + s.words()[i]).subrange(0, p.len() as int) =~= p);
            }
            if t.lookup(p) is Some && n > 0 {
                assert(s.words()[0] == Seq::<char>::empty());
                assert(p + Seq::<char>::empty() =~= p);
            }
            if r.len() < n {
                assert forall|k: Seq<char>| t.lookup(k) is Some && p.is_prefix_of(k) implies #[trigger] r.contains(
                    k,
                ) by {
                    let w = k.skip(p.len() as int);
                    assert(p + w =~= k);
                    Self::lemma_subtree_append(t, p, w);
                    assert(s.words().contains(w));
                    lemma_prepend_contains(p, s.words(), k);
                    assert(k.take(p.len() as int) =~= p);
                }
            }
        } else {
            assert forall|k: Seq<char>| t.lookup(k) is Some && p.is_prefix_of(k) implies #[trigger] r.contains(
                k,
            ) by {
                let w = k.skip(p.len() as int);
                assert(p + w =~= k);
                Self::lemma_subtree_append(t, p, w);
            }
        }
    }

    /// Below the edges `i..` of a node whose labels are sorted, the words
    /// come in lexicographic order, when they do below each child.
    pub proof fn lemma_words_from_sorted(t: Tree<TValue>, i: int)
        requires
            0 <= i <= t.edges.len(),
            t.labels_sorted(),
            forall|j: int| 0 <= j < t.edges.len() ==> lex_sorted((#[trigger] t.edges[j]).1.words()),
        ensures
            lex_sorted(t.words_from(i)),
        decreases t.edges.len() - i,
    {
        if i < t.edges.len() {
            Self::lemma_words_from_sorted(t, i + 1);
            Self::lemma_words_from_contains(t, i + 1);
            let l = t.edges[i].0;
            let ws = t.edges[i].1.words();
            let a = prepend_all(seq![l], ws);
            let b = t.words_from(i + 1);
            lemma_prepend_sorted(seq![l], ws);
            assert forall|x: Seq<char>, y: Seq<char>| a.contains(x) && b.contains(y) implies lex_less(
                x,
                y,
            ) by {
                lemma_prepend_contains(seq![l], ws, x);
                assert(x[0] == x.take(1)[0]);
                let j = choose|j: int|
                    i + 1 <= j < t.edges.len() && (#[trigger] t.edges[j]).0 == y[0]
                        && t.edges[j].1.words().contains(y.drop_first());
                assert(t.edges[i].0 < t.edges[j].0);
            }
            lemma_concat_sorted(a, b);
        } else {
            assert(t.words_from(i) =~= Seq::<Seq<char>>::empty());
        }
    }

    /// The keys of a sorted tree are listed in lexicographic order.
    pub proof fn lemma_words_sorted(t: Tree<TValue>)
        requires
            t.sorted(),
        ensures
            lex_sorted(t.words()),
        decreases t,
    {
        assert forall|j: int| 0 <= j < t.edges.len() implies lex_sorted((#[trigger] t.edges[j]).1.words()) by {
            Self::lemma_words_sorted(t.edges[j].1);
        }
        Self::lemma_words_from_sorted(t, 0);
        Self::lemma_words_from_contains(t, 0);
        let own = if t.val is Some {
            seq![Seq::<char>::empty()]
        } else {
            Seq::<Seq<char>>::empty()
        };
        assert forall|x: Seq<char>, y: Seq<char>| own.contains(x) && t.words_from(0).contains(y) implies lex_less(
            x,
            y,
        ) by {
            assert(x == own[0]);
        }
        lemma_concat_sorted(own, t.words_from(0));
    }
}

} // verus!
