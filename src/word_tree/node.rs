use vstd::prelude::*;

use crate::word_tree::elements::WordElement;

verus! {

/// A node of a multi-way tree: a symbol and the children it owns, kept in insertion order.
pub struct Node {
    pub data: WordElement,
    pub children: Vec<Node>,
}

impl Node {
    /// Whether some child holds `d`.
    pub open spec fn has_child(self, d: WordElement) -> bool {
        exists|i: int| 0 <= i < self.children@.len() && self.children@[i].data == d
    }

    /// The child that holds `d` (meaningful when `has_child(d)`).
    pub open spec fn child(self, d: WordElement) -> Node
        recommends
            self.has_child(d),
    {
        self.children@[choose|i: int| 0 <= i < self.children@.len() && self.children@[i].data == d]
    }

    /// The symbols of the children, in their stored order.
    pub open spec fn labels(self) -> Seq<WordElement> {
        self.children@.map_values(|c: Node| c.data)
    }

    /// No two children hold the same symbol, none holds `BeginWord`, and an `EndWord` child has
    /// no children of its own.
    pub open spec fn siblings_ok(self) -> bool {
        &&& forall|i: int, j: int|
            0 <= i < self.children@.len() && 0 <= j < self.children@.len() && i != j
                ==> self.children@[i].data != self.children@[j].data
        &&& forall|i: int|
            0 <= i < self.children@.len() ==> self.children@[i].data != WordElement::BeginWord
        &&& forall|i: int|
            0 <= i < self.children@.len() && self.children@[i].data == WordElement::EndWord
                ==> self.children@[i].children@.len() == 0
    }

    /// The node reached from this one by following the letters of `w`, if every step exists.
    pub open spec fn reach(self, w: Seq<char>) -> Option<Node>
        decreases w.len(),
    {
        if w.len() == 0 {
            Some(self)
        } else if self.has_child(WordElement::Letter(w[0])) {
            self.child(WordElement::Letter(w[0])).reach(w.drop_first())
        } else {
            None
        }
    }

    /// `w` is a path of letters below this node.
    pub open spec fn is_path(self, w: Seq<char>) -> bool {
        self.reach(w) is Some
    }

    /// `w` is a path below this node that ends in an `EndWord` marker: a stored word.
    pub open spec fn stores(self, w: Seq<char>) -> bool {
        self.reach(w) matches Some(m) && m.has_child(WordElement::EndWord)
    }

    /// The symbols that may follow `w`: those of the children of the node that `w` reaches.
    pub open spec fn suggestions(self, w: Seq<char>) -> Option<Seq<WordElement>> {
        match self.reach(w) {
            Some(m) => Some(m.labels()),
            None => None,
        }
    }

    /// The symbols that follow `w`, or none where `w` is not a path.
    pub open spec fn labels_at(self, w: Seq<char>) -> Seq<WordElement> {
        match self.reach(w) {
            Some(m) => m.labels(),
            None => Seq::empty(),
        }
    }

    /// Every node reachable by letters keeps its children distinct and free of `BeginWord`.
    pub open spec fn well_formed(self) -> bool {
        forall|w: Seq<char>| #[trigger] self.reach(w) matches Some(m) ==> m.siblings_ok()
    }

    /// Under distinct siblings, the child holding `d` is the one at any index that holds it.
    pub proof fn lemma_child_at(self, i: int)
        requires
            self.siblings_ok(),
            0 <= i < self.children@.len(),
        ensures
            self.has_child(self.children@[i].data),
            self.child(self.children@[i].data) == self.children@[i],
    {
    }

    /// Following one more letter extends the path by one step.
    pub proof fn lemma_reach_push(self, w: Seq<char>, c: char)
        ensures
            self.reach(w.push(c)) == match self.reach(w) {
                Some(m) => if m.has_child(WordElement::Letter(c)) {
                    Some(m.child(WordElement::Letter(c)))
                } else {
                    None
                },
                None => None,
            },
        decreases w.len(),
    {
        if w.len() == 0 {
            assert(w.push(c).drop_first() =~= Seq::<char>::empty());
            assert(w.push(c)[0] == c);
            if self.has_child(WordElement::Letter(c)) {
                assert(self.child(WordElement::Letter(c)).reach(Seq::<char>::empty())
                    == Some(self.child(WordElement::Letter(c))));
            }
        } else {
            assert(w.push(c)[0] == w[0]);
            assert(w.push(c).drop_first() =~= w.drop_first().push(c));
            if self.has_child(WordElement::Letter(w[0])) {
                self.child(WordElement::Letter(w[0])).lemma_reach_push(w.drop_first(), c);
            }
        }
    }

    /// A path below the child for `c` is the same path, led by `c`, below this node.
    pub proof fn lemma_reach_child(self, c: char, v: Seq<char>)
        requires
            self.has_child(WordElement::Letter(c)),
        ensures
            self.reach(seq![c] + v) == self.child(WordElement::Letter(c)).reach(v),
    {
        assert((seq![c] + v).drop_first() =~= v);
        assert((seq![c] + v)[0] == c);
    }

    /// Each subtree of a well-formed node is well formed.
    pub proof fn lemma_child_well_formed(self, c: char)
        requires
            self.well_formed(),
            self.has_child(WordElement::Letter(c)),
        ensures
            self.child(WordElement::Letter(c)).well_formed(),
    {
        assert forall|v: Seq<char>| #[trigger]
            self.child(WordElement::Letter(c)).reach(v) is Some implies
            self.child(WordElement::Letter(c)).reach(v)->0.siblings_ok() by {
            self.lemma_reach_child(c, v);
            assert(self.reach(seq![c] + v) matches Some(m) ==> m.siblings_ok());
        }
    }

    /// The beginning of a path is itself a path.
    pub proof fn lemma_path_prefix(self, w: Seq<char>, v: Seq<char>)
        requires
            self.is_path(w + v),
        ensures
            self.is_path(w),
        decreases w.len(),
    {
        if w.len() > 0 {
            assert((w + v)[0] == w[0]);
            assert((w + v).drop_first() =~= w.drop_first() + v);
            self.child(WordElement::Letter(w[0])).lemma_path_prefix(w.drop_first(), v);
        }
    }

    /// A child holds `d` exactly when `d` is among the labels.
    pub proof fn lemma_labels(self, d: WordElement)
        ensures
            self.has_child(d) <==> self.labels().contains(d),
            self.labels().len() == self.children@.len(),
    {
        if self.has_child(d) {
            let i = choose|i: int| 0 <= i < self.children@.len() && self.children@[i].data == d;
            assert(self.labels()[i] == d);
        }
        if self.labels().contains(d) {
            let i = choose|i: int| 0 <= i < self.labels().len() && self.labels()[i] == d;
            assert(self.children@[i].data == d);
        }
    }

    /// A node without children has only the empty path and stores nothing.
    pub proof fn lemma_leaf(self)
        requires
            self.children@.len() == 0,
        ensures
            self.well_formed(),
            forall|w: Seq<char>| #[trigger] self.is_path(w) <==> w.len() == 0,
            forall|w: Seq<char>| !#[trigger] self.stores(w),
    {
    }

    /// Where `other` differs from this node only in the child at `idx` (or by that child alone,
    /// appended), each path that starts with another symbol reaches the same node in both.
    pub proof fn lemma_reach_other(self, other: Node, idx: int)
        requires
            self.siblings_ok(),
            other.siblings_ok(),
            0 <= idx < other.children@.len(),
            other.children@.len() == self.children@.len() || (other.children@.len()
                == self.children@.len() + 1 && idx == self.children@.len()),
            idx < self.children@.len() ==> self.children@[idx].data == other.children@[idx].data,
            forall|j: int|
                0 <= j < self.children@.len() && j != idx ==> other.children@[j]
                    == self.children@[j],
        ensures
            forall|w: Seq<char>|
                w.len() > 0 && WordElement::Letter(w[0]) != other.children@[idx].data
                    ==> #[trigger] other.reach(w) == self.reach(w),
    {
        assert forall|w: Seq<char>|
            w.len() > 0 && WordElement::Letter(w[0]) != other.children@[idx].data
                implies #[trigger] other.reach(w) == self.reach(w) by {
            let d = WordElement::Letter(w[0]);
            if other.has_child(d) {
                let k = choose|k: int|
                    0 <= k < other.children@.len() && other.children@[k].data == d;
                other.lemma_child_at(k);
                self.lemma_child_at(k);
            }
            if self.has_child(d) {
                let k = choose|k: int| 0 <= k < self.children@.len() && self.children@[k].data == d;
                other.lemma_child_at(k);
                self.lemma_child_at(k);
            }
        }
    }

    pub fn new(data: WordElement) -> (r: Node)
        ensures
            r.data == data,
            r.children@ == Seq::<Node>::empty(),
    {
        Node { data, children: Vec::new() }
    }

    pub fn find_child_index(&self, data: WordElement) -> (r: Option<usize>)
        ensures
            r is None <==> !self.has_child(data),
            r matches Some(i) ==> {
                &&& i < self.children@.len()
                &&& self.children@[i as int].data == data
                &&& forall|j: int| 0 <= j < i ==> self.children@[j].data != data
            },
    {
        for idx in 0..self.children.len()
            invariant
                forall|j: int| 0 <= j < idx ==> self.children@[j].data != data,
        {
            if self.children[idx].data == data {
                return Some(idx);
            }
        }
        None
    }

    pub fn navigate_to(&mut self, data: WordElement) -> (idx: usize)
        ensures
            final(self).data == old(self).data,
            idx < final(self).children@.len(),
            final(self).children@[idx as int].data == data,
            old(self).has_child(data) ==> *final(self) == *old(self) && forall|j: int|
                0 <= j < idx ==> old(self).children@[j].data != data,
            !old(self).has_child(data) ==> idx == old(self).children@.len()
                && final(self).children@.drop_last() == old(self).children@
                && final(self).children@.last().children@.len() == 0,
    {
        match self.find_child_index(data) {
            None => self.add_child(data),
            Some(idx) => idx,
        }
    }

    fn add_child(&mut self, data: WordElement) -> (idx: usize)
        ensures
            final(self).data == old(self).data,
            idx == old(self).children@.len(),
            final(self).children@.len() == old(self).children@.len() + 1,
            final(self).children@.drop_last() == old(self).children@,
            final(self).children@.last().data == data,
            final(self).children@.last().children@.len() == 0,
    {
        self.children.push(Node::new(data));
        self.children.len() - 1
    }
}

} // verus!
