pub mod elements;
pub mod laws;
pub mod node;

use vstd::prelude::*;

use crate::word_tree::elements::WordElement;
use crate::word_tree::node::Node;

verus! {

/// A dictionary of words, kept as a trie: each stored word is a path of `Letter` nodes from the
/// `BeginWord` root, closed by an `EndWord` child.
pub struct WordTree {
    root: Node,
}

impl View for WordTree {
    type V = Node;

    /// The root node of the trie.
    closed spec fn view(&self) -> Node {
        self.root
    }
}

impl WordTree {
    /// The root holds `BeginWord`, every reachable node keeps distinct children (none of them
    /// `BeginWord`, and each `EndWord` child without children of its own), and every non-empty
    /// path leads on to some stored word.
    pub open spec fn wf(&self) -> bool {
        &&& self@.data == WordElement::BeginWord
        &&& self@.well_formed()
        &&& forall|w: Seq<char>| #[trigger]
            self@.is_path(w) && w.len() > 0 ==> exists|v: Seq<char>| self@.stores(w + v)
    }

    /// An empty dictionary: a `BeginWord` root without children.
    pub fn new() -> (r: WordTree)
        ensures
            r.wf(),
            r@.children@.len() == 0,
            forall|w: Seq<char>| !#[trigger] r@.stores(w),
    {
        let r = WordTree { root: Node::new(WordElement::BeginWord) };
        proof {
            r.root.lemma_leaf();
        }
        r
    }

    /// Adds `new_word` to the dictionary.
    pub fn insert(&mut self, new_word: &str)
        requires
            old(self).wf(),
        ensures
            final(self).wf(),
            inserted(old(self)@, new_word@, final(self)@),
            old(self)@.stores(new_word@) ==> *final(self) == *old(self),
    {
        if self.search(new_word) {
            proof {
                assert forall|v: Seq<char>| #[trigger]
                    self@.suggestions(v) == inserted_suggestions(self@, new_word@, v) by {
                    if starts(v, new_word@) {
                        lemma_next_symbol_present(self@, new_word@, v);
                        self@.reach(v)->0.lemma_labels(next_symbol(v, new_word@));
                    }
                }
            }
            return;
        }
        let word = chars_of(new_word);
        assert(word@.subrange(0, word@.len() as int) =~= word@);
        insert_suffix(&mut self.root, &word, 0);
        proof {
            let pre = old(self)@;
            let post = self@;
            assert forall|w: Seq<char>| #[trigger] post.is_path(w) && w.len() > 0 implies exists|
                v: Seq<char>,
            | post.stores(w + v) by {
                if pre.is_path(w) {
                    let v = choose|v: Seq<char>| pre.stores(w + v);
                    assert(post.stores(w + v));
                } else {
                    let v = word@.subrange(w.len() as int, word@.len() as int);
                    assert(w + v =~= word@);
                    assert(post.stores(w + v));
                }
            }
        }
    }

    /// The node that the characters of `chars` lead to from the root, if each step exists.
    fn locate(&self, chars: &Vec<char>) -> (r: Option<&Node>)
        requires
            self.wf(),
        ensures
            match r {
                Some(m) => self@.reach(chars@) == Some(*m),
                None => self@.reach(chars@) is None,
            },
    {
        let mut cur: &Node = &self.root;
        assert(chars@.subrange(0, 0) =~= Seq::<char>::empty());
        for i in 0..chars.len()
            invariant
                self.wf(),
                self@.reach(chars@.subrange(0, i as int)) == Some(*cur),
        {
            let c = chars[i];
            proof {
                self@.lemma_reach_push(chars@.subrange(0, i as int), c);
                assert(chars@.subrange(0, i as int).push(c) =~= chars@.subrange(0, i + 1));
            }
            match cur.find_child_index(WordElement::Letter(c)) {
                None => {
                    proof {
                        let rest = chars@.subrange(i + 1, chars@.len() as int);
                        assert(chars@.subrange(0, i + 1) + rest =~= chars@);
                        if self@.is_path(chars@) {
                            self@.lemma_path_prefix(chars@.subrange(0, i + 1), rest);
                        }
                    }
                    return None;
                },
                Some(idx) => {
                    proof {
                        assert(self@.reach(chars@.subrange(0, i as int)) matches Some(m)
                            ==> m.siblings_ok());
                        cur.lemma_child_at(idx as int);
                    }
                    cur = &cur.children[idx];
                },
            }
        }
        assert(chars@.subrange(0, chars@.len() as int) =~= chars@);
        Some(cur)
    }

    /// Whether `word` is a stored word: its path exists and ends in an `EndWord` marker.
    pub fn search(&self, word: &str) -> (r: bool)
        requires
            self.wf(),
        ensures
            r == self@.stores(word@),
    {
        let chars = chars_of(word);
        match self.locate(&chars) {
            None => false,
            Some(cur) => cur.find_child_index(WordElement::EndWord).is_some(),
        }
    }

    /// The symbols that may follow `base`, in their stored order; `None` where `base` is not a
    /// path of the tree.
    pub fn suggest(&self, base: &str) -> (r: Option<Vec<WordElement>>)
        requires
            self.wf(),
        ensures
            r is Some <==> self@.suggestions(base@) is Some,
            r matches Some(v) ==> self@.suggestions(base@) == Some(v@),
    {
        let chars = chars_of(base);
        let cur = match self.locate(&chars) {
            None => {
                return None;
            },
            Some(cur) => cur,
        };
        let mut suggestions: Vec<WordElement> = Vec::new();
        for j in 0..cur.children.len()
            invariant
                suggestions@ == cur.labels().subrange(0, j as int),
        {
            suggestions.push(cur.children[j].data);
            assert(suggestions@ =~= cur.labels().subrange(0, j + 1));
        }
        assert(suggestions@ =~= cur.labels());
        Some(suggestions)
    }

    /// Every stored word of exactly `n` characters, each once, in the tree's depth-first order.
    pub fn find_words_of_length(&self, n: u32) -> (r: Vec<String>)
        requires
            self.wf(),
        ensures
            views(r@) == enumerate(self@, (n + 1) as nat),
            views(r@).no_duplicates(),
            forall|w: Seq<char>| #[trigger]
                views(r@).contains(w) <==> self@.stores(w) && w.len() == n,
    {
        let r = self.find_words_of_length_helper(&self.root, n as u64 + 1);
        proof {
            assert forall|w: Seq<char>| #[trigger]
                views(r@).contains(w) <==> self@.stores(w) && w.len() == n by {
                assert(lead(WordElement::BeginWord) =~= Seq::<char>::empty());
                assert(w.take(0) =~= Seq::<char>::empty());
                assert(w.skip(0) =~= w);
            }
        }
        r
    }

    /// The words found from `start_node` with `n` steps left (see `found`), each once.
    fn find_words_of_length_helper(&self, start_node: &Node, n: u64) -> (r: Vec<String>)
        requires
            start_node.data is EndWord || start_node.well_formed(),
        ensures
            views(r@) == enumerate(*start_node, n as nat),
            views(r@).no_duplicates(),
            forall|s: Seq<char>| #[trigger]
                views(r@).contains(s) <==> found(*start_node, n as int, s),
        decreases n,
    {
        let mut my_words: Vec<String> = Vec::new();
        let d = start_node.data;
        match d {
            WordElement::EndWord => {
                if n == 0 {
                    my_words.push(String::new());
                    assert(views(my_words@) =~= seq![Seq::<char>::empty()]);
                }
                proof {
                    assert forall|s: Seq<char>| #[trigger]
                        views(my_words@).contains(s) <==> found(*start_node, n as int, s) by {
                        if n == 0 && s.len() == 0 {
                            assert(s =~= Seq::<char>::empty());
                            assert(views(my_words@)[0] == s);
                        }
                    }
                }
                return my_words;
            },
            _ => {},
        }
        let ghost lab = lead(d);
        let ghost m = *start_node;
        proof {
            assert(m.reach(Seq::<char>::empty()) == Some(m));
            if n > 0 {
                assert forall|s: Seq<char>| #[trigger]
                    found(m, n as int, s) <==> led_by(s, d) && found_among(
                        m,
                        n - 1,
                        m.children@.len() as int,
                        after_lead(s, d),
                    ) by {
                    lemma_found_children(m, n as int, after_lead(s, d));
                }
            }
        }
        if n > 0 {
            for k in 0..start_node.children.len()
                invariant
                    n > 0,
                    m == *start_node,
                    d == m.data,
                    d != WordElement::EndWord,
                    m.well_formed(),
                    m.siblings_ok(),
                    lab == lead(d),
                    views(my_words@) == enumerate_children(m, n as nat, k as nat),
                    views(my_words@).no_duplicates(),
                    forall|s: Seq<char>| #[trigger]
                        views(my_words@).contains(s) <==> led_by(s, d) && found_among(
                            m,
                            n - 1,
                            k as int,
                            after_lead(s, d),
                        ),
            {
                let child = &start_node.children[k];
                proof {
                    if let WordElement::Letter(x) = child.data {
                        m.lemma_child_at(k as int);
                        m.lemma_child_well_formed(x);
                    }
                }
                let node_words = self.find_words_of_length_helper(child, n - 1);
                let ghost batch = views(node_words@);
                assert(views(my_words@) =~= enumerate_children(m, n as nat, k as nat)
                    + led(d, batch.take(0)));
                for j in 0..node_words.len()
                    invariant
                        n > 0,
                        m == *start_node,
                        d == m.data,
                        d != WordElement::EndWord,
                        m.siblings_ok(),
                        k < m.children@.len(),
                        *child == m.children@[k as int],
                        batch == views(node_words@),
                        lab == lead(d),
                        batch == enumerate(m.children@[k as int], (n - 1) as nat),
                        views(my_words@) == enumerate_children(m, n as nat, k as nat) + led(
                            d,
                            batch.take(j as int),
                        ),
                        batch.no_duplicates(),
                        forall|s: Seq<char>| #[trigger]
                            batch.contains(s) <==> found(*child, n - 1, s),
                        views(my_words@).no_duplicates(),
                        forall|s: Seq<char>| #[trigger]
                            views(my_words@).contains(s) <==> led_by(s, d) && (found_among(
                                m,
                                n - 1,
                                k as int,
                                after_lead(s, d),
                            ) || batch.take(j as int).contains(after_lead(s, d))),
                {
                    let mut w = String::new();
                    if let WordElement::Letter(c) = d {
                        push_char(&mut w, c);
                    }
                    assert(w@ =~= lab);
                    w.append(node_words[j].as_str());
                    let ghost t = batch[j as int];
                    proof {
                        assert(t == node_words@[j as int]@);
                        assert(batch.contains(t));
                        assert(w@ =~= lab + t);
                        assert(w@.take(lab.len() as int) =~= lab);
                        assert(w@.skip(lab.len() as int) =~= t);
                        if views(my_words@).contains(w@) {
                            if batch.take(j as int).contains(t) {
                                let jj = choose|jj: int|
                                    0 <= jj < j && batch.take(j as int)[jj] == t;
                                assert(batch[jj] == batch[j as int]);
                            } else {
                                let kk = choose|kk: int|
                                    0 <= kk < k && #[trigger] found(m.children@[kk], n - 1, t);
                                lemma_found_same_data(
                                    m.children@[kk],
                                    m.children@[k as int],
                                    n - 1,
                                    t,
                                );
                            }
                        }
                    }
                    let ghost before = views(my_words@);
                    my_words.push(w);
                    proof {
                        assert(views(my_words@) =~= before.push(w@));
                        assert(led(d, batch.take(j + 1)) =~= led(d, batch.take(j as int)).push(
                            lab + t,
                        ));
                        assert(batch.take(j + 1) =~= batch.take(j as int).push(t));
                        assert forall|s: Seq<char>| #[trigger]
                            views(my_words@).contains(s) <==> led_by(s, d) && (found_among(
                                m,
                                n - 1,
                                k as int,
                                after_lead(s, d),
                            ) || batch.take(j + 1).contains(after_lead(s, d))) by {
                            if led_by(s, d) && after_lead(s, d) == t {
                                assert(s =~= s.take(lab.len() as int) + s.skip(lab.len() as int));
                            }
                            if s == w@ {
                                assert(batch.take(j + 1)[j as int] == t);
                            }
                            if s == w@ {
                                assert(views(my_words@)[before.len() as int] == s);
                            }
                            if before.contains(s) {
                                let i = choose|i: int| 0 <= i < before.len() && before[i] == s;
                                assert(views(my_words@)[i] == s);
                            }
                            if views(my_words@).contains(s) {
                                let i = choose|i: int|
                                    0 <= i < views(my_words@).len() && views(my_words@)[i] == s;
                                if i < before.len() {
                                    assert(before[i] == s);
                                }
                            }
                        }
                    }
                }
                proof {
                    assert(batch.take(node_words@.len() as int) =~= batch);
                    assert(enumerate_children(m, n as nat, (k + 1) as nat) == enumerate_children(
                        m,
                        n as nat,
                        k as nat,
                    ) + led(d, batch));
                }
            }
        }
        assert(views(my_words@) =~= enumerate(m, n as nat));
        my_words
    }
}

/// The text of each string, in order.
pub open spec fn views(words: Seq<String>) -> Seq<Seq<char>> {
    words.map_values(|w: String| w@)
}

/// The characters that a node holding `d` adds in front of the words below it.
pub open spec fn lead(d: WordElement) -> Seq<char> {
    match d {
        WordElement::Letter(c) => seq![c],
        _ => Seq::empty(),
    }
}

/// `s` begins with the characters that a node holding `d` adds.
pub open spec fn led_by(s: Seq<char>, d: WordElement) -> bool {
    s.len() >= lead(d).len() && s.take(lead(d).len() as int) == lead(d)
}

/// What follows in `s` after the characters that a node holding `d` adds.
pub open spec fn after_lead(s: Seq<char>, d: WordElement) -> Seq<char> {
    s.skip(lead(d).len() as int)
}

/// `s` is one of the words that the enumeration from `m`, with `r` steps left, produces: at an
/// `EndWord` node the empty word when no step is left; elsewhere the node's own characters
/// followed by a stored word below it that is one character shorter than `r`.
pub open spec fn found(m: Node, r: int, s: Seq<char>) -> bool {
    if m.data is EndWord {
        r == 0 && s.len() == 0
    } else {
        led_by(s, m.data) && m.stores(after_lead(s, m.data)) && after_lead(s, m.data).len() + 1 == r
    }
}

/// The words that the depth-first enumeration from `m` produces with `r` steps left, in order:
/// at an `EndWord` node the empty word when no step is left; elsewhere, while steps are left,
/// the words of each child in turn with one step less, each led by the node's own characters.
pub open spec fn enumerate(m: Node, r: nat) -> Seq<Seq<char>>
    decreases r, m.children@.len() + 1,
{
    if m.data is EndWord {
        if r == 0 {
            seq![Seq::<char>::empty()]
        } else {
            Seq::empty()
        }
    } else if r == 0 {
        Seq::empty()
    } else {
        enumerate_children(m, r, m.children@.len())
    }
}

/// Each of `ts`, led by the characters of a node holding `d`.
pub open spec fn led(d: WordElement, ts: Seq<Seq<char>>) -> Seq<Seq<char>> {
    ts.map_values(|t: Seq<char>| lead(d) + t)
}

/// The enumeration from `m` with `r` steps left, over its first `k` children only.
pub open spec fn enumerate_children(m: Node, r: nat, k: nat) -> Seq<Seq<char>>
    decreases r, k,
{
    if r == 0 || k == 0 || k > m.children@.len() {
        Seq::empty()
    } else {
        enumerate_children(m, r, (k - 1) as nat) + led(
            m.data,
            enumerate(m.children@[k - 1], (r - 1) as nat),
        )
    }
}

/// `t` is found from one of the first `k` children of `m` with `r` steps left.
pub open spec fn found_among(m: Node, r: int, k: int, t: Seq<char>) -> bool {
    exists|kk: int| 0 <= kk < k && #[trigger] found(m.children@[kk], r, t)
}

/// A word found from two children of one node comes from children with the same symbol.
proof fn lemma_found_same_data(a: Node, b: Node, r: int, t: Seq<char>)
    requires
        found(a, r, t),
        found(b, r, t),
        a.data != WordElement::BeginWord,
        b.data != WordElement::BeginWord,
    ensures
        a.data == b.data,
{
    if let WordElement::Letter(x) = a.data {
        assert(t.take(1)[0] == t[0]);
    }
    if let WordElement::Letter(y) = b.data {
        assert(t.take(1)[0] == t[0]);
    }
}

/// The words found from the children of `m` with `r - 1` steps left are the words stored
/// below `m` that are one character shorter than `r`.
proof fn lemma_found_children(m: Node, r: int, t: Seq<char>)
    requires
        m.siblings_ok(),
        r > 0,
    ensures
        found_among(m, r - 1, m.children@.len() as int, t) <==> m.stores(t) && t.len() + 1 == r,
{
    assert(m.reach(Seq::<char>::empty()) == Some(m));
    if t.len() == 0 {
        if m.stores(t) && r == 1 {
            let k = choose|k: int|
                0 <= k < m.children@.len() && m.children@[k].data == WordElement::EndWord;
            assert(found(m.children@[k], r - 1, t));
        }
        assert forall|k: int|
            0 <= k < m.children@.len() && #[trigger] found(m.children@[k], r - 1, t) implies m.stores(
                t,
            ) && t.len() + 1 == r by {
            if !(m.children@[k].data is EndWord) {
                assert(m.children@[k].data != WordElement::BeginWord);
            }
        }
    } else {
        let x = t[0];
        let d = WordElement::Letter(x);
        assert(t.take(1) =~= seq![x]);
        assert(t.skip(1) =~= t.drop_first());
        if m.stores(t) && t.len() + 1 == r {
            let k = choose|k: int| 0 <= k < m.children@.len() && m.children@[k].data == d;
            m.lemma_child_at(k);
            assert(found(m.children@[k], r - 1, t));
        }
        assert forall|k: int|
            0 <= k < m.children@.len() && #[trigger] found(m.children@[k], r - 1, t) implies m.stores(
                t,
            ) && t.len() + 1 == r by {
            let c = m.children@[k];
            assert(c.data != WordElement::BeginWord);
            if let WordElement::Letter(y) = c.data {
                assert(t.take(1)[0] == t[0]);
                m.lemma_child_at(k);
            }
        }
    }
}

/// Relies on String::push: appends `c` to the end of `s`.
#[verifier::external_body]
fn push_char(s: &mut String, c: char)
    ensures
        final(s)@ == old(s)@.push(c),
{
    s.push(c)
}

/// The characters of `s`, in order.
fn chars_of(s: &str) -> (r: Vec<char>)
    ensures
        r@ == s@,
{
    let n = s.unicode_len();
    let mut r: Vec<char> = Vec::new();
    for i in 0..n
        invariant
            n == s@.len(),
            r@ == s@.subrange(0, i as int),
    {
        r.push(s.get_char(i));
        assert(r@ =~= s@.subrange(0, i + 1));
    }
    assert(r@ =~= s@);
    r
}

/// `after` is `before` with the word `w` added: the stored words gain `w`, and below every
/// beginning of `w` the symbol that follows it there is appended unless already present.
pub open spec fn inserted(before: Node, w: Seq<char>, after: Node) -> bool {
    &&& after.data == before.data
    &&& forall|x: Seq<char>| #[trigger] after.stores(x) <==> before.stores(x) || x == w
    &&& forall|v: Seq<char>| #[trigger] after.suggestions(v) == inserted_suggestions(before, w, v)
}

/// `trees[k + 1]` is `trees[k]` with `words[k]` inserted, for each `k`.
pub open spec fn insertion_run(trees: Seq<Node>, words: Seq<Seq<char>>) -> bool {
    &&& trees.len() == words.len() + 1
    &&& forall|k: int|
        0 <= k < words.len() ==> #[trigger] inserted(trees[k], words[k], trees[k + 1])
}

/// Below each beginning `v` of a stored word `w`, the symbol that follows `v` in `w` is present.
pub proof fn lemma_next_symbol_present(n: Node, w: Seq<char>, v: Seq<char>)
    requires
        n.stores(w),
        starts(v, w),
    ensures
        n.reach(v) is Some,
        n.reach(v)->0.has_child(next_symbol(v, w)),
{
    if v.len() < w.len() {
        let u = w.take(v.len() + 1 as int);
        assert(u =~= v.push(w[v.len() as int]));
        assert(w =~= u + w.skip(v.len() + 1 as int));
        n.lemma_path_prefix(u, w.skip(v.len() + 1 as int));
        n.lemma_reach_push(v, w[v.len() as int]);
    } else {
        assert(v =~= w);
    }
}

/// A tree holding exactly `words`: a fresh tree with each word inserted in turn, in order.
pub fn build_tree_from_words(words: &Vec<String>) -> (r: WordTree)
    ensures
        r.wf(),
        exists|trees: Seq<Node>|
            {
                &&& insertion_run(trees, views(words@))
                &&& trees[0].data == WordElement::BeginWord
                &&& trees[0].children@.len() == 0
                &&& trees.last() == r@
            },
        forall|w: Seq<char>| #[trigger] r@.stores(w) <==> views(words@).contains(w),
{
    let mut tree = WordTree::new();
    let ghost mut trees: Seq<Node> = seq![tree@];
    for i in 0..words.len()
        invariant
            tree.wf(),
            insertion_run(trees, views(words@).take(i as int)),
            trees[0].data == WordElement::BeginWord,
            trees[0].children@.len() == 0,
            trees.last() == tree@,
            forall|w: Seq<char>| #[trigger]
                tree@.stores(w) <==> views(words@).take(i as int).contains(w),
    {
        let ghost before = tree@;
        tree.insert(words[i].as_str());
        proof {
            let vs = views(words@);
            let prev = trees;
            trees = trees.push(tree@);
            assert(vs.take(i + 1) =~= vs.take(i as int).push(words@[i as int]@));
            assert forall|k: int| 0 <= k < vs.take(i + 1).len() implies #[trigger] inserted(
                trees[k],
                vs.take(i + 1)[k],
                trees[k + 1],
            ) by {
                if k < i {
                    assert(inserted(prev[k], vs.take(i as int)[k], prev[k + 1]));
                } else {
                    assert(prev[k] == before);
                }
            }
            assert forall|w: Seq<char>| #[trigger]
                tree@.stores(w) <==> vs.take(i + 1).contains(w) by {
                if w == words@[i as int]@ {
                    assert(vs.take(i + 1)[i as int] == w);
                }
                if vs.take(i + 1).contains(w) {
                    let k = choose|k: int| 0 <= k < i + 1 && #[trigger] vs.take(i + 1)[k] == w;
                    if k < i {
                        assert(vs.take(i as int)[k] == w);
                    }
                }
                if vs.take(i as int).contains(w) {
                    let k = choose|k: int| 0 <= k < i && #[trigger] vs.take(i as int)[k] == w;
                    assert(vs.take(i + 1)[k] == w);
                }
            }
        }
    }
    assert(views(words@).take(words@.len() as int) =~= views(words@));
    tree
}

/// `v` is a beginning of `w`.
pub open spec fn starts(v: Seq<char>, w: Seq<char>) -> bool {
    v.is_prefix_of(w)
}

/// The symbol that follows the beginning `v` in the word `w`: its next letter, or the end marker.
pub open spec fn next_symbol(v: Seq<char>, w: Seq<char>) -> WordElement {
    if v.len() < w.len() {
        WordElement::Letter(w[v.len() as int])
    } else {
        WordElement::EndWord
    }
}

/// `labels` with `s` appended, unless it already holds `s`.
pub open spec fn add_label(labels: Seq<WordElement>, s: WordElement) -> Seq<WordElement> {
    if labels.contains(s) {
        labels
    } else {
        labels.push(s)
    }
}

/// The suggestions below `node` after `w` is inserted into it.
pub open spec fn inserted_suggestions(node: Node, w: Seq<char>, v: Seq<char>) -> Option<
    Seq<WordElement>,
> {
    if starts(v, w) {
        Some(add_label(node.labels_at(v), next_symbol(v, w)))
    } else {
        node.suggestions(v)
    }
}

/// A word led by the first character of `w` begins `w` exactly when the rest of it begins the
/// rest of `w`.
proof fn lemma_starts_step(v: Seq<char>, w: Seq<char>)
    requires
        v.len() > 0,
        w.len() > 0,
        v[0] == w[0],
    ensures
        starts(v, w) <==> starts(v.drop_first(), w.drop_first()),
{
    let rest = v.drop_first();
    if starts(v, w) {
        assert(rest =~= w.drop_first().subrange(0, rest.len() as int));
    }
    if starts(rest, w.drop_first()) {
        assert forall|k: int| 0 <= k < v.len() implies v[k] == w[k] by {
            if k > 0 {
                assert(v[k] == rest[k - 1]);
                assert(w[k] == w.drop_first()[k - 1]);
                assert(rest[k - 1] == w.drop_first().subrange(0, rest.len() as int)[k - 1]);
            }
        }
        assert(v =~= w.subrange(0, v.len() as int));
    }
}

/// Adds to `node` the path for `word@[i..]`, closed by an `EndWord` marker.
fn insert_suffix(node: &mut Node, word: &Vec<char>, i: usize)
    requires
        old(node).well_formed(),
        i <= word@.len(),
    ensures
        final(node).data == old(node).data,
        final(node).well_formed(),
        forall|v: Seq<char>| #[trigger]
            final(node).is_path(v) <==> old(node).is_path(v) || starts(
                v,
                word@.subrange(i as int, word@.len() as int),
            ),
        forall|v: Seq<char>| #[trigger]
            final(node).stores(v) <==> old(node).stores(v) || v == word@.subrange(
                i as int,
                word@.len() as int,
            ),
        forall|v: Seq<char>| #[trigger]
            final(node).suggestions(v) == inserted_suggestions(
                *old(node),
                word@.subrange(i as int, word@.len() as int),
                v,
            ),
    decreases word@.len() - i,
{
    let ghost pre = *node;
    let ghost suffix = word@.subrange(i as int, word@.len() as int);
    assert(pre.reach(Seq::<char>::empty()) == Some(pre));
    assert(pre.siblings_ok());
    if i == word.len() {
        let idx = node.navigate_to(WordElement::EndWord);
        let ghost post = *node;
        proof {
            assert(suffix =~= Seq::<char>::empty());
            if !pre.has_child(WordElement::EndWord) {
                assert forall|j: int| 0 <= j < pre.children@.len() implies post.children@[j]
                    == pre.children@[j] by {
                    assert(post.children@.drop_last()[j] == post.children@[j]);
                }
                assert(post.siblings_ok());
                pre.lemma_reach_other(post, idx as int);
            }
            assert(post.reach(Seq::<char>::empty()) == Some(post));
            assert forall|w: Seq<char>| #[trigger] post.reach(w) is Some implies post.reach(
                w,
            )->0.siblings_ok() by {
                if w.len() > 0 {
                    assert(pre.reach(w) == post.reach(w));
                }
            }
            assert forall|v: Seq<char>| #[trigger]
                post.is_path(v) <==> pre.is_path(v) || starts(v, suffix) by {
                if v.len() > 0 {
                    assert(pre.reach(v) == post.reach(v));
                }
            }
            assert forall|v: Seq<char>| #[trigger]
                post.stores(v) <==> pre.stores(v) || v == suffix by {
                if v.len() > 0 {
                    assert(pre.reach(v) == post.reach(v));
                } else {
                    assert(post.children@[idx as int].data == WordElement::EndWord);
                    assert(v =~= suffix);
                }
            }
            assert forall|v: Seq<char>| #[trigger]
                post.suggestions(v) == inserted_suggestions(pre, suffix, v) by {
                if v.len() > 0 {
                    assert(pre.reach(v) == post.reach(v));
                } else {
                    pre.lemma_labels(WordElement::EndWord);
                    assert(starts(v, suffix));
                    if !pre.has_child(WordElement::EndWord) {
                        assert(post.labels() =~= pre.labels().push(WordElement::EndWord));
                    }
                }
            }
        }
    } else {
        let c = word[i];
        let idx = node.navigate_to(WordElement::Letter(c));
        let ghost mid = *node;
        proof {
            if pre.has_child(WordElement::Letter(c)) {
                pre.lemma_child_at(idx as int);
                pre.lemma_child_well_formed(c);
            } else {
                mid.children@[idx as int].lemma_leaf();
                assert forall|j: int| 0 <= j < pre.children@.len() implies mid.children@[j]
                    == pre.children@[j] by {
                    assert(mid.children@.drop_last()[j] == mid.children@[j]);
                }
            }
            assert(mid.siblings_ok());
        }
        insert_suffix(&mut node.children[idx], word, i + 1);
        let ghost post = *node;
        proof {
            let sub = post.children@[idx as int];
            let old_sub = mid.children@[idx as int];
            assert(post.children@ == mid.children@.update(idx as int, sub));
            assert(forall|j: int|
                0 <= j < post.children@.len() ==> post.children@[j].data == mid.children@[j].data);
            assert(post.siblings_ok());
            post.lemma_child_at(idx as int);
            pre.lemma_reach_other(post, idx as int);
            assert(suffix[0] == c);
            assert(suffix.drop_first() =~= word@.subrange(i + 1, word@.len() as int));
            assert(post.reach(Seq::<char>::empty()) == Some(post));
            assert forall|w: Seq<char>| #[trigger] post.reach(w) is Some implies post.reach(
                w,
            )->0.siblings_ok() by {
                if w.len() > 0 {
                    if w[0] == c {
                        assert(post.reach(w) == sub.reach(w.drop_first()));
                    } else {
                        assert(pre.reach(w) == post.reach(w));
                    }
                }
            }
            assert forall|v: Seq<char>| #[trigger]
                post.is_path(v) <==> pre.is_path(v) || starts(v, suffix) by {
                if v.len() > 0 {
                    if v[0] == c {
                        let rest = v.drop_first();
                        assert(post.reach(v) == sub.reach(rest));
                        assert(sub.is_path(rest) <==> old_sub.is_path(rest) || starts(
                            rest,
                            suffix.drop_first(),
                        ));
                        lemma_starts_step(v, suffix);
                        if pre.has_child(WordElement::Letter(c)) {
                            assert(pre.reach(v) == old_sub.reach(rest));
                        } else {
                            assert(old_sub.is_path(rest) ==> rest.len() == 0);
                        }
                    } else {
                        assert(pre.reach(v) == post.reach(v));
                        if starts(v, suffix) {
                            assert(v[0] == suffix.subrange(0, v.len() as int)[0]);
                        }
                    }
                }
            }
            assert forall|v: Seq<char>| #[trigger]
                post.stores(v) <==> pre.stores(v) || v == suffix by {
                if v.len() > 0 {
                    if v[0] == c {
                        let rest = v.drop_first();
                        assert(post.reach(v) == sub.reach(rest));
                        assert(sub.stores(rest) <==> old_sub.stores(rest) || rest
                            == suffix.drop_first());
                        if v == suffix {
                            assert(rest == suffix.drop_first());
                        }
                        if rest == suffix.drop_first() {
                            assert forall|k: int| 0 <= k < v.len() implies v[k] == suffix[k] by {
                                if k > 0 {
                                    assert(v[k] == rest[k - 1]);
                                    assert(suffix[k] == suffix.drop_first()[k - 1]);
                                }
                            }
                            assert(v =~= suffix);
                        }
                        if pre.has_child(WordElement::Letter(c)) {
                            assert(pre.reach(v) == old_sub.reach(rest));
                        } else {
                            assert(!old_sub.stores(rest));
                        }
                    } else {
                        assert(pre.reach(v) == post.reach(v));
                    }
                } else {
                    assert(post.has_child(WordElement::EndWord) == pre.has_child(
                        WordElement::EndWord,
                    ));
                }
            }
            assert forall|v: Seq<char>| #[trigger]
                post.suggestions(v) == inserted_suggestions(pre, suffix, v) by {
                if v.len() > 0 {
                    if v[0] == c {
                        let rest = v.drop_first();
                        assert(post.reach(v) == sub.reach(rest));
                        assert(sub.suggestions(rest) == inserted_suggestions(
                            old_sub,
                            suffix.drop_first(),
                            rest,
                        ));
                        lemma_starts_step(v, suffix);
                        if rest.len() < suffix.drop_first().len() {
                            assert(suffix[v.len() as int] == suffix.drop_first()[rest.len()
                                as int]);
                        }
                        assert(next_symbol(v, suffix) == next_symbol(rest, suffix.drop_first()));
                        if pre.has_child(WordElement::Letter(c)) {
                            assert(pre.reach(v) == old_sub.reach(rest));
                        } else {
                            assert(pre.reach(v) == None::<Node>);
                            assert(old_sub.reach(Seq::<char>::empty()) == Some(old_sub));
                            assert(old_sub.labels() =~= Seq::<WordElement>::empty());
                            if rest.len() > 0 {
                                assert(old_sub.reach(rest) == None::<Node>);
                            }
                        }
                    } else {
                        assert(pre.reach(v) == post.reach(v));
                        if starts(v, suffix) {
                            assert(v[0] == suffix.subrange(0, v.len() as int)[0]);
                        }
                    }
                } else {
                    pre.lemma_labels(WordElement::Letter(c));
                    assert(starts(v, suffix));
                    assert(next_symbol(v, suffix) == WordElement::Letter(c));
                    if pre.has_child(WordElement::Letter(c)) {
                        assert(post.labels() =~= pre.labels());
                    } else {
                        assert(post.labels() =~= pre.labels().push(WordElement::Letter(c)));
                    }
                }
            }
        }
    }
}

} // verus!
