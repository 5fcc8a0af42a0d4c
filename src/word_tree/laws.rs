use vstd::prelude::*;

use crate::word_tree::elements::WordElement;
use crate::word_tree::node::Node;
use crate::word_tree::{
    add_label,
    enumerate,
    enumerate_children,
    inserted,
    led,
    inserted_suggestions,
    insertion_run,
    lemma_next_symbol_present,
    next_symbol,
    starts,
    WordTree,
};

verus! {

/// A word is stored as soon as it is inserted, and stays stored through every later insertion.
pub proof fn lemma_inserted_word_stays(trees: Seq<Node>, words: Seq<Seq<char>>, i: int, j: int)
    requires
        insertion_run(trees, words),
        0 <= i < j <= words.len(),
    ensures
        trees[j].stores(words[i]),
    decreases j - i,
{
    let k = j - 1;
    assert(inserted(trees[k], words[k], trees[k + 1]));
    if j > i + 1 {
        lemma_inserted_word_stays(trees, words, i, j - 1);
    }
}

/// Starting from a tree that stores nothing, the words stored after `n` insertions are exactly
/// the first `n` words inserted.
proof fn lemma_stored_after(trees: Seq<Node>, words: Seq<Seq<char>>, n: int, x: Seq<char>)
    requires
        insertion_run(trees, words),
        forall|w: Seq<char>| !#[trigger] trees[0].stores(w),
        0 <= n <= words.len(),
    ensures
        trees[n].stores(x) <==> words.take(n).contains(x),
    decreases n,
{
    if n > 0 {
        lemma_stored_after(trees, words, n - 1, x);
        let k = n - 1;
        assert(inserted(trees[k], words[k], trees[k + 1]));
        assert(words.take(n) =~= words.take(n - 1).push(words[n - 1]));
        if x == words[n - 1] {
            assert(words.take(n)[n - 1] == x);
        }
        if words.take(n - 1).contains(x) {
            let k = choose|k: int| 0 <= k < n - 1 && #[trigger] words.take(n - 1)[k] == x;
            assert(words.take(n)[k] == x);
        }
        if words.take(n).contains(x) {
            let k = choose|k: int| 0 <= k < n && #[trigger] words.take(n)[k] == x;
            if k < n - 1 {
                assert(words.take(n - 1)[k] == x);
            }
        }
    }
}

/// Starting from a tree that stores nothing, a word that was never inserted is not stored,
/// and an inserted one is.
pub proof fn lemma_stored_iff_inserted(trees: Seq<Node>, words: Seq<Seq<char>>, x: Seq<char>)
    requires
        insertion_run(trees, words),
        forall|w: Seq<char>| !#[trigger] trees[0].stores(w),
    ensures
        trees[words.len() as int].stores(x) <==> words.contains(x),
{
    lemma_stored_after(trees, words, words.len() as int, x);
    assert(words.take(words.len() as int) =~= words);
}

/// A strict beginning of an inserted word is not stored unless it was inserted itself.
pub proof fn lemma_strict_prefix_not_stored(
    trees: Seq<Node>,
    words: Seq<Seq<char>>,
    w: Seq<char>,
    p: Seq<char>,
)
    requires
        insertion_run(trees, words),
        forall|x: Seq<char>| !#[trigger] trees[0].stores(x),
        words.contains(w),
        starts(p, w),
        p.len() < w.len(),
        !words.contains(p),
    ensures
        !trees[words.len() as int].stores(p),
        trees[words.len() as int].stores(w),
{
    lemma_stored_iff_inserted(trees, words, p);
    lemma_stored_iff_inserted(trees, words, w);
}

/// Suggestions for `base` are absent exactly when no stored word begins with `base` (where
/// `base` is empty, the tree must store some word: the root is always a path).
pub proof fn lemma_suggest_none(t: WordTree, base: Seq<char>)
    requires
        t.wf(),
        base.len() > 0 || exists|w: Seq<char>| t@.stores(w),
    ensures
        t@.suggestions(base) is None <==> !exists|v: Seq<char>| #[trigger] t@.stores(base + v),
{
    if t@.suggestions(base) is Some {
        if base.len() == 0 {
            let w = choose|w: Seq<char>| t@.stores(w);
            assert(base + w =~= w);
            assert(t@.stores(base + w));
        } else {
            assert(t@.is_path(base));
        }
    } else {
        assert forall|v: Seq<char>| !#[trigger] t@.stores(base + v) by {
            if t@.stores(base + v) {
                t@.lemma_path_prefix(base, v);
            }
        }
    }
}

/// The suggestions for `base` hold the end marker exactly when `base` is a stored word.
pub proof fn lemma_suggest_end(t: WordTree, base: Seq<char>)
    ensures
        (t@.suggestions(base) matches Some(l) && l.contains(WordElement::EndWord)) <==> t@.stores(
            base,
        ),
{
    if let Some(m) = t@.reach(base) {
        m.lemma_labels(WordElement::EndWord);
    }
}

/// Two well-formed nodes with one symbol and the same suggestions below them enumerate the
/// same words.
proof fn lemma_enumerate_same(a: Node, b: Node, r: nat)
    requires
        a.data == b.data,
        a.well_formed(),
        b.well_formed(),
        forall|v: Seq<char>| #[trigger] a.suggestions(v) == b.suggestions(v),
    ensures
        enumerate(a, r) == enumerate(b, r),
    decreases r, a.children@.len() + 1,
{
    if !(a.data is EndWord) && r > 0 {
        assert(a.reach(Seq::<char>::empty()) == Some(a));
        assert(b.reach(Seq::<char>::empty()) == Some(b));
        assert(a.suggestions(Seq::<char>::empty()) == b.suggestions(Seq::<char>::empty()));
        assert(a.labels().len() == b.labels().len());
        lemma_enumerate_children_same(a, b, r, a.children@.len());
    }
}

/// The enumerations over the first `k` children of two such nodes agree.
proof fn lemma_enumerate_children_same(a: Node, b: Node, r: nat, k: nat)
    requires
        a.data == b.data,
        a.well_formed(),
        b.well_formed(),
        a.children@.len() == b.children@.len(),
        forall|v: Seq<char>| #[trigger] a.suggestions(v) == b.suggestions(v),
    ensures
        enumerate_children(a, r, k) == enumerate_children(b, r, k),
    decreases r, k,
{
    if r > 0 && k > 0 && k <= a.children@.len() {
        lemma_enumerate_children_same(a, b, r, (k - 1) as nat);
        let i = k - 1;
        let ca = a.children@[i];
        let cb = b.children@[i];
        assert(a.reach(Seq::<char>::empty()) == Some(a));
        assert(b.reach(Seq::<char>::empty()) == Some(b));
        assert(a.suggestions(Seq::<char>::empty()) == b.suggestions(Seq::<char>::empty()));
        assert(a.labels()[i] == b.labels()[i]);
        assert(ca.data != WordElement::BeginWord);
        if let WordElement::Letter(x) = ca.data {
            a.lemma_child_at(i);
            b.lemma_child_at(i);
            a.lemma_child_well_formed(x);
            b.lemma_child_well_formed(x);
            assert forall|v: Seq<char>| #[trigger] ca.suggestions(v) == cb.suggestions(v) by {
                a.lemma_reach_child(x, v);
                b.lemma_reach_child(x, v);
                assert(a.suggestions(seq![x] + v) == b.suggestions(seq![x] + v));
            }
            lemma_enumerate_same(ca, cb, (r - 1) as nat);
        } else {
            assert(cb.data is EndWord);
        }
        assert(enumerate(ca, (r - 1) as nat) == enumerate(cb, (r - 1) as nat));
        assert(enumerate_children(a, r, k) == enumerate_children(a, r, (k - 1) as nat) + led(
            a.data,
            enumerate(ca, (r - 1) as nat),
        ));
        assert(enumerate_children(b, r, k) == enumerate_children(b, r, (k - 1) as nat) + led(
            b.data,
            enumerate(cb, (r - 1) as nat),
        ));
    }
}

/// Inserting a word a second time changes nothing that search, suggest or the enumeration of
/// words by length can see.
pub proof fn lemma_insert_twice(a: Node, w: Seq<char>, b: Node, c: Node)
    requires
        inserted(a, w, b),
        inserted(b, w, c),
        b.well_formed(),
        c.well_formed(),
    ensures
        forall|x: Seq<char>| #[trigger] c.stores(x) == b.stores(x),
        forall|v: Seq<char>| #[trigger] c.suggestions(v) == b.suggestions(v),
        forall|r: nat| #[trigger] enumerate(c, r) == enumerate(b, r),
{
    assert(b.stores(w));
    assert forall|v: Seq<char>| #[trigger] c.suggestions(v) == b.suggestions(v) by {
        assert(c.suggestions(v) == inserted_suggestions(b, w, v));
        if starts(v, w) {
            lemma_next_symbol_present(b, w, v);
            b.reach(v)->0.lemma_labels(next_symbol(v, w));
            assert(add_label(b.labels_at(v), next_symbol(v, w)) == b.labels_at(v));
        }
    }
    assert forall|x: Seq<char>| #[trigger] c.stores(x) == b.stores(x) by {
        assert(c.stores(x) <==> b.stores(x) || x == w);
    }
    assert forall|r: nat| #[trigger] enumerate(c, r) == enumerate(b, r) by {
        lemma_enumerate_same(c, b, r);
    }
}

} // verus!
