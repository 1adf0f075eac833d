//! Laws that the trie operations obey.
//!
//! Everything here is stated over the model ([`NodeView`]) that the
//! executable operations are specified against: what insertion does to
//! the words a trie matches, that matching is closed under prefixes,
//! that insertion is idempotent, and that insertion preserves the
//! structural invariant.

use vstd::prelude::*;

use crate::model::NodeView;
use crate::model::any_covers;
use crate::model::child_matches;
use crate::model::common_prefix_len;
use crate::model::first_match;
use crate::model::lemma_any_covers;
use crate::model::lemma_any_covers_pair;
use crate::model::lemma_common_prefix_len;
use crate::model::lemma_common_prefix_len_from_scan;
use crate::model::lemma_common_prefix_len_whole;
use crate::model::lemma_first_match;
use crate::model::lemma_prefix_pointwise;

verus! {

/// Prefix monotonicity: whenever a trie matches a word, it matches every
/// prefix of that word.
pub proof fn lemma_covers_prefix_monotone(t: NodeView, word: Seq<char>, pre: Seq<char>)
    requires
        t.covers(word),
        pre.is_prefix_of(word),
    ensures
        t.covers(pre),
    decreases t,
{
    let l = t.label.len() as int;
    lemma_prefix_pointwise(pre, word);
    lemma_prefix_pointwise(word, t.label);
    lemma_prefix_pointwise(pre, t.label);
    lemma_prefix_pointwise(t.label, word);
    lemma_prefix_pointwise(t.label, pre);
    if word.len() <= t.label.len() {
        // The whole word sits inside the label, so the prefix does too.
    } else {
        if pre.len() <= t.label.len() {
            // The prefix sits inside the label.
        } else {
            // The prefix still outruns the label: descend with both words
            // shortened by the label.
            lemma_any_covers(t.children, word.skip(l));
            let i = choose|i: int|
                0 <= i < t.children.len() && (#[trigger] t.children[i]).covers(word.skip(l));
            lemma_prefix_pointwise(pre.skip(l), word.skip(l));
            lemma_covers_prefix_monotone(t.children[i], word.skip(l), pre.skip(l));
            t.lemma_covers_step(pre, i);
        }
    }
}

/// Inserting a suffix into a child that admits it keeps the child
/// admissible, gives it a non-empty label, and keeps its leading
/// character, so sibling prefix-freedom and the selection of the child
/// are stable under insertion.
proof fn lemma_inserted_keeps_match(c: NodeView, rest: Seq<char>)
    requires
        rest.len() > 0,
        child_matches(c, rest),
    ensures
        child_matches(c.inserted(rest), rest),
        c.inserted(rest).label.len() > 0,
        c.label.len() > 0 ==> c.inserted(rest).label[0] == c.label[0],
        c.label.len() == 0 ==> c.inserted(rest).label == rest,
{
    let q = common_prefix_len(c.label, rest);
    let ins = c.inserted(rest);
    lemma_common_prefix_len(c.label, rest);
    lemma_common_prefix_len_whole(c.label, rest);
    lemma_prefix_pointwise(c.label, rest);
    if c.label.len() > 0 && c.label[0] == rest[0] {
        assert(q >= 1);
    }
    if q == c.label.len() {
        if c.children.len() == 0 {
            assert(ins == NodeView::leaf(rest));
            assert(rest.is_prefix_of(rest)) by {
                assert(rest =~= rest.subrange(0, rest.len() as int));
            }
            assert(child_matches(ins, rest));
        } else {
            // Only a shared leading character selects a child that itself
            // has children, so the label is non-empty and stays in place.
            assert(c.label.len() > 0 && c.label[0] == rest[0]);
            assert(ins.label == c.label);
        }
    } else {
        // The child splits; its label keeps its first `q >= 1` characters.
        assert(c.label.len() > 0 && c.label[0] == rest[0]);
        assert(ins.label == c.label.take(q));
        assert(ins.label[0] == c.label[0]);
    }
}

/// What insertion does to the matched words, exactly: after inserting
/// `key`, the trie matches a word if and only if it matched it before or
/// the word is a prefix of `key`.  Membership after insert and
/// non-regression are the two directions.
pub proof fn lemma_insert_covers_iff(t: NodeView, key: Seq<char>, word: Seq<char>)
    requires
        key.len() > 0,
    ensures
        t.inserted(key).covers(word) <==> (t.covers(word) || word.is_prefix_of(key)),
    decreases t,
{
    let l = t.label.len() as int;
    let p = common_prefix_len(t.label, key);
    let t2 = t.inserted(key);
    lemma_common_prefix_len(t.label, key);
    lemma_common_prefix_len_whole(t.label, key);
    lemma_prefix_pointwise(word, key);
    lemma_prefix_pointwise(word, t.label);
    lemma_prefix_pointwise(t.label, word);
    lemma_prefix_pointwise(t.label, key);
    if p == l {
        // The whole label is a prefix of the key.
        if t.children.len() == 0 {
            assert(t2 == NodeView::leaf(key));
            NodeView::lemma_leaf_covers(key, word);
            if t.covers(word) {
                // The word sits inside the old label, which the key extends.
                assert(word.is_prefix_of(key));
            }
        } else {
            let rest = key.skip(p);
            if rest.len() == 0 {
                // The key is exactly the label: inserting changes nothing,
                // and the word being a prefix of the key means it sits
                // inside the label.
                assert(key =~= t.label);
                assert(t2 == t);
            } else {
                let i = first_match(t.children, rest);
                lemma_first_match(t.children, rest);
                if word.len() <= l {
                    // The word sits inside the unchanged label.
                    assert(t2.label == t.label);
                    if word.is_prefix_of(key) {
                        assert(word.is_prefix_of(t.label));
                    }
                    if 0 <= i < t.children.len() {
                        assert(t2.covers(word) == t.covers(word));
                    } else {
                        assert(t2.covers(word) == t.covers(word));
                    }
                } else {
                    let v = word.skip(l);
                    lemma_prefix_pointwise(v, rest);
                    if t.label.is_prefix_of(word) {
                        // Both sides reduce to what happens below the label.
                        assert(word.is_prefix_of(key) <==> v.is_prefix_of(rest)) by {
                            if word.is_prefix_of(key) {
                                assert forall|j: int| 0 <= j < v.len() implies v[j] == rest[j] by {
                                    assert(v[j] == word[l + j]);
                                    assert(rest[j] == key[l + j]);
                                }
                            }
                            if v.is_prefix_of(rest) {
                                assert forall|j: int| 0 <= j < word.len() implies word[j]
                                    == key[j] by {
                                    if j < l {
                                        assert(word[j] == t.label[j]);
                                        assert(t.label[j] == key[j]);
                                    } else {
                                        assert(word[j] == v[j - l]);
                                        assert(key[j] == rest[j - l]);
                                    }
                                }
                            }
                        }
                        lemma_any_covers(t.children, v);
                        if 0 <= i < t.children.len() {
                            let c2 = t.children[i].inserted(rest);
                            let ch2 = t.children.update(i, c2);
                            lemma_insert_covers_iff(t.children[i], rest, v);
                            lemma_any_covers(ch2, v);
                            assert(t2.children == ch2);
                            if t2.covers(word) {
                                let j = choose|j: int|
                                    0 <= j < ch2.len() && (#[trigger] ch2[j]).covers(v);
                                if j == i {
                                } else {
                                    assert(ch2[j] == t.children[j]);
                                    t.lemma_covers_step(word, j);
                                }
                            }
                            if t.covers(word) {
                                let j = choose|j: int|
                                    0 <= j < t.children.len() && (#[trigger] t.children[j]).covers(
                                        v,
                                    );
                                if j == i {
                                    assert(ch2[i] == c2);
                                    assert(c2.covers(v));
                                    t2.lemma_covers_step(word, i);
                                } else {
                                    assert(ch2[j] == t.children[j]);
                                    t2.lemma_covers_step(word, j);
                                }
                            }
                            if v.is_prefix_of(rest) {
                                assert(ch2[i] == c2);
                                assert(c2.covers(v));
                                t2.lemma_covers_step(word, i);
                            }
                        } else {
                            // No child admitted the suffix: a fresh leaf is
                            // appended.
                            let ch2 = t.children.push(NodeView::leaf(rest));
                            assert(t2.children == ch2);
                            lemma_any_covers(ch2, v);
                            NodeView::lemma_leaf_covers(rest, v);
                            if t2.covers(word) {
                                let j = choose|j: int|
                                    0 <= j < ch2.len() && (#[trigger] ch2[j]).covers(v);
                                if j == t.children.len() as int {
                                    assert(ch2[j] == NodeView::leaf(rest));
                                } else {
                                    assert(ch2[j] == t.children[j]);
                                    t.lemma_covers_step(word, j);
                                }
                            }
                            if t.covers(word) {
                                let j = choose|j: int|
                                    0 <= j < t.children.len() && (#[trigger] t.children[j]).covers(
                                        v,
                                    );
                                assert(ch2[j] == t.children[j]);
                                t2.lemma_covers_step(word, j);
                            }
                            if v.is_prefix_of(rest) {
                                assert(ch2[t.children.len() as int] == NodeView::leaf(rest));
                                t2.lemma_covers_step(word, t.children.len() as int);
                            }
                        }
                    } else {
                        // The word leaves the label's track before it ends:
                        // nothing matches it, before or after.
                        assert(!t.covers(word));
                        assert(t2.label == t.label);
                        assert(!t2.covers(word));
                        assert(!word.is_prefix_of(key));
                    }
                }
            }
        }
    } else {
        // The label and the key diverge at `p`: the node splits.
        let first = NodeView { label: t.label.skip(p), children: t.children };
        let second = NodeView::leaf(key.skip(p));
        assert(t2.label == t.label.take(p));
        assert(t2.children == seq![first, second]);
        lemma_prefix_pointwise(word, t2.label);
        lemma_prefix_pointwise(t2.label, word);
        if word.len() <= p {
            // The word sits inside the shared part of the label.
            assert(t2.covers(word) == word.is_prefix_of(t2.label));
            if word.is_prefix_of(t2.label) {
                assert(word.is_prefix_of(t.label));
            }
            if word.is_prefix_of(t.label) {
                assert(word.is_prefix_of(t2.label));
            }
            if word.is_prefix_of(key) {
                assert(word.is_prefix_of(t.label));
            }
        } else {
            let u = word.skip(p);
            lemma_any_covers_pair(first, second, u);
            NodeView::lemma_leaf_covers(key.skip(p), u);
            lemma_prefix_pointwise(u, key.skip(p));
            lemma_prefix_pointwise(u, first.label);
            lemma_prefix_pointwise(first.label, u);
            if t2.label.is_prefix_of(word) {
                // The first new child carries the old node's tail and
                // children: matching it is matching the old node.
                assert(first.covers(u) == t.covers(word)) by {
                    lemma_prefix_pointwise(u, first.label);
                    lemma_prefix_pointwise(first.label, u);
                    lemma_prefix_pointwise(word, t.label);
                    lemma_prefix_pointwise(t.label, word);
                    assert(forall|j: int| 0 <= j < p ==> word[j] == t.label[j]);
                    if word.len() <= l {
                        assert(u.is_prefix_of(first.label) <==> word.is_prefix_of(t.label)) by {
                            if u.is_prefix_of(first.label) {
                                assert forall|j: int| 0 <= j < word.len() implies word[j]
                                    == t.label[j] by {
                                    if j >= p {
                                        assert(word[j] == u[j - p]);
                                        assert(u[j - p] == first.label[j - p]);
                                        assert(first.label[j - p] == t.label[j]);
                                    }
                                }
                            }
                            if word.is_prefix_of(t.label) {
                                assert forall|j: int| 0 <= j < u.len() implies u[j]
                                    == first.label[j] by {
                                    assert(u[j] == word[p + j]);
                                    assert(word[p + j] == t.label[p + j]);
                                    assert(t.label[p + j] == first.label[j]);
                                }
                            }
                        }
                    } else {
                        assert(u.skip(l - p) =~= word.skip(l)) by {
                            assert forall|j: int|
                                0 <= j < u.skip(l - p).len() implies u.skip(l - p)[j] == word.skip(
                                l,
                            )[j] by {
                                assert(u.skip(l - p)[j] == u[l - p + j]);
                                assert(u[l - p + j] == word[l + j]);
                            }
                        }
                        assert(first.label.is_prefix_of(u) <==> t.label.is_prefix_of(word)) by {
                            if first.label.is_prefix_of(u) {
                                assert forall|j: int| 0 <= j < t.label.len() implies t.label[j]
                                    == word[j] by {
                                    if j >= p {
                                        assert(t.label[j] == first.label[j - p]);
                                        assert(first.label[j - p] == u[j - p]);
                                        assert(u[j - p] == word[j]);
                                    }
                                }
                            }
                            if t.label.is_prefix_of(word) {
                                assert forall|j: int|
                                    0 <= j < first.label.len() implies first.label[j] == u[j] by {
                                    assert(first.label[j] == t.label[p + j]);
                                    assert(t.label[p + j] == word[p + j]);
                                    assert(word[p + j] == u[j]);
                                }
                            }
                        }
                    }
                }
                // The second new child holds the key's tail: matching it is
                // being a prefix of the key.
                assert(second.covers(u) == word.is_prefix_of(key)) by {
                    lemma_prefix_pointwise(u, key.skip(p));
                    lemma_prefix_pointwise(word, key);
                    assert(forall|j: int| 0 <= j < p ==> word[j] == t.label[j]);
                    if u.is_prefix_of(key.skip(p)) {
                        assert forall|j: int| 0 <= j < word.len() implies word[j] == key[j] by {
                            if j >= p {
                                assert(word[j] == u[j - p]);
                                assert(u[j - p] == key.skip(p)[j - p]);
                                assert(key.skip(p)[j - p] == key[j]);
                            }
                        }
                    }
                    if word.is_prefix_of(key) {
                        assert forall|j: int| 0 <= j < u.len() implies u[j] == key.skip(p)[j] by {
                            assert(u[j] == word[p + j]);
                            assert(word[p + j] == key[p + j]);
                            assert(key[p + j] == key.skip(p)[j]);
                        }
                    }
                }
                assert(t2.covers(word) == (first.covers(u) || second.covers(u)));
            } else {
                // The word leaves the shared part before it ends.
                assert(!t2.covers(word));
                if word.len() <= l {
                    if word.is_prefix_of(t.label) {
                        assert(word.is_prefix_of(t2.label));
                    }
                } else {
                    if t.label.is_prefix_of(word) {
                        assert(t2.label.is_prefix_of(word));
                    }
                }
                assert(!t.covers(word));
                if word.is_prefix_of(key) {
                    assert(forall|j: int| 0 <= j < p ==> word[j] == t.label[j]);
                    assert(t2.label.is_prefix_of(word));
                }
            }
        }
    }
}

/// A fresh trie — a root with an empty label and one leaf holding the
/// initial key — matches exactly the prefixes of that key.
pub proof fn lemma_new_trie_covers(initial: Seq<char>, word: Seq<char>)
    ensures
        (NodeView {
            label: Seq::<char>::empty(),
            children: seq![NodeView::leaf(initial)],
        }).covers(word) <==> word.is_prefix_of(initial),
{
    let root = NodeView { label: Seq::<char>::empty(), children: seq![NodeView::leaf(initial)] };
    NodeView::lemma_leaf_covers(initial, word);
    if word.len() == 0 {
        assert(word =~= initial.subrange(0, 0));
        assert(word.is_prefix_of(initial));
    } else {
        assert(root.label.is_prefix_of(word)) by {
            assert(root.label =~= word.subrange(0, 0));
        }
        assert(word.skip(0) =~= word);
        reveal_with_fuel(any_covers, 2);
        assert(seq![NodeView::leaf(initial)][0] == NodeView::leaf(initial));
        assert(seq![NodeView::leaf(initial)].skip(1) =~= Seq::<NodeView>::empty());
        assert(!any_covers(Seq::<NodeView>::empty(), word));
        assert(root.covers(word) == NodeView::leaf(initial).covers(word));
    }
}

/// Membership after insert: a trie matches every key just inserted into
/// it (and, with prefix monotonicity, every prefix of it).
pub proof fn lemma_insert_then_covers(t: NodeView, key: Seq<char>)
    requires
        key.len() > 0,
    ensures
        t.inserted(key).covers(key),
{
    lemma_insert_covers_iff(t, key, key);
    assert(key.is_prefix_of(key)) by {
        assert(key =~= key.subrange(0, key.len() as int));
    }
}

/// Non-regression: inserting a new key never makes a word the trie
/// matched stop matching.
pub proof fn lemma_insert_preserves_covers(t: NodeView, key: Seq<char>, word: Seq<char>)
    requires
        key.len() > 0,
        t.covers(word),
    ensures
        t.inserted(key).covers(word),
{
    lemma_insert_covers_iff(t, key, word);
}

/// Sibling prefix-freedom, preserved: inserting a non-empty key into a
/// well-formed trie leaves it well-formed, so after any sequence of
/// inserts no two sibling labels share a leading character, and an
/// empty-labelled child is a leaf standing last.
pub proof fn lemma_insert_preserves_well_formed(t: NodeView, key: Seq<char>)
    requires
        t.well_formed(),
        key.len() > 0,
    ensures
        t.inserted(key).well_formed(),
    decreases t,
{
    let l = t.label.len() as int;
    let p = common_prefix_len(t.label, key);
    let t2 = t.inserted(key);
    lemma_common_prefix_len(t.label, key);
    lemma_common_prefix_len_whole(t.label, key);
    if p == l {
        if t.children.len() == 0 {
            assert(t2 == NodeView::leaf(key));
        } else {
            let rest = key.skip(p);
            if rest.len() == 0 {
                assert(t2 == t);
            } else {
                let i = first_match(t.children, rest);
                lemma_first_match(t.children, rest);
                if 0 <= i < t.children.len() {
                    let c = t.children[i];
                    let c2 = c.inserted(rest);
                    let ch2 = t.children.update(i, c2);
                    assert(t2.children == ch2);
                    assert(c.well_formed());
                    lemma_insert_preserves_well_formed(c, rest);
                    lemma_inserted_keeps_match(c, rest);
                    if c.label.len() == 0 {
                        // Only the last child can carry an empty label, and
                        // no earlier child admitted the suffix, so the new
                        // leading character collides with no sibling.
                        assert(i == t.children.len() - 1);
                        assert(c2.label == rest);
                        assert forall|j: int|
                            0 <= j < ch2.len() && j != i && ch2[j].label.len() > 0 implies ch2[j]
                            .label[0] != c2.label[0] by {
                            assert(ch2[j] == t.children[j]);
                            assert(!child_matches(t.children[j], rest));
                        }
                    } else {
                        assert(c2.label[0] == c.label[0]);
                    }
                    assert forall|j: int, k: int|
                        0 <= j < ch2.len() && 0 <= k < ch2.len() && j != k && ch2[j].label.len()
                            > 0 && ch2[k].label.len() > 0 implies ch2[j].label[0]
                        != ch2[k].label[0] by {
                        if j != i && k != i {
                            assert(ch2[j] == t.children[j]);
                            assert(ch2[k] == t.children[k]);
                        } else if j == i {
                            assert(ch2[k] == t.children[k]);
                            if c.label.len() > 0 {
                                assert(t.children[i].label.len() > 0);
                            }
                        } else {
                            assert(ch2[j] == t.children[j]);
                            if c.label.len() > 0 {
                                assert(t.children[i].label.len() > 0);
                            }
                        }
                    }
                    assert forall|j: int|
                        0 <= j < ch2.len() && (#[trigger] ch2[j]).label.len() == 0 implies ch2[j]
                        .children.len() == 0 && j == ch2.len() - 1 by {
                        assert(ch2[j] == t.children[j]);
                    }
                    assert forall|j: int| 0 <= j < ch2.len() implies (#[trigger] ch2[j])
                        .well_formed() by {
                        if j != i {
                            assert(ch2[j] == t.children[j]);
                        }
                    }
                    assert(t2.well_formed());
                } else {
                    // Append: no child admitted the suffix.  In particular no
                    // empty-labelled leaf existed, since such a leaf admits
                    // every suffix.
                    let ch2 = t.children.push(NodeView::leaf(rest));
                    assert(t2.children == ch2);
                    assert forall|j: int|
                        0 <= j < t.children.len() implies (#[trigger] t.children[j]).label.len()
                        > 0 by {
                        if t.children[j].label.len() == 0 {
                            assert(t.children[j].children.len() == 0);
                            assert(t.children[j].label.is_prefix_of(rest)) by {
                                assert(t.children[j].label =~= rest.subrange(0, 0));
                            }
                            assert(child_matches(t.children[j], rest));
                        }
                    }
                    assert forall|j: int, k: int|
                        0 <= j < ch2.len() && 0 <= k < ch2.len() && j != k && ch2[j].label.len()
                            > 0 && ch2[k].label.len() > 0 implies ch2[j].label[0]
                        != ch2[k].label[0] by {
                        if j < t.children.len() && k < t.children.len() {
                            assert(ch2[j] == t.children[j]);
                            assert(ch2[k] == t.children[k]);
                        } else if j < t.children.len() {
                            assert(ch2[j] == t.children[j]);
                            assert(ch2[k] == NodeView::leaf(rest));
                            assert(!child_matches(t.children[j], rest));
                        } else {
                            assert(ch2[k] == t.children[k]);
                            assert(ch2[j] == NodeView::leaf(rest));
                            assert(!child_matches(t.children[k], rest));
                        }
                    }
                    assert forall|j: int|
                        0 <= j < ch2.len() && (#[trigger] ch2[j]).label.len() == 0 implies ch2[j]
                        .children.len() == 0 && j == ch2.len() - 1 by {
                        if j < t.children.len() {
                            assert(ch2[j] == t.children[j]);
                        }
                    }
                    assert forall|j: int| 0 <= j < ch2.len() implies (#[trigger] ch2[j])
                        .well_formed() by {
                        if j < t.children.len() {
                            assert(ch2[j] == t.children[j]);
                        } else {
                            assert(ch2[j] == NodeView::leaf(rest));
                        }
                    }
                    assert(t2.well_formed());
                }
            }
        }
    } else {
        // Split: the old tail keeps the old children, the key's tail is a
        // fresh leaf, and the two diverge at their first characters.
        let first = NodeView { label: t.label.skip(p), children: t.children };
        let second = NodeView::leaf(key.skip(p));
        assert(t2.children == seq![first, second]);
        assert(first.well_formed()) by {
            assert forall|j: int| 0 <= j < first.children.len() implies (#[trigger] first
                .children[j]).well_formed() by {
                assert(first.children[j] == t.children[j]);
            }
        }
        assert(second.well_formed());
        assert(first.label.len() > 0);
        assert(first.label[0] == t.label[p]);
        if key.len() > p {
            assert(second.label[0] == key[p]);
            assert(t.label[p] != key[p]);
        } else {
            assert(second.label.len() == 0);
        }
        assert(t2.children[0] == first);
        assert(t2.children[1] == second);
        assert(t2.children.len() == 2);
        assert(t2.well_formed());
    }
}

/// Idempotence: inserting the same key twice yields exactly the tree a
/// single insertion yields.
pub proof fn lemma_insert_idempotent(t: NodeView, key: Seq<char>)
    requires
        key.len() > 0,
    ensures
        t.inserted(key).inserted(key) == t.inserted(key),
    decreases t,
{
    let l = t.label.len() as int;
    let p = common_prefix_len(t.label, key);
    let t2 = t.inserted(key);
    lemma_common_prefix_len(t.label, key);
    lemma_common_prefix_len_whole(t.label, key);
    if p == l {
        if t.children.len() == 0 {
            // A leaf absorbed the key; absorbing it again changes nothing.
            assert(t2 == NodeView::leaf(key));
            lemma_common_prefix_len_from_scan(key, key, key.len() as int);
            assert(t2.inserted(key) == NodeView::leaf(key));
        } else {
            let rest = key.skip(p);
            if rest.len() == 0 {
                assert(t2 == t);
            } else {
                let i = first_match(t.children, rest);
                lemma_first_match(t.children, rest);
                if 0 <= i < t.children.len() {
                    // The walk descends into the same child both times.
                    let c = t.children[i];
                    let c2 = c.inserted(rest);
                    let ch2 = t.children.update(i, c2);
                    assert(t2.children == ch2);
                    assert(t2.label == t.label);
                    lemma_inserted_keeps_match(c, rest);
                    lemma_first_match(ch2, rest);
                    assert(first_match(ch2, rest) == i) by {
                        assert(child_matches(ch2[i], rest));
                        if first_match(ch2, rest) < i {
                            assert(ch2[first_match(ch2, rest)] == t.children[first_match(
                                ch2,
                                rest,
                            )]);
                        }
                    }
                    lemma_insert_idempotent(c, rest);
                    assert(ch2.update(i, c2.inserted(rest)) =~= ch2);
                    assert(t2.inserted(key) =~= t2);
                } else {
                    // The appended leaf absorbs the second insertion in
                    // place.
                    let nl = NodeView::leaf(rest);
                    let ch2 = t.children.push(nl);
                    assert(t2.children == ch2);
                    assert(t2.label == t.label);
                    assert(child_matches(nl, rest)) by {
                        assert(rest =~= rest.subrange(0, rest.len() as int));
                    }
                    lemma_first_match(ch2, rest);
                    let i2 = first_match(ch2, rest);
                    assert(i2 == t.children.len()) by {
                        assert(child_matches(ch2[t.children.len() as int], rest));
                        if i2 < t.children.len() {
                            assert(ch2[i2] == t.children[i2]);
                        }
                    }
                    lemma_common_prefix_len_from_scan(rest, rest, rest.len() as int);
                    assert(nl.inserted(rest) == NodeView::leaf(rest));
                    assert(ch2.update(i2, nl.inserted(rest)) =~= ch2);
                    assert(t2.inserted(key) =~= t2);
                }
            }
        }
    } else {
        // The node split; the second insertion walks into the fresh leaf
        // that holds the key's tail and changes nothing.
        let first = NodeView { label: t.label.skip(p), children: t.children };
        let second = NodeView::leaf(key.skip(p));
        let rest2 = key.skip(p);
        assert(t2.label == t.label.take(p));
        assert(t2.children == seq![first, second]);
        lemma_common_prefix_len_from_scan(t.label.take(p), key, p);
        if p == key.len() {
            assert(rest2.len() == 0);
            assert(t2.inserted(key) == t2);
        } else {
            assert(rest2.len() > 0);
            assert(first.label.len() > 0);
            assert(first.label[0] == t.label[p]);
            assert(rest2[0] == key[p]);
            assert(!child_matches(first, rest2)) by {
                lemma_prefix_pointwise(first.label, rest2);
                if first.label.is_prefix_of(rest2) {
                    assert(first.label[0] == rest2[0]);
                }
            }
            assert(child_matches(second, rest2)) by {
                assert(second.label[0] == rest2[0]);
            }
            lemma_first_match(t2.children, rest2);
            let i2 = first_match(t2.children, rest2);
            assert(t2.children[0] == first);
            assert(t2.children[1] == second);
            assert(i2 == 1) by {
                assert(child_matches(t2.children[1], rest2));
                if i2 == 0 {
                    assert(child_matches(t2.children[0], rest2));
                }
            }
            lemma_common_prefix_len_from_scan(rest2, rest2, rest2.len() as int);
            assert(second.inserted(rest2) == NodeView::leaf(rest2));
            assert(t2.children.update(1, second.inserted(rest2)) =~= t2.children);
            assert(t2.inserted(key) =~= t2);
        }
    }
}

} // verus!
