//! The mathematical model of a radix trie.
//!
//! A trie node is modelled by [`NodeView`]: an edge label (a sequence of
//! characters) together with the models of its children, in order.  The
//! spec functions here define what a node matches ([`NodeView::covers`]),
//! how insertion transforms a node ([`NodeView::inserted`]), and the
//! structural invariant that insertion maintains ([`NodeView::well_formed`]).

use vstd::prelude::*;

verus! {

/// The model of one trie node: its edge label and the models of its
/// children, in order.
#[verifier::ext_equal]
pub struct NodeView {
    pub label: Seq<char>,
    pub children: Seq<NodeView>,
}

/// Length of the longest common prefix of `a` and `b`.
pub open spec fn common_prefix_len(a: Seq<char>, b: Seq<char>) -> int
    decreases a.len(),
{
    if a.len() == 0 || b.len() == 0 || a[0] != b[0] {
        0
    } else {
        1 + common_prefix_len(a.skip(1), b.skip(1))
    }
}

/// The characterisation of `common_prefix_len`: it is the largest index up
/// to which `a` and `b` agree, and it never exceeds either length.
pub proof fn lemma_common_prefix_len(a: Seq<char>, b: Seq<char>)
    ensures
        0 <= common_prefix_len(a, b) <= a.len(),
        common_prefix_len(a, b) <= b.len(),
        forall|j: int| 0 <= j < common_prefix_len(a, b) ==> a[j] == b[j],
        common_prefix_len(a, b) < a.len() && common_prefix_len(a, b) < b.len()
            ==> a[common_prefix_len(a, b)] != b[common_prefix_len(a, b)],
    decreases a.len(),
{
    if a.len() == 0 || b.len() == 0 || a[0] != b[0] {
    } else {
        lemma_common_prefix_len(a.skip(1), b.skip(1));
        let p = common_prefix_len(a, b);
        assert forall|j: int| 0 <= j < p implies a[j] == b[j] by {
            if j > 0 {
                assert(a.skip(1)[j - 1] == a[j]);
                assert(b.skip(1)[j - 1] == b[j]);
            }
        }
        if p < a.len() && p < b.len() {
            assert(a.skip(1)[p - 1] == a[p]);
            assert(b.skip(1)[p - 1] == b[p]);
        }
    }
}

/// Whether an insertion descending with the unconsumed suffix `rest` may
/// continue into the child `c`: either the two share a leading character,
/// or `c` is a leaf whose whole label is a prefix of `rest`, so that the
/// leaf can be extended in place.
pub open spec fn child_matches(c: NodeView, rest: Seq<char>) -> bool {
    ||| (c.label.len() > 0 && rest.len() > 0 && c.label[0] == rest[0])
    ||| (c.children.len() == 0 && c.label.is_prefix_of(rest))
}

/// The least index at or after `i` of a child that insertion with suffix
/// `rest` may continue into, or `children.len()` if there is none.
pub open spec fn first_match_from(children: Seq<NodeView>, rest: Seq<char>, i: int) -> int
    decreases children.len() - i,
{
    if i < 0 || i >= children.len() {
        children.len() as int
    } else if child_matches(children[i], rest) {
        i
    } else {
        first_match_from(children, rest, i + 1)
    }
}

/// The least index of a child that insertion with suffix `rest` may
/// continue into, or `children.len()` if there is none.
pub open spec fn first_match(children: Seq<NodeView>, rest: Seq<char>) -> int {
    first_match_from(children, rest, 0)
}

/// The characterisation of `first_match_from`: no child between `i` and
/// the found index matches, and the found child (if any) does.
pub proof fn lemma_first_match_from(children: Seq<NodeView>, rest: Seq<char>, i: int)
    requires
        0 <= i <= children.len(),
    ensures
        i <= first_match_from(children, rest, i) <= children.len(),
        forall|j: int|
            i <= j < first_match_from(children, rest, i) ==> !child_matches(
                #[trigger] children[j],
                rest,
            ),
        first_match_from(children, rest, i) < children.len() ==> child_matches(
            children[first_match_from(children, rest, i)],
            rest,
        ),
    decreases children.len() - i,
{
    if i < children.len() && !child_matches(children[i], rest) {
        lemma_first_match_from(children, rest, i + 1);
    }
}

/// The characterisation of `first_match`: no earlier child matches, and
/// the selected child (if any) does.
pub proof fn lemma_first_match(children: Seq<NodeView>, rest: Seq<char>)
    ensures
        0 <= first_match(children, rest) <= children.len(),
        forall|j: int|
            0 <= j < first_match(children, rest) ==> !child_matches(#[trigger] children[j], rest),
        first_match(children, rest) < children.len() ==> child_matches(
            children[first_match(children, rest)],
            rest,
        ),
{
    lemma_first_match_from(children, rest, 0);
}

/// Whether some node of `children` matches `rest`.
pub open spec fn any_covers(children: Seq<NodeView>, rest: Seq<char>) -> bool
    decreases children,
{
    children.len() > 0 && (children[0].covers(rest) || any_covers(children.skip(1), rest))
}

/// `any_covers` holds exactly when some child, named by its index, does.
pub proof fn lemma_any_covers(children: Seq<NodeView>, rest: Seq<char>)
    ensures
        any_covers(children, rest) <==> exists|i: int|
            0 <= i < children.len() && (#[trigger] children[i]).covers(rest),
    decreases children,
{
    if children.len() > 0 {
        lemma_any_covers(children.skip(1), rest);
        if children[0].covers(rest) {
        } else if any_covers(children.skip(1), rest) {
            let j = choose|j: int|
                0 <= j < children.skip(1).len() && (#[trigger] children.skip(1)[j]).covers(rest);
            assert(children[j + 1].covers(rest));
        } else {
            assert forall|i: int| 0 <= i < children.len() implies !(#[trigger] children[i]).covers(
                rest,
            ) by {
                if i > 0 {
                    assert(children.skip(1)[i - 1] == children[i]);
                }
            }
        }
    }
}

/// Over a two-node sequence, `any_covers` is the disjunction.
pub proof fn lemma_any_covers_pair(a: NodeView, b: NodeView, rest: Seq<char>)
    ensures
        any_covers(seq![a, b], rest) <==> (a.covers(rest) || b.covers(rest)),
{
    reveal_with_fuel(any_covers, 3);
    assert(seq![a, b][0] == a);
    assert(seq![a, b].skip(1) =~= seq![b]);
    assert(seq![b][0] == b);
    assert(seq![b].skip(1) =~= Seq::<NodeView>::empty());
    assert(!any_covers(Seq::<NodeView>::empty(), rest));
}

impl NodeView {
    /// A node with no children.
    pub open spec fn leaf(label: Seq<char>) -> NodeView {
        NodeView { label: label, children: Seq::empty() }
    }

    /// A node without children matches exactly the prefixes of its label.
    pub proof fn lemma_leaf_covers(label: Seq<char>, word: Seq<char>)
        ensures
            NodeView::leaf(label).covers(word) <==> word.is_prefix_of(label),
    {
        if word.len() > label.len() {
            assert(!any_covers(Seq::<NodeView>::empty(), word.skip(label.len() as int)));
        }
    }

    /// Whether the trie rooted at this node matches `word`: some
    /// root-to-node concatenation of edge labels has `word` as a prefix.
    /// Equivalently, the walk of the existence query succeeds.
    pub open spec fn covers(self, word: Seq<char>) -> bool
        decreases self,
    {
        if word.len() <= self.label.len() {
            word.is_prefix_of(self.label)
        } else {
            self.label.is_prefix_of(word) && any_covers(
                self.children,
                word.skip(self.label.len() as int),
            )
        }
    }

    /// A witness among the children makes the node match a word that
    /// outruns its label.
    pub proof fn lemma_covers_step(self, word: Seq<char>, i: int)
        requires
            word.len() > self.label.len(),
            self.label.is_prefix_of(word),
            0 <= i < self.children.len(),
            self.children[i].covers(word.skip(self.label.len() as int)),
        ensures
            self.covers(word),
    {
        lemma_any_covers(self.children, word.skip(self.label.len() as int));
    }

    /// A node whose label outruns none of `word` matches it only through
    /// some child; no matching child, no match.
    pub proof fn lemma_covers_no_witness(self, word: Seq<char>)
        requires
            word.len() > self.label.len(),
            forall|i: int|
                0 <= i < self.children.len() ==> !(#[trigger] self.children[i]).covers(
                    word.skip(self.label.len() as int),
                ),
        ensures
            !self.covers(word),
    {
        lemma_any_covers(self.children, word.skip(self.label.len() as int));
    }

    /// The node that insertion of `word` turns this node into.
    ///
    /// With `p` the length of the common prefix of the node's label and
    /// `word`: if the whole label is consumed, insertion either extends a
    /// leaf in place, stops when nothing of `word` remains, descends into
    /// the first child that `child_matches` admits, or appends a new leaf;
    /// if the label is only partly consumed, the node is split at `p`,
    /// its old suffix keeping the old children, beside a new leaf for the
    /// unconsumed part of `word`.
    pub open spec fn inserted(self, word: Seq<char>) -> NodeView
        decreases self,
    {
        let p = common_prefix_len(self.label, word);
        if p == self.label.len() {
            if self.children.len() == 0 {
                NodeView::leaf(word)
            } else {
                let rest = word.skip(p);
                if rest.len() == 0 {
                    self
                } else {
                    let i = first_match(self.children, rest);
                    if 0 <= i < self.children.len() {
                        NodeView {
                            label: self.label,
                            children: self.children.update(i, self.children[i].inserted(rest)),
                        }
                    } else {
                        NodeView {
                            label: self.label,
                            children: self.children.push(NodeView::leaf(rest)),
                        }
                    }
                }
            }
        } else {
            NodeView {
                label: self.label.take(p),
                children: seq![
                    NodeView { label: self.label.skip(p), children: self.children },
                    NodeView::leaf(word.skip(p)),
                ],
            }
        }
    }

    /// The structural invariant that insertion maintains.
    ///
    /// No two sibling labels share a leading character (path compression:
    /// diverging keys share exactly one intermediate node), and a child
    /// with an empty label — the terminal branch a split leaves behind when
    /// the inserted key is a strict prefix — is a leaf and stands last.
    pub open spec fn well_formed(self) -> bool
        decreases self,
    {
        &&& forall|i: int, j: int|
            #![trigger self.children[i], self.children[j]]
            0 <= i < self.children.len() && 0 <= j < self.children.len() && i != j
                && self.children[i].label.len() > 0 && self.children[j].label.len() > 0
                ==> self.children[i].label[0] != self.children[j].label[0]
        &&& forall|i: int|
            0 <= i < self.children.len() && (#[trigger] self.children[i]).label.len() == 0
                ==> self.children[i].children.len() == 0 && i == self.children.len() - 1
        &&& forall|i: int|
            0 <= i < self.children.len() ==> (#[trigger] self.children[i]).well_formed()
    }
}

/// Being a prefix is agreeing pointwise on every index of the shorter
/// sequence.
pub proof fn lemma_prefix_pointwise(a: Seq<char>, b: Seq<char>)
    ensures
        a.is_prefix_of(b) <==> (a.len() <= b.len() && forall|j: int|
            0 <= j < a.len() ==> a[j] == b[j]),
{
    if a.len() <= b.len() {
        if forall|j: int| 0 <= j < a.len() ==> a[j] == b[j] {
            assert(a =~= b.subrange(0, a.len() as int));
        }
        if a.is_prefix_of(b) {
            assert(forall|j: int| 0 <= j < a.len() ==> a[j] == b.subrange(0, a.len() as int)[j]);
        }
    }
}

/// The common prefix spans the whole of `a` exactly when `a` is a prefix
/// of `b`.
pub proof fn lemma_common_prefix_len_whole(a: Seq<char>, b: Seq<char>)
    ensures
        common_prefix_len(a, b) == a.len() <==> a.is_prefix_of(b),
{
    lemma_common_prefix_len(a, b);
    if a.is_prefix_of(b) {
        assert(forall|j: int| 0 <= j < a.len() ==> a[j] == b.subrange(0, a.len() as int)[j]);
        lemma_common_prefix_len_from_scan(a, b, a.len() as int);
    }
    if common_prefix_len(a, b) == a.len() {
        assert(a =~= b.subrange(0, a.len() as int));
    }
}

/// Any index with the scan property (all earlier characters agree, and the
/// index is either a disagreement point or the end of one sequence) is the
/// common prefix length.
pub proof fn lemma_common_prefix_len_from_scan(a: Seq<char>, b: Seq<char>, i: int)
    requires
        0 <= i <= a.len(),
        i <= b.len(),
        forall|j: int| 0 <= j < i ==> a[j] == b[j],
        i < a.len() && i < b.len() ==> a[i] != b[i],
    ensures
        common_prefix_len(a, b) == i,
    decreases a.len(),
{
    if a.len() == 0 || b.len() == 0 || a[0] != b[0] {
    } else {
        assert(a[0] == b[0]);
        lemma_common_prefix_len_from_scan(a.skip(1), b.skip(1), i - 1);
    }
}

} // verus!
