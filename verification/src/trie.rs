//! The executable radix trie and its verified operations.

use vstd::prelude::*;
use vstd::string::StrSliceExecFns;
use vstd::string::StringExecFns;

use crate::model::NodeView;
use crate::model::child_matches;
use crate::model::common_prefix_len;
use crate::model::first_match;
use crate::model::lemma_common_prefix_len;
use crate::model::lemma_common_prefix_len_from_scan;
use crate::model::lemma_common_prefix_len_whole;
use crate::model::lemma_first_match;

verus! {

/// A radix trie node: an edge label and the ordered list of child nodes.
///
/// The root of a trie carries an empty label and serves as a branching
/// point; every other node carries the run of characters that labels the
/// edge from its parent.
pub struct RadixTrie {
    characters: String,
    children: Vec<RadixTrie>,
}

impl View for RadixTrie {
    type V = NodeView;

    closed spec fn view(&self) -> NodeView
        decreases self,
    {
        NodeView { label: self.characters@, children: views_of(self.children@) }
    }
}

/// The models of a sequence of nodes, element by element.  (The bounds
/// check keeps the closure's recursion well-founded; `Seq::new` only ever
/// applies it in range.)
pub open spec fn views_of(nodes: Seq<RadixTrie>) -> Seq<NodeView>
    decreases nodes,
{
    Seq::new(
        nodes.len(),
        |i: int|
            if 0 <= i < nodes.len() {
                nodes[i]@
            } else {
                NodeView { label: Seq::empty(), children: Seq::empty() }
            },
    )
}

/// Taking an element out of a sequence and putting another back in its
/// place is an update.
proof fn lemma_remove_insert<A>(s: Seq<A>, i: int, x: A)
    requires
        0 <= i < s.len(),
    ensures
        s.remove(i).insert(i, x) =~= s.update(i, x),
{
}

/// A new node holding `characters`, with no children.
fn create_node(characters: &str) -> (node: RadixTrie)
    ensures
        node@ == NodeView::leaf(characters@),
{
    let node = RadixTrie { characters: String::from_str(characters), children: Vec::new() };
    proof {
        assert(node@.children =~= Seq::<NodeView>::empty());
        assert(node@ =~= NodeView::leaf(characters@));
    }
    node
}

impl RadixTrie {
    /// Creates a new radix trie: a root with an empty label and a single
    /// child node holding `characters`.
    pub fn new(characters: &str) -> (trie: RadixTrie)
        requires
            characters@.len() > 0,
        ensures
            trie@ == (NodeView {
                label: Seq::<char>::empty(),
                children: seq![NodeView::leaf(characters@)],
            }),
            trie@.well_formed(),
    {
        let mut children: Vec<RadixTrie> = Vec::new();
        let first = create_node(characters);
        children.push(first);
        let trie = RadixTrie { characters: String::new(), children: children };
        proof {
            assert(trie@.children =~= seq![NodeView::leaf(characters@)]);
            assert(trie@ =~= NodeView {
                label: Seq::<char>::empty(),
                children: seq![NodeView::leaf(characters@)],
            });
            assert(trie@.children[0].well_formed());
        }
        trie
    }

    /// The characters stored in this node: the label of the edge leading
    /// to it.
    pub fn get_characters(&self) -> (characters: &str)
        ensures
            characters@ == self@.label,
    {
        self.characters.as_str()
    }

    /// The children of this node, in order.
    pub fn get_children(&self) -> (children: &Vec<RadixTrie>)
        ensures
            views_of(children@) == self@.children,
    {
        &self.children
    }

    /// Replaces the characters stored in this node, leaving its children
    /// untouched.
    pub fn set_characters(&mut self, characters: &str)
        ensures
            final(self)@ == (NodeView { label: characters@, children: old(self)@.children }),
    {
        self.characters = String::from_str(characters);
        proof {
            assert(self@ =~= NodeView { label: characters@, children: old(self)@.children });
        }
    }

    /// Reports whether `word` exists in the radix trie: whether the walk
    /// that consumes edge labels along some path matches every character
    /// of `word`.  A word is deemed present exactly when it is a prefix of
    /// the concatenated labels of some root-to-node path.
    pub fn contains(&self, word: &str) -> (present: bool)
        ensures
            present == self@.covers(word@),
        decreases *self,
    {
        let label_len = self.characters.as_str().unicode_len();
        let word_len = word.unicode_len();
        let mut i: usize = 0;
        while i < label_len
            invariant
                i <= label_len,
                i <= word_len,
                label_len == self@.label.len(),
                word_len == word@.len(),
                forall|j: int| 0 <= j < i ==> self@.label[j] == word@[j],
            decreases label_len - i,
        {
            if i == word_len {
                proof {
                    assert(word@ =~= self@.label.subrange(0, word@.len() as int));
                }
                return true;
            }
            if self.characters.as_str().get_char(i) != word.get_char(i) {
                proof {
                    if word@.len() <= self@.label.len() {
                        assert(!word@.is_prefix_of(self@.label)) by {
                            if word@.is_prefix_of(self@.label) {
                                assert(word@[i as int]
                                    == self@.label.subrange(0, word@.len() as int)[i as int]);
                            }
                        }
                    } else {
                        assert(!self@.label.is_prefix_of(word@)) by {
                            if self@.label.is_prefix_of(word@) {
                                assert(self@.label[i as int]
                                    == word@.subrange(0, self@.label.len() as int)[i as int]);
                            }
                        }
                    }
                }
                return false;
            }
            i += 1;
        }
        if word_len == label_len {
            proof {
                assert(word@ =~= self@.label.subrange(0, word@.len() as int));
            }
            return true;
        }
        proof {
            assert(self@.label =~= word@.subrange(0, self@.label.len() as int));
        }
        let rest = word.substring_char(label_len, word_len);
        proof {
            assert(rest@ =~= word@.skip(self@.label.len() as int));
        }
        let mut k: usize = 0;
        while k < self.children.len()
            invariant
                k <= self.children.len(),
                label_len == self@.label.len(),
                word_len == word@.len(),
                word_len > label_len,
                self@.label.is_prefix_of(word@),
                rest@ == word@.skip(self@.label.len() as int),
                self@.children.len() == self.children@.len(),
                forall|j: int| 0 <= j < k ==> !(#[trigger] self@.children[j]).covers(rest@),
            decreases self.children.len() - k,
        {
            let child = &self.children[k];
            if child.contains(rest) {
                proof {
                    assert(self@.children[k as int] == self.children@[k as int]@);
                    self@.lemma_covers_step(word@, k as int);
                }
                return true;
            }
            proof {
                assert(self@.children[k as int] == self.children@[k as int]@);
            }
            k += 1;
        }
        proof {
            self@.lemma_covers_no_witness(word@);
        }
        false
    }

    /// Inserts a new word into the radix trie, splitting, extending or
    /// adding nodes as the walk demands.  Afterwards the trie matches
    /// exactly what it matched before, plus every prefix of `word`.
    pub fn insert(&mut self, word: &str)
        requires
            word@.len() > 0,
        ensures
            final(self)@ == old(self)@.inserted(word@),
    {
        self.insert_node(word);
    }

    /// Recursively browses the radix trie in order to insert `word`
    /// below this node (may create new nodes).
    fn insert_node(&mut self, word: &str)
        requires
            word@.len() > 0,
        ensures
            final(self)@ == old(self)@.inserted(word@),
        decreases *old(self),
    {
        let ghost p = common_prefix_len(old(self)@.label, word@);
        proof {
            lemma_common_prefix_len(old(self)@.label, word@);
        }
        let sep = self.contains_word(word);
        if let Some(separator) = sep {
            // The label and the word diverge inside the label: split here.
            let word_len = word.unicode_len();
            let rest = word.substring_char(separator, word_len);
            proof {
                assert(rest@ =~= word@.skip(p));
            }
            self.create_children(separator, rest);
            proof {
                assert(self@ == old(self)@.inserted(word@));
            }
            return;
        }
        // The whole label is a prefix of the word.
        if self.children.len() == 0 {
            // A leaf absorbs the word in place (it may equal the label).
            self.characters = String::from_str(word);
            proof {
                assert(old(self)@.children.len() == 0);
                assert(self@.children.len() == 0);
                assert(self@.children =~= Seq::<NodeView>::empty());
                assert(self@ =~= NodeView::leaf(word@));
            }
            return;
        }
        let label_len = self.characters.as_str().unicode_len();
        let word_len = word.unicode_len();
        if word_len == label_len {
            // The word is exactly this node's path: nothing to do.
            proof {
                assert(word@.skip(p).len() == 0);
                assert(self@ == old(self)@.inserted(word@));
            }
            return;
        }
        // A non-empty suffix of the word remains to place among the children.
        let rest = word.substring_char(label_len, word_len);
        proof {
            assert(rest@ =~= word@.skip(p));
            lemma_first_match(self@.children, rest@);
        }
        let mut sel: usize = 0;
        let mut found = false;
        while sel < self.children.len() && !found
            invariant
                word@.len() > 0,
                rest@ == word@.skip(p),
                rest@.len() > 0,
                sel <= self.children@.len(),
                forall|j: int| 0 <= j < sel ==> !child_matches(self@.children[j], rest@),
                found ==> sel < self.children@.len() && child_matches(
                    self@.children[sel as int],
                    rest@,
                ),
            decreases self.children@.len() - sel + (if found { 0int } else { 1int }),
        {
            let c = &self.children[sel];
            let matches_first = c.characters.as_str().unicode_len() > 0
                && c.characters.as_str().get_char(0) == rest.get_char(0);
            let is_leaf_prefix = c.children.len() == 0 && c.contains_word(rest).is_none();
            proof {
                assert(self@.children[sel as int] == self.children@[sel as int]@);
                lemma_common_prefix_len_whole(c@.label, rest@);
                assert((matches_first || is_leaf_prefix) == child_matches(
                    self@.children[sel as int],
                    rest@,
                ));
            }
            if matches_first || is_leaf_prefix {
                found = true;
            } else {
                sel += 1;
            }
        }
        if found {
            proof {
                assert(sel as int == first_match(self@.children, rest@));
            }
            let mut child = self.children.remove(sel);
            proof {
                assert(child == old(self).children@[sel as int]);
                assert(decreases_to!(old(self).children@ => old(self).children@[sel as int]));
                assert(decreases_to!(*old(self) => old(self).children));
                assert(decreases_to!(old(self).children => old(self).children@));
                assert(decreases_to!(*old(self) => child));
            }
            child.insert_node(rest);
            self.children.insert(sel, child);
            proof {
                lemma_remove_insert(old(self).children@, sel as int, self.children@[sel as int]);
                assert(self.children@ =~= old(self).children@.update(sel as int, child));
                assert(self@.children =~= old(self)@.children.update(
                    sel as int,
                    old(self)@.children[sel as int].inserted(rest@),
                ));
                assert(self@ =~= old(self)@.inserted(word@));
            }
        } else {
            // No child admits the suffix: append a new leaf holding it.
            let new_child = create_node(rest);
            self.children.push(new_child);
            proof {
                assert(self@.children =~= old(self)@.children.push(NodeView::leaf(rest@)));
                assert(self@ =~= old(self)@.inserted(word@));
            }
        }
    }

    /// Splits this node at `separator`: the label keeps its first
    /// `separator` characters, the rest of the label moves onto a new
    /// first child that inherits this node's children, and a second new
    /// leaf child holds `word` (the unconsumed part of an inserted key,
    /// possibly empty).
    fn create_children(&mut self, separator: usize, word: &str)
        requires
            separator < old(self)@.label.len(),
        ensures
            final(self)@ == (NodeView {
                label: old(self)@.label.take(separator as int),
                children: seq![
                    NodeView {
                        label: old(self)@.label.skip(separator as int),
                        children: old(self)@.children,
                    },
                    NodeView::leaf(word@),
                ],
            }),
    {
        let label_len = self.characters.as_str().unicode_len();
        let head = String::from_str(self.characters.as_str().substring_char(0, separator));
        let tail = String::from_str(
            self.characters.as_str().substring_char(separator, label_len),
        );
        let mut first_child = RadixTrie { characters: tail, children: Vec::new() };
        core::mem::swap(&mut first_child.children, &mut self.children);
        let second_child = create_node(word);
        self.characters = head;
        self.children.push(first_child);
        self.children.push(second_child);
        proof {
            assert(self@.children.len() == 2);
            assert(self@.children[0] == self.children@[0]@);
            assert(self@.children[1] == self.children@[1]@);
            assert(self@.children[0] =~= NodeView {
                label: old(self)@.label.skip(separator as int),
                children: old(self)@.children,
            });
            assert(self@.children[1] == NodeView::leaf(word@));
            assert(self@.label =~= old(self)@.label.take(separator as int));
            assert(self@.children =~= seq![
                NodeView {
                    label: old(self)@.label.skip(separator as int),
                    children: old(self)@.children,
                },
                NodeView::leaf(word@),
            ]);
            assert(self@ =~= NodeView {
                label: old(self)@.label.take(separator as int),
                children: seq![
                    NodeView {
                        label: old(self)@.label.skip(separator as int),
                        children: old(self)@.children,
                    },
                    NodeView::leaf(word@),
                ],
            });
        }
    }

    /// Scans this node's label against `word` and reports where the two
    /// first differ, or `None` if the whole label is a prefix of `word`.
    fn contains_word(&self, word: &str) -> (sep: Option<usize>)
        ensures
            match sep {
                None => common_prefix_len(self@.label, word@) == self@.label.len(),
                Some(i) => {
                    &&& i == common_prefix_len(self@.label, word@)
                    &&& i < self@.label.len()
                },
            },
    {
        let label_len = self.characters.as_str().unicode_len();
        let word_len = word.unicode_len();
        let mut i: usize = 0;
        while i < label_len && i < word_len
            invariant
                i <= label_len,
                i <= word_len,
                label_len == self@.label.len(),
                word_len == word@.len(),
                forall|j: int| 0 <= j < i ==> self@.label[j] == word@[j],
            decreases label_len - i,
        {
            if self.characters.as_str().get_char(i) != word.get_char(i) {
                proof {
                    lemma_common_prefix_len_from_scan(self@.label, word@, i as int);
                }
                return Some(i);
            }
            i += 1;
        }
        proof {
            lemma_common_prefix_len_from_scan(self@.label, word@, i as int);
        }
        if i < label_len {
            Some(i)
        } else {
            None
        }
    }
}

} // verus!
