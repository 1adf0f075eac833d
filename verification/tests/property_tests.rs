use radix_trie::RadixTrie;

/// Two tries have the same shape: same labels and same children, in order.
fn same_shape(a: &RadixTrie, b: &RadixTrie) -> bool {
    if a.get_characters() != b.get_characters() {
        return false;
    }
    let ca = a.get_children();
    let cb = b.get_children();
    if ca.len() != cb.len() {
        return false;
    }
    for i in 0..ca.len() {
        if !same_shape(&ca[i], &cb[i]) {
            return false;
        }
    }
    true
}

/// No two sibling labels share a leading character, and an empty-labelled
/// child is a leaf standing last.
fn prefix_free(node: &RadixTrie) -> bool {
    let children = node.get_children();
    for i in 0..children.len() {
        let li = children[i].get_characters();
        if li.is_empty() {
            if !children[i].get_children().is_empty() || i != children.len() - 1 {
                return false;
            }
        }
        for j in 0..children.len() {
            if i != j {
                let lj = children[j].get_characters();
                if !li.is_empty() && !lj.is_empty() && li.as_bytes()[0] == lj.as_bytes()[0] {
                    return false;
                }
            }
        }
        if !prefix_free(&children[i]) {
            return false;
        }
    }
    true
}

#[test]
fn membership_after_every_insert() {
    let keys = ["salt", "same", "salted", "saltandpepper", "bonjour", "bon", "b"];
    let mut node = RadixTrie::new(keys[0]);
    for upto in 1..keys.len() {
        node.insert(keys[upto]);
        for seen in 0..=upto {
            assert!(node.contains(keys[seen]));
        }
    }
}

#[test]
fn double_insert_yields_same_shape() {
    let mut once = RadixTrie::new("bonjour");
    once.insert("bonapp");
    once.insert("bonsoir");

    let mut twice = RadixTrie::new("bonjour");
    twice.insert("bonapp");
    twice.insert("bonapp");
    twice.insert("bonsoir");
    twice.insert("bonsoir");
    twice.insert("bonjour");

    assert!(same_shape(&once, &twice));
}

#[test]
fn contains_is_prefix_closed() {
    let mut node = RadixTrie::new("salt");
    node.insert("saltandpepper");

    let word = "saltandpepper";
    for end in 0..=word.len() {
        assert!(node.contains(&word[..end]));
    }
}

#[test]
fn insert_never_removes_a_match() {
    let mut node = RadixTrie::new("helloworld");
    let probes = ["h", "hello", "helloworld", "hellowor"];
    let additions = ["helloearth", "hermes", "bonjour", "hell", "helloworldly"];
    for addition in additions {
        for probe in probes {
            assert!(node.contains(probe));
        }
        node.insert(addition);
        for probe in probes {
            assert!(node.contains(probe));
        }
        assert!(node.contains(addition));
    }
}

#[test]
fn siblings_stay_prefix_free() {
    let mut node = RadixTrie::new("jour");
    let additions = ["journal", "jardin", "bonjour", "bonsoir", "bon", "soir", "soleil", "sol"];
    assert!(prefix_free(&node));
    for addition in additions {
        node.insert(addition);
        assert!(prefix_free(&node));
    }
}

#[test]
fn scenario_updated_first_child_answers_queries() {
    let mut node = RadixTrie::new("salt");
    node.insert("same");
    node.insert("salted");

    assert_eq!(node.contains("salted"), true);
    assert_eq!(node.contains("sam"), true);
    assert_eq!(node.contains("saq"), false);
}

#[test]
fn insert_strict_prefix_splits_with_empty_branch() {
    let mut node = RadixTrie::new("salt");
    node.insert("sal");

    let children = node.get_children();
    assert_eq!(children[0].get_characters(), "sal");

    let sub_children = children[0].get_children();
    assert_eq!(sub_children.len(), 2);
    assert_eq!(sub_children[0].get_characters(), "t");
    assert_eq!(sub_children[1].get_characters(), "");
    assert!(sub_children[0].get_children().is_empty());
    assert!(sub_children[1].get_children().is_empty());

    assert_eq!(node.contains("sal"), true);
    assert_eq!(node.contains("salt"), true);
    assert_eq!(node.contains("sa"), true);
    assert_eq!(node.contains("salx"), false);
}

#[test]
fn empty_terminal_branch_extends_in_place() {
    let mut node = RadixTrie::new("salt");
    node.insert("sal");
    node.insert("salx");

    let children = node.get_children();
    assert_eq!(children[0].get_characters(), "sal");

    let sub_children = children[0].get_children();
    assert_eq!(sub_children.len(), 2);
    assert_eq!(sub_children[0].get_characters(), "t");
    assert_eq!(sub_children[1].get_characters(), "x");

    assert_eq!(node.contains("sal"), true);
    assert_eq!(node.contains("salt"), true);
    assert_eq!(node.contains("salx"), true);
    assert_eq!(node.contains("saly"), false);
}

#[test]
fn inserting_the_stored_key_changes_nothing() {
    let mut node = RadixTrie::new("bon");
    node.insert("bon");

    assert_eq!(node.get_children().len(), 1);
    assert_eq!(node.get_children()[0].get_characters(), "bon");
    assert!(node.get_children()[0].get_children().is_empty());
    assert_eq!(node.contains("bon"), true);
    assert_eq!(node.contains("bonjour"), false);
}

#[test]
fn empty_word_is_always_contained() {
    let mut node = RadixTrie::new("hello");
    assert_eq!(node.contains(""), true);
    node.insert("bonjour");
    assert_eq!(node.contains(""), true);
}

#[test]
fn single_character_keys_fan_out() {
    let mut node = RadixTrie::new("a");
    node.insert("b");
    node.insert("c");

    let children = node.get_children();
    assert_eq!(children.len(), 3);
    assert_eq!(children[0].get_characters(), "a");
    assert_eq!(children[1].get_characters(), "b");
    assert_eq!(children[2].get_characters(), "c");

    assert_eq!(node.contains("a"), true);
    assert_eq!(node.contains("b"), true);
    assert_eq!(node.contains("c"), true);
    assert_eq!(node.contains("d"), false);
    assert_eq!(node.contains("ab"), false);
}

#[test]
fn set_characters_replaces_label_and_keeps_children() {
    let mut node = RadixTrie::new("salt");
    node.insert("same");

    node.set_characters("re");

    assert_eq!(node.get_characters(), "re");
    assert_eq!(node.get_children().len(), 1);
    assert_eq!(node.get_children()[0].get_characters(), "sa");
    assert_eq!(node.get_children()[0].get_children().len(), 2);
}
