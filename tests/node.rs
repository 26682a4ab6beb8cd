use select::predicate::{Any, Comment, Element, Name, Predicate, Text};
use select::{Data, Document, Node, Raw, Selection};

fn raw(index: usize, parent: Option<usize>, prev: Option<usize>, next: Option<usize>, data: Data) -> Raw {
    Raw { index, parent, prev, next, data }
}

fn s(x: &str) -> String {
    x.to_string()
}

// div#main.box
//   "a"
//   b
//     "c"
//   <!--skip-->
fn sample() -> Document {
    Document {
        nodes: vec![
            raw(
                0,
                None,
                None,
                None,
                Data::Element(s("div"), vec![(s("id"), s("main")), (s("class"), s("box"))], vec![1, 2, 4]),
            ),
            raw(1, Some(0), None, Some(2), Data::Text(s("a"))),
            raw(2, Some(0), Some(1), Some(4), Data::Element(s("b"), vec![], vec![3])),
            raw(3, Some(2), None, None, Data::Text(s("c"))),
            raw(4, Some(0), Some(2), None, Data::Comment(s("skip"))),
        ],
    }
}

#[test]
fn nth_keeps_index() {
    let doc = sample();
    for i in 0..doc.len() {
        assert_eq!(doc.nth(i).index(), i);
        assert_eq!(Node::new(&doc, i).index(), i);
    }
}

#[test]
fn parent_lists_child_once() {
    let doc = sample();
    for i in 0..doc.len() {
        let n = doc.nth(i);
        if let Some(p) = n.parent() {
            match p.data() {
                Data::Element(_, _, children) => {
                    assert_eq!(children.iter().filter(|&&c| c == i).count(), 1);
                }
                _ => panic!("a parent must be an element"),
            }
        }
    }
    assert!(doc.nth(0).parent().is_none());
    assert_eq!(doc.nth(3).parent().map(|p| p.index()), Some(2));
}

#[test]
fn sibling_links_agree() {
    let doc = sample();
    for i in 0..doc.len() {
        let a = doc.nth(i);
        if let Some(b) = a.next() {
            assert_eq!(b.prev().map(|p| p.index()), Some(a.index()));
        }
        if let Some(b) = a.prev() {
            assert_eq!(b.next().map(|p| p.index()), Some(a.index()));
        }
    }
    assert_eq!(doc.nth(1).next().map(|n| n.index()), Some(2));
    assert_eq!(doc.nth(4).prev().map(|n| n.index()), Some(2));
    assert!(doc.nth(1).prev().is_none());
    assert!(doc.nth(4).next().is_none());
    assert!(doc.nth(0).next().is_none());
}

#[test]
fn exactly_one_kind_per_node() {
    let doc = sample();
    for i in 0..doc.len() {
        let n = doc.nth(i);
        let kinds = [n.name().is_some(), n.as_text().is_some(), n.as_comment().is_some()];
        assert_eq!(kinds.iter().filter(|&&k| k).count(), 1);
        assert_eq!(n.name().is_some(), matches!(n.data(), Data::Element(..)));
        assert_eq!(n.as_text().is_some(), matches!(n.data(), Data::Text(..)));
        assert_eq!(n.as_comment().is_some(), matches!(n.data(), Data::Comment(..)));
    }
    assert_eq!(doc.nth(0).name(), Some("div"));
    assert_eq!(doc.nth(2).name(), Some("b"));
    assert_eq!(doc.nth(1).as_text(), Some("a"));
    assert_eq!(doc.nth(4).as_comment(), Some("skip"));
    assert_eq!(doc.nth(4).as_text(), None);
    assert_eq!(doc.nth(1).as_comment(), None);
}

#[test]
fn attr_reads_exact_keys_of_elements_only() {
    let doc = sample();
    let div = doc.nth(0);
    assert_eq!(div.attr("id"), Some("main"));
    assert_eq!(div.attr("class"), Some("box"));
    assert_eq!(div.attr("ID"), None);
    assert_eq!(div.attr("i"), None);
    assert_eq!(div.attr(""), None);
    assert_eq!(doc.nth(2).attr("id"), None);
    for leaf in [1, 3, 4] {
        assert_eq!(doc.nth(leaf).attr("id"), None);
        assert_eq!(doc.nth(leaf).attr("class"), None);
    }
}

#[test]
fn text_of_text_node_is_its_content() {
    let doc = Document { nodes: vec![raw(0, None, None, None, Data::Text(s("hello")))] };
    assert_eq!(doc.nth(0).text(), "hello");
}

#[test]
fn text_skips_comments_and_inlines_elements() {
    let doc = sample();
    assert_eq!(doc.nth(0).text(), "ac");
    assert_eq!(doc.nth(2).text(), "c");
    assert_eq!(doc.nth(4).text(), "");
}

#[test]
fn text_of_childless_element_is_empty() {
    let doc = Document { nodes: vec![raw(0, None, None, None, Data::Element(s("br"), vec![], vec![]))] };
    assert_eq!(doc.nth(0).text(), "");
}

#[test]
fn is_passes_predicate_through() {
    let doc = sample();
    assert!(doc.nth(2).is(Name("b")));
    assert!(!doc.nth(0).is(Name("b")));
    assert!(!doc.nth(1).is(Name("a")));
    assert!(doc.nth(1).is(Text));
    assert!(!doc.nth(1).is(Element));
    assert!(doc.nth(4).is(Comment));
    assert!(doc.nth(0).is(Element));
    for i in 0..doc.len() {
        assert!(doc.nth(i).is(Any));
    }
}

#[test]
fn find_searches_below_this_node_only() {
    let doc = sample();
    assert_eq!(doc.nth(2).find(Text).indices(), &[3]);
    assert_eq!(doc.nth(0).find(Text).indices(), &[1, 3]);
    assert_eq!(doc.nth(0).find(Any).indices(), &[1, 2, 3, 4]);
    assert_eq!(doc.nth(0).find(Name("b")).indices(), &[2]);
    assert_eq!(doc.nth(0).find(Name("div")).len(), 0);
    assert_eq!(doc.nth(3).find(Any).len(), 0);
    let via_prev = doc.nth(4).prev().unwrap();
    assert_eq!(via_prev.find(Any).indices(), &[3]);
}

#[test]
fn selection_keeps_arena_order_and_finds_below_each_member() {
    let doc = sample();
    let sel = Selection::new(&doc, vec![4, 2, 4]);
    assert_eq!(sel.indices(), &[2, 4]);
    assert_eq!(sel.len(), 2);
    assert_eq!(sel.find(Any).indices(), &[3]);
    let both = Selection::new(&doc, vec![2, 0]);
    assert_eq!(both.find(Text).indices(), &[1, 3]);
    assert_eq!(Selection::new(&doc, vec![]).find(Any).len(), 0);
}

#[test]
fn data_and_len_read_the_arena() {
    let doc = sample();
    assert_eq!(doc.len(), 5);
    assert_eq!(doc.nth(3).data(), &Data::Text(s("c")));
    assert_eq!(Document::new().len(), 0);
}

#[test]
fn well_formed_arenas_are_recognised() {
    assert!(sample().is_well_formed());
    assert!(Document::new().is_well_formed());
    let two_roots = Document {
        nodes: vec![raw(0, None, None, None, Data::Text(s("x"))), raw(1, None, None, None, Data::Comment(s("y")))],
    };
    assert!(two_roots.is_well_formed());
}

#[test]
fn malformed_arenas_are_rejected() {
    let mut wrong_index = sample();
    wrong_index.nodes[3].index = 2;
    assert!(!wrong_index.is_well_formed());

    let mut unlisted = sample();
    unlisted.nodes[2].data = Data::Element(s("b"), vec![], vec![]);
    assert!(!unlisted.is_well_formed());

    let mut bad_sibling = sample();
    bad_sibling.nodes[4].prev = Some(1);
    assert!(!bad_sibling.is_well_formed());

    let mut root_sibling = sample();
    root_sibling.nodes[0].next = Some(1);
    assert!(!root_sibling.is_well_formed());

    let mut text_parent = sample();
    text_parent.nodes[3].parent = Some(1);
    assert!(!text_parent.is_well_formed());

    let mut same_key = sample();
    same_key.nodes[0].data =
        Data::Element(s("div"), vec![(s("id"), s("a")), (s("id"), s("b"))], vec![1, 2, 4]);
    assert!(!same_key.is_well_formed());

    let mut twice = sample();
    twice.nodes[2].data = Data::Element(s("b"), vec![], vec![3, 3]);
    assert!(!twice.is_well_formed());

    let self_sibling = Document { nodes: vec![raw(0, None, Some(0), Some(0), Data::Text(s("x")))] };
    assert!(!self_sibling.is_well_formed());

    let ring = Document {
        nodes: vec![
            raw(0, None, Some(1), Some(1), Data::Text(s("x"))),
            raw(1, None, Some(0), Some(0), Data::Text(s("y"))),
        ],
    };
    assert!(!ring.is_well_formed());

    let backwards = Document {
        nodes: vec![
            raw(0, Some(1), None, None, Data::Text(s("t"))),
            raw(1, None, None, None, Data::Element(s("p"), vec![], vec![0])),
        ],
    };
    assert!(!backwards.is_well_formed());
}

#[test]
fn is_agrees_with_a_predicate_called_directly() {
    let doc = sample();
    for i in 0..doc.len() {
        let n = doc.nth(i);
        assert_eq!(n.is(Name("b")), Name("b").matches(&n));
        assert_eq!(n.is(Text), Text.matches(&n));
        assert_eq!(n.is(Comment), Comment.matches(&n));
        assert_eq!(n.is(Element), Element.matches(&n));
    }
}

#[test]
fn linked_roots_are_cursors_too() {
    let doc = Document {
        nodes: vec![
            raw(0, None, None, Some(1), Data::Element(s("div"), vec![], vec![])),
            raw(1, None, Some(0), None, Data::Text(s("x"))),
        ],
    };
    assert!(doc.is_well_formed());
    assert_eq!(Node::new(&doc, 0).name(), Some("div"));
    assert_eq!(Node::new(&doc, 1).name(), None);
    assert_eq!(doc.nth(0).next().map(|n| n.index()), Some(1));
    assert_eq!(doc.nth(1).prev().map(|n| n.index()), Some(0));
    assert!(doc.nth(0).prev().is_none());
    assert!(doc.nth(1).next().is_none());
    assert!(doc.nth(1).parent().is_none());

    let mut one_way = Document { nodes: doc.nodes.clone() };
    one_way.nodes[1].prev = None;
    assert!(!one_way.is_well_formed());

    let mut to_child = sample();
    to_child.nodes[0].next = Some(1);
    assert!(!to_child.is_well_formed());
}

#[test]
fn find_from_a_node_equals_find_from_its_one_node_selection() {
    let doc = sample();
    for i in 0..doc.len() {
        let n = doc.nth(i);
        let one = Selection::new(&doc, vec![n.index()]);
        assert_eq!(one.indices(), &[i]);
        assert_eq!(n.find(Any).indices(), one.find(Any).indices());
        assert_eq!(n.find(Text).indices(), one.find(Text).indices());
        assert_eq!(n.find(Name("b")).indices(), one.find(Name("b")).indices());
    }
}
