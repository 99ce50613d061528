use inference_engine::parser::parser;
use inference_engine::engine::backward::backward_chain;
use inference_engine::types::{ProofTree, Term};
use inference_engine::visualize::{compute_layout, node_lines, node_size, proof_tree_layout, subtree_height, subtree_width};

fn atom(s: &str) -> Term {
    Term::Atom(s.to_string())
}

fn compound(f: &str, args: Vec<Term>) -> Term {
    Term::Compound { functor: f.to_string(), args }
}

fn mammal_tree() -> ProofTree {
    let kb = parser::parse("animal(chat). a_fourrure(chat). mammifere(X) :- animal(X), a_fourrure(X).");
    backward_chain(&compound("mammifere", vec![atom("chat")]), &kb).unwrap()
}

#[test]
fn layout_node_lines() {
    let leaf = ProofTree { goal: compound("animal", vec![atom("chat")]), subgoals: vec![], rule_used: None };
    assert_eq!(node_lines(&leaf), vec!["animal(chat)".to_string(), "[fact]".to_string()]);
    let tree = mammal_tree();
    assert_eq!(
        node_lines(&tree),
        vec!["mammifere(chat)".to_string(), "[mammifere(X) :- animal(X), a_fourrure(X).]".to_string()]
    );
}

#[test]
fn layout_node_size() {
    let lines = vec!["animal(chat)".to_string(), "[fact]".to_string()];
    assert_eq!(node_size(&lines), (132, 52));
    let lines = vec!["é".to_string()];
    assert_eq!(node_size(&lines), (42, 34));
}

#[test]
fn layout_of_leaf() {
    let leaf = ProofTree { goal: compound("animal", vec![atom("chat")]), subgoals: vec![], rule_used: None };
    let l = compute_layout(&leaf);
    assert_eq!((l.x, l.y, l.width, l.height), (0, 0, 132, 52));
    assert!(l.children.is_empty());
    assert_eq!(subtree_width(&l), 132);
    assert_eq!(subtree_height(&l), 52);
}

#[test]
fn layout_centres_children_under_wide_parent() {
    let l = compute_layout(&mammal_tree());
    assert_eq!((l.x, l.width, l.height), (0, 411, 52));
    assert_eq!(l.children.len(), 2);
    assert_eq!((l.children[0].x, l.children[0].width), (43, 132));
    assert_eq!((l.children[1].x, l.children[1].width), (199, 168));
    assert_eq!(subtree_width(&l), 411);
    assert_eq!(subtree_height(&l), 152);
}

#[test]
fn layout_centres_narrow_parent_over_children() {
    let kb = parser::parse("long_name_one(a). long_name_two(a). p(X) :- long_name_one(X), long_name_two(X).");
    let tree = backward_chain(&compound("p", vec![atom("a")]), &kb).unwrap();
    let l = compute_layout(&tree);
    // Children: 16 bytes each, boxes of 168; side by side 168 + 24 + 168 = 360.
    // Parent: its rule line has 45 bytes, box of 429: wider, so children are centred.
    assert_eq!(l.width, 429);
    assert_eq!(l.children[0].x, 34);
    assert_eq!(l.children[1].x, 226);
}

#[test]
fn layout_with_picture_size() {
    let (l, w, h) = proof_tree_layout(&mammal_tree()).unwrap();
    assert_eq!(l.width, 411);
    assert_eq!(w, 451);
    assert_eq!(h, 192);
}
