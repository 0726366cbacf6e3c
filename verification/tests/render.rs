use std::rc::Rc;

use att::model::{AndNode, FeasibilityCriteria, FeasibleStep, FeasiblityCriterion, Leaf, OrNode, Step};
use att::render::{
    can_render_to_markdown_table, flatten, markdown_table_source, render_to_dot_string,
    render_to_markdown_table,
};

fn build_criteria(names: &[&str]) -> Rc<FeasibilityCriteria> {
    Rc::new(FeasibilityCriteria(
        names
            .iter()
            .map(|n| FeasiblityCriterion {
                name: n.to_string(),
                id: n.to_string(),
            })
            .collect(),
    ))
}

fn build_tree(definition: &Rc<FeasibilityCriteria>) -> Step {
    let mut tree = AndNode::new("Root", None, || 1);

    let mut first_subtree = AndNode::new("First Sub", Some(tree.id()), || 2);
    let leaf1 = Leaf::new("Leaf 1", Some(first_subtree.id()), definition, &[1, 5], || 3);
    let leaf2 = Leaf::new("Leaf 2", Some(first_subtree.id()), definition, &[3, 1], || 4);
    first_subtree.add_child(Step::Leaf(leaf1));
    first_subtree.add_child(Step::Leaf(leaf2));
    tree.add_child(Step::And(first_subtree));

    let mut second_subtree = OrNode::new("Second Sub", Some(tree.id()), || 5);
    let leaf3 = Leaf::new("Leaf 3", Some(second_subtree.id()), definition, &[2, 14], || 6);
    let leaf4 = Leaf::new("Leaf 4", Some(second_subtree.id()), definition, &[20, 1], || 7);
    second_subtree.add_child(Step::Leaf(leaf3));
    second_subtree.add_child(Step::Leaf(leaf4));
    tree.add_child(Step::Or(second_subtree));

    Step::And(tree)
}

#[test]
fn a_single_leaf_can_be_rendered() {
    let definition = build_criteria(&["Kn", "Eq"]);
    let leaf = Step::Leaf(Leaf::new("Step 1", None, &definition, &[15, 5], || 1));

    let result = render_to_dot_string(&leaf).unwrap();

    let expected = r#"digraph G {

node [shape=box]

1 [label="Step 1\n20\nKn=15, Eq=5"]



}"#;

    assert_eq!(result, expected);
}

#[test]
fn an_and_node_with_a_single_leaf_can_be_rendered() {
    let definition = build_criteria(&["Kn", "Eq"]);

    let mut root = AndNode::new("Root", None, || 1);
    let leaf = Step::Leaf(Leaf::new(
        "Step 1",
        Some(root.id()),
        &definition,
        &[15, 5],
        || 2,
    ));
    root.add_child(leaf);

    let result = render_to_dot_string(&Step::And(root)).unwrap();

    let expected = r#"digraph G {

node [shape=box]

1 [label="Root\n20\nKn=15, Eq=5" shape=trapezium]
2 [label="Step 1\n20\nKn=15, Eq=5"]

1 -> 2;

}"#;

    assert_eq!(result, expected);
}

#[test]
fn an_or_node_with_a_single_leaf_can_be_rendered() {
    let definition = build_criteria(&["Kn", "Eq"]);

    let mut root = OrNode::new("Root", None, || 1);
    let leaf = Step::Leaf(Leaf::new(
        "Step 1",
        Some(root.id()),
        &definition,
        &[15, 5],
        || 2,
    ));
    root.add_child(leaf);

    let result = render_to_dot_string(&Step::Or(root)).unwrap();

    let expected = r#"digraph G {

node [shape=box]

1 [label="Root\n20\nKn=15, Eq=5" shape=invtrapezium]
2 [label="Step 1\n20\nKn=15, Eq=5"]

1 -> 2;

}"#;

    assert_eq!(result, expected);
}

#[test]
fn a_multi_level_tree_can_be_rendered() {
    let definition = build_criteria(&["Kn", "Eq"]);

    let tree = build_tree(&definition);

    let result = render_to_dot_string(&tree).unwrap();

    let expected = r#"digraph G {

node [shape=box]

1 [label="Root\n17\nKn=3, Eq=14" shape=trapezium]
2 [label="First Sub\n8\nKn=3, Eq=5" shape=trapezium]
3 [label="Leaf 1\n6\nKn=1, Eq=5"]
4 [label="Leaf 2\n4\nKn=3, Eq=1"]
5 [label="Second Sub\n16\nKn=2, Eq=14" shape=invtrapezium]
6 [label="Leaf 3\n16\nKn=2, Eq=14"]
7 [label="Leaf 4\n21\nKn=20, Eq=1"]

1 -> 2;
2 -> 3;
2 -> 4;
1 -> 5;
5 -> 6;
5 -> 7;

}"#;
    assert_eq!(result, expected);
}

#[test]
fn a_step_without_feasibility_is_rendered_with_its_title_alone() {
    let root = Step::Or(OrNode::new("Root", None, || 10));

    let result = render_to_dot_string(&root).unwrap();

    assert_eq!(
        result,
        "digraph G {\n\nnode [shape=box]\n\n10 [label=\"Root]\n\n\n\n}"
    );
}

#[test]
fn a_tree_is_flattened_parents_first() {
    let definition = build_criteria(&["Kn", "Eq"]);
    let tree = build_tree(&definition);

    let mut flat: Vec<&Step> = Vec::new();
    flatten(&tree, &mut flat);

    let ids: Vec<u32> = flat.iter().map(|s| s.id()).collect();
    assert_eq!(ids, vec![1, 2, 3, 4, 5, 6, 7]);
}

#[test]
fn the_table_has_a_row_for_each_threat() {
    let definition = build_criteria(&["Kn", "Eq"]);
    let tree = build_tree(&definition);
    let empty = Step::And(AndNode::new("Nothing yet", None, || 12));

    let source = markdown_table_source(&vec![&tree, &empty]);

    assert_eq!(
        source,
        "| Threat Id | Threat | Feasbility | Impact | Risk |\n|--|--|--|--|--|\n| 1 | Root | 17 | | |\n| 12 | Nothing yet | 0 | | |\n"
    );
}

#[test]
fn the_table_is_laid_out_in_columns() {
    let definition = build_criteria(&["Kn", "Eq"]);
    let tree = build_tree(&definition);

    let table = render_to_markdown_table(vec![&tree]);

    assert_ne!(
        table,
        "| Threat Id | Threat | Feasbility | Impact | Risk |\n|--|--|--|--|--|\n| 1 | Root | 17 | | |\n"
    );
    let lines: Vec<&str> = table.lines().collect();
    assert_eq!(lines.len(), 3);
    assert_eq!(lines[0], "| Threat Id | Threat | Feasbility | Impact | Risk |");
    assert_eq!(lines[1], "| --------- | ------ | ---------- | ------ | ---- |");
    assert_eq!(lines[2], "| 1         | Root   | 17         |        |      |");
}

#[test]
fn a_table_with_a_carriage_return_cannot_be_laid_out() {
    let plain = Step::Or(OrNode::new("Enter\nhouse | ✅", None, || 1));
    let with_return = Step::Or(OrNode::new("Enter\rhouse", None, || 2));

    assert!(can_render_to_markdown_table(&vec![]));
    assert!(can_render_to_markdown_table(&vec![&plain]));
    assert!(!can_render_to_markdown_table(&vec![&with_return]));
    assert!(!can_render_to_markdown_table(&vec![&plain, &with_return, &plain]));
}

#[test]
fn a_title_may_hold_tables_of_its_own() {
    let first = Step::Or(OrNode::new("x | | |\n\n| a |\n|--|\n| b |", None, || 1));
    let second = Step::Or(OrNode::new("> | c | d |\n> |:-:|--:|\n\n", None, || 2));
    let nodes = vec![&first, &second];

    assert!(can_render_to_markdown_table(&nodes));
    let table = render_to_markdown_table(nodes);

    let lines: Vec<&str> = table.lines().collect();
    assert_eq!(lines[0], "| Threat Id | Threat | Feasbility | Impact | Risk |");
    assert_eq!(lines[1], "| --------- | ------ | ---------- | ------ | ---- |");
    assert_eq!(lines[2], "| 1         | x      |            |        |");
    assert_eq!(lines[3], "");
    assert_eq!(lines[4], "| a   |");
    assert_eq!(lines[5], "| --- |");
}
