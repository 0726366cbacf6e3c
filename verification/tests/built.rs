use std::rc::Rc;

use att::model::{
    AndNode, FeasibilityAssessment, FeasibilityCriteria, FeasibleStep, FeasiblityCriterion, Leaf,
    OrNode, Step, TreeError,
};

fn build_criteria(names: &[&str]) -> Rc<FeasibilityCriteria> {
    Rc::new(FeasibilityCriteria(
        names
            .iter()
            .map(|n| FeasiblityCriterion {
                name: n.to_string(),
                id: n.to_string(),
            })
            .collect(),
    ))
}

fn build_feasibility(
    definition: &Rc<FeasibilityCriteria>,
    assessments: &[u32],
) -> FeasibilityAssessment {
    let assessment_options: Vec<Option<u32>> = assessments.iter().map(|a| Some(*a)).collect();
    FeasibilityAssessment::new(definition, &assessment_options).unwrap()
}

fn build_leaf(criteria: &Rc<FeasibilityCriteria>, assessment: &[u32]) -> Step {
    Step::Leaf(Leaf::new("Attack step", None, criteria, assessment, || 0))
}

fn build_and_node(children: Vec<Step>) -> AndNode {
    let mut node = AndNode::new("An and-node", None, || 0);
    for child in children {
        node.add_child(child);
    }
    node
}

fn build_or_node(children: Vec<Step>) -> OrNode {
    let mut node = OrNode::new("An or-node", None, || 0);
    for child in children {
        node.add_child(child);
    }
    node
}

#[test]
fn mod_in_feasibility_assessments_the_vector_must_match_the_definition() {
    let criteria = build_criteria(&["Eq", "Kn"]);

    let error_result =
        FeasibilityAssessment::new(&criteria, &[Some(1), Some(2), Some(3)]).unwrap_err();
    assert_eq!(error_result, TreeError::AssessmentVectorMismatch);
}

#[test]
fn mod_a_leaf_returns_its_feasibility_unmodified() {
    let criteria = build_criteria(&["Eq", "Kn"]);
    let leaf = build_leaf(&criteria, &[1, 2]);

    let result = leaf.feasibility().unwrap();

    let expected_feasibility = build_feasibility(&criteria, &[1, 2]);

    assert_eq!(result.assessments(), expected_feasibility.assessments());
}

#[test]
fn mod_an_or_node_without_children_returns_an_error_for_feasibility() {
    let node = OrNode::new("An or node", None, || 0);

    assert_eq!(
        node.feasibility().unwrap_err(),
        TreeError::AssessmentVectorMismatch
    );
}

#[test]
fn mod_an_or_node_returns_the_minimum_feasibility_of_all_its_child_nodes() {
    let criteria = build_criteria(&["Eq", "Kn"]);

    let node = build_or_node(vec![
        build_leaf(&criteria, &[0, 50]),
        build_leaf(&criteria, &[1, 49]),
        build_leaf(&criteria, &[2, 3]),
    ]);

    let expected_assessment = build_feasibility(&criteria, &[2, 3]);

    assert_eq!(
        node.feasibility().unwrap().assessments(),
        expected_assessment.assessments()
    );
}

#[test]
fn mod_an_or_node_returns_the_sum_of_its_feasibility_as_value() {
    let criteria = build_criteria(&["Eq", "Kn"]);

    let node = build_or_node(vec![
        build_leaf(&criteria, &[0, 50]),
        build_leaf(&criteria, &[1, 49]),
        build_leaf(&criteria, &[2, 3]),
    ]);

    assert_eq!(node.feasibility_value(), 2 + 3);
}

#[test]
fn mod_an_and_node_without_children_returns_an_error_for_feasibility() {
    let node = AndNode::new("An and-node", None, || 0);

    assert_eq!(
        node.feasibility().unwrap_err(),
        TreeError::AssessmentVectorMismatch
    );
}

#[test]
fn mod_an_and_node_without_children_returns_0_as_feasibility_value() {
    let node = AndNode::new("An and-node", None, || 0);

    assert_eq!(node.feasibility_value(), 0);
}

#[test]
fn mod_an_and_node_returns_a_feasibility_with_maximum_components_of_all_children() {
    let criteria = build_criteria(&["Eq", "Kn", "WO"]);

    let node = build_and_node(vec![
        build_leaf(&criteria, &[1, 6, 8]),
        build_leaf(&criteria, &[2, 4, 9]),
        build_leaf(&criteria, &[3, 5, 7]),
    ]);

    let expected_assessment = build_feasibility(&criteria, &[3, 6, 9]);

    assert_eq!(
        node.feasibility().unwrap().assessments(),
        expected_assessment.assessments()
    );
}

#[test]
fn mod_an_and_node_returns_the_sum_of_its_feasibility_as_value() {
    let criteria = build_criteria(&["Eq", "Kn", "WO"]);

    let node = build_and_node(vec![
        build_leaf(&criteria, &[1, 6, 8]),
        build_leaf(&criteria, &[2, 4, 9]),
        build_leaf(&criteria, &[3, 5, 7]),
    ]);

    assert_eq!(node.feasibility_value(), 3 + 6 + 9);
}

#[test]
fn mod_a_leaf_returns_the_sum_of_all_assessments_as_feasibility_value() {
    let criteria = build_criteria(&["Eq", "Kn"]);
    let leaf = build_leaf(&criteria, &[1, 2]);

    let result = leaf.feasibility_value();

    assert_eq!(result, 3);
}

#[test]
fn mod_the_feasibility_of_a_three_level_tree_is_calculated_correctly() {
    let criteria = build_criteria(&["Eq", "Kn"]);

    // 3, 14
    let tree = build_and_node(vec![
        // 3, 5
        Step::And(build_and_node(vec![
            build_leaf(&criteria, &[1, 5]),
            build_leaf(&criteria, &[3, 1]),
        ])),
        // 2, 14
        Step::Or(build_or_node(vec![
            build_leaf(&criteria, &[2, 14]),
            build_leaf(&criteria, &[20, 1]),
        ])),
    ]);

    let assessment = tree.feasibility().unwrap();

    let expected_assessment = build_feasibility(&criteria, &[3, 14]);

    assert_eq!(assessment.assessments(), expected_assessment.assessments());

    assert_eq!(tree.feasibility_value(), 3 + 14);
}
