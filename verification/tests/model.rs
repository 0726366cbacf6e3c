use std::rc::Rc;

use att::model::{
    generate_id, AndNode, FeasibilityAssessment, FeasibilityCriteria, FeasibleStep,
    FeasiblityCriterion, Leaf, OrNode, Step, TreeError,
};

fn build_criteria(names: &[&str]) -> Rc<FeasibilityCriteria> {
    Rc::new(FeasibilityCriteria(
        names
            .iter()
            .map(|n| FeasiblityCriterion {
                name: n.to_string(),
                id: n.to_string(),
            })
            .collect(),
    ))
}

fn build_feasibility(
    definition: &Rc<FeasibilityCriteria>,
    assessments: &[u32],
) -> FeasibilityAssessment {
    let assessment_options: Vec<Option<u32>> = assessments.iter().map(|a| Some(*a)).collect();
    FeasibilityAssessment::new(definition, &assessment_options).unwrap()
}

fn build_leaf(counter: &mut u32, criteria: &Rc<FeasibilityCriteria>, assessment: &[u32]) -> Leaf {
    let feasibility = build_feasibility(criteria, assessment);

    Leaf {
        id: generate_id(counter),
        description: "Attack step".to_string(),
        parent: None,
        criteria: feasibility,
    }
}

fn build_and_node(children: Vec<Step>, counter: &mut u32) -> Step {
    Step::And(AndNode {
        id: generate_id(counter),
        description: "An and-node".to_string(),
        parent: None,
        children,
    })
}

fn build_or_node(children: Vec<Step>, counter: &mut u32) -> Step {
    Step::Or(OrNode {
        id: generate_id(counter),
        description: "An or-node".to_string(),
        parent: None,
        children,
    })
}

#[test]
fn in_feasibility_assessments_the_vector_must_match_the_definition() {
    let criteria = build_criteria(&["Eq", "Kn"]);

    let error_result =
        FeasibilityAssessment::new(&criteria, &[Some(1), Some(2), Some(3)]).unwrap_err();
    assert_eq!(error_result, TreeError::AssessmentVectorMismatch);
}

#[test]
fn a_leaf_returns_its_feasibility_unmodified() {
    let mut counter = 0;
    let criteria = build_criteria(&["Eq", "Kn"]);
    let leaf = build_leaf(&mut counter, &criteria, &[1, 2]);

    let result = leaf.feasibility().unwrap();

    let expected_feasibility = build_feasibility(&criteria, &[1, 2]);

    assert_eq!(result.assessments(), expected_feasibility.assessments());
}

#[test]
fn an_or_node_without_children_returns_an_error_for_feasibility() {
    let mut counter = 0;
    let node = OrNode {
        id: generate_id(&mut counter),
        description: "An or node".to_string(),
        parent: None,
        children: vec![],
    };

    assert_eq!(
        node.feasibility().unwrap_err(),
        TreeError::AssessmentVectorMismatch
    );
}

#[test]
fn an_or_node_returns_the_minimum_feasibility_of_all_its_child_nodes() {
    let mut counter = 0;
    let criteria = build_criteria(&["Eq", "Kn"]);

    let node = OrNode {
        id: generate_id(&mut counter),
        description: "An or-node".to_string(),
        parent: None,
        children: vec![
            Step::Leaf(build_leaf(&mut counter, &criteria, &[0, 50])),
            Step::Leaf(build_leaf(&mut counter, &criteria, &[1, 49])),
            Step::Leaf(build_leaf(&mut counter, &criteria, &[2, 3])),
        ],
    };

    let expected_assessment = build_feasibility(&criteria, &[2, 3]);

    assert_eq!(
        node.feasibility().unwrap().assessments(),
        expected_assessment.assessments()
    );
}

#[test]
fn an_or_node_returns_the_sum_of_its_feasibility_as_value() {
    let mut counter = 0;
    let criteria = build_criteria(&["Eq", "Kn"]);

    let node = OrNode {
        id: generate_id(&mut counter),
        description: "An or-node".to_string(),
        parent: None,
        children: vec![
            Step::Leaf(build_leaf(&mut counter, &criteria, &[0, 50])),
            Step::Leaf(build_leaf(&mut counter, &criteria, &[1, 49])),
            Step::Leaf(build_leaf(&mut counter, &criteria, &[2, 3])),
        ],
    };

    assert_eq!(node.feasibility_value(), 2 + 3);
}

#[test]
fn an_and_node_without_children_returns_an_error_for_feasibility() {
    let mut counter = 0;
    let node = AndNode {
        id: generate_id(&mut counter),
        description: "An and-node".to_string(),
        parent: None,
        children: vec![],
    };

    assert_eq!(
        node.feasibility().unwrap_err(),
        TreeError::AssessmentVectorMismatch
    );
}

#[test]
fn an_and_node_without_children_returns_0_as_feasibility_value() {
    let mut counter = 0;
    let node = AndNode {
        id: generate_id(&mut counter),
        description: "An and-node".to_string(),
        parent: None,
        children: vec![],
    };

    assert_eq!(node.feasibility_value(), 0);
}

#[test]
fn an_and_node_returns_a_feasibility_with_maximum_components_of_all_children() {
    let mut counter = 0;
    let criteria = build_criteria(&["Eq", "Kn", "WO"]);

    let node = AndNode {
        id: generate_id(&mut counter),
        description: "An and-node".to_string(),
        parent: None,
        children: vec![
            Step::Leaf(build_leaf(&mut counter, &criteria, &[1, 6, 8])),
            Step::Leaf(build_leaf(&mut counter, &criteria, &[2, 4, 9])),
            Step::Leaf(build_leaf(&mut counter, &criteria, &[3, 5, 7])),
        ],
    };

    let expected_assessment = build_feasibility(&criteria, &[3, 6, 9]);

    assert_eq!(
        node.feasibility().unwrap().assessments(),
        expected_assessment.assessments()
    );
}

#[test]
fn an_and_node_returns_the_sum_of_its_feasibility_as_value() {
    let mut counter = 0;
    let criteria = build_criteria(&["Eq", "Kn", "WO"]);

    let node = AndNode {
        id: generate_id(&mut counter),
        description: "An and-node".to_string(),
        parent: None,
        children: vec![
            Step::Leaf(build_leaf(&mut counter, &criteria, &[1, 6, 8])),
            Step::Leaf(build_leaf(&mut counter, &criteria, &[2, 4, 9])),
            Step::Leaf(build_leaf(&mut counter, &criteria, &[3, 5, 7])),
        ],
    };

    assert_eq!(node.feasibility_value(), 3 + 6 + 9);
}

#[test]
fn a_leaf_returns_the_sum_of_all_assessments_as_feasibility_value() {
    let mut counter = 0;
    let criteria = build_criteria(&["Eq", "Kn"]);
    let leaf = build_leaf(&mut counter, &criteria, &[1, 2]);

    let result = leaf.feasibility_value();

    assert_eq!(result, 3);
}

#[test]
fn the_feasibility_of_a_three_level_tree_is_calculated_correctly() {
    let mut counter = 0;
    let criteria = build_criteria(&["Eq", "Kn"]);

    // 3, 5
    let first = vec![
        Step::Leaf(build_leaf(&mut counter, &criteria, &[1, 5])),
        Step::Leaf(build_leaf(&mut counter, &criteria, &[3, 1])),
    ];
    let first = build_and_node(first, &mut counter);
    // 2, 14
    let second = vec![
        Step::Leaf(build_leaf(&mut counter, &criteria, &[2, 14])),
        Step::Leaf(build_leaf(&mut counter, &criteria, &[20, 1])),
    ];
    let second = build_or_node(second, &mut counter);
    // 3, 14
    let tree = build_and_node(vec![first, second], &mut counter);

    let assessment = tree.feasibility().unwrap();

    let expected_assessment = build_feasibility(&criteria, &[3, 14]);

    assert_eq!(assessment.assessments(), expected_assessment.assessments());

    assert_eq!(tree.feasibility_value(), 3 + 14);
}

#[test]
fn an_assessment_is_built_exactly_when_the_lengths_agree() {
    let criteria = build_criteria(&["Eq", "Kn"]);

    assert!(FeasibilityAssessment::new(&criteria, &[]).is_err());
    assert!(FeasibilityAssessment::new(&criteria, &[Some(1)]).is_err());
    assert!(FeasibilityAssessment::new(&criteria, &[Some(1), None]).is_ok());
    assert!(FeasibilityAssessment::new(&criteria, &[None, None, None]).is_err());
    assert!(FeasibilityAssessment::new(&build_criteria(&[]), &[]).is_ok());
}

#[test]
fn the_sum_counts_absent_entries_as_zero() {
    let criteria = build_criteria(&["Eq", "Kn"]);

    let assessment = FeasibilityAssessment::new(&criteria, &[Some(3), None]).unwrap();
    assert_eq!(assessment.sum(), 3);
    assert_eq!(assessment.exact_sum(), 3);

    let empty = FeasibilityAssessment::new(&criteria, &[None, None]).unwrap();
    assert_eq!(empty.sum(), 0);
}

#[test]
fn the_exact_sum_does_not_overflow() {
    let criteria = build_criteria(&["Eq", "Kn"]);

    let assessment =
        FeasibilityAssessment::new(&criteria, &[Some(u32::MAX), Some(u32::MAX)]).unwrap();
    assert_eq!(assessment.exact_sum(), 2 * (u32::MAX as u128));
}

#[test]
fn the_component_wise_maximum_is_the_same_in_either_order() {
    let criteria = build_criteria(&["Eq", "Kn", "WO"]);

    let a = FeasibilityAssessment::new(&criteria, &[Some(1), None, Some(8)]).unwrap();
    let b = FeasibilityAssessment::new(&criteria, &[None, Some(4), Some(9)]).unwrap();

    let ab = a.component_wise_max(&b).unwrap();
    let ba = b.component_wise_max(&a).unwrap();

    assert_eq!(ab.assessments(), &vec![Some(1), Some(4), Some(9)]);
    assert_eq!(ab.assessments(), ba.assessments());
    assert_eq!(ab.assessments().len(), 3);
}

#[test]
fn the_component_wise_maximum_has_no_absent_entry() {
    let criteria = build_criteria(&["Eq", "Kn"]);

    let a = FeasibilityAssessment::new(&criteria, &[None, None]).unwrap();
    let b = FeasibilityAssessment::new(&criteria, &[None, Some(2)]).unwrap();

    assert_eq!(
        a.component_wise_max(&b).unwrap().assessments(),
        &vec![Some(0), Some(2)]
    );
}

#[test]
fn the_component_wise_maximum_fails_on_different_lengths() {
    let a = build_feasibility(&build_criteria(&["Eq", "Kn"]), &[1, 2]);
    let b = build_feasibility(&build_criteria(&["Eq", "Kn", "WO"]), &[1, 2, 3]);

    assert_eq!(
        a.component_wise_max(&b).unwrap_err(),
        TreeError::AssessmentVectorMismatch
    );
    assert_eq!(
        b.component_wise_max(&a).unwrap_err(),
        TreeError::AssessmentVectorMismatch
    );
}

#[test]
fn an_or_node_takes_the_first_of_several_cheapest_children() {
    let mut counter = 0;
    let criteria = build_criteria(&["Eq", "Kn"]);

    let node = OrNode {
        id: generate_id(&mut counter),
        description: "An or-node".to_string(),
        parent: None,
        children: vec![
            Step::Leaf(build_leaf(&mut counter, &criteria, &[4, 4])),
            Step::Leaf(build_leaf(&mut counter, &criteria, &[1, 2])),
            Step::Leaf(build_leaf(&mut counter, &criteria, &[2, 1])),
            Step::Leaf(build_leaf(&mut counter, &criteria, &[0, 3])),
        ],
    };

    assert_eq!(
        node.feasibility().unwrap().assessments(),
        &vec![Some(1), Some(2)]
    );
}

#[test]
fn an_or_node_passes_over_children_without_feasibility() {
    let mut counter = 0;
    let criteria = build_criteria(&["Eq", "Kn"]);

    let empty = build_and_node(vec![], &mut counter);
    let node = build_or_node(
        vec![
            empty,
            Step::Leaf(build_leaf(&mut counter, &criteria, &[7, 1])),
        ],
        &mut counter,
    );

    assert_eq!(
        node.feasibility().unwrap().assessments(),
        &vec![Some(7), Some(1)]
    );
    assert_eq!(node.feasibility_value(), 8);
}

#[test]
fn an_or_node_fails_when_no_child_has_a_feasibility() {
    let mut counter = 0;

    let first = build_and_node(vec![], &mut counter);
    let second = build_or_node(vec![], &mut counter);
    let node = build_or_node(vec![first, second], &mut counter);

    assert_eq!(
        node.feasibility().unwrap_err(),
        TreeError::AssessmentVectorMismatch
    );
    assert_eq!(node.feasibility_value(), 0);
}

#[test]
fn an_and_node_passes_over_children_without_feasibility() {
    let mut counter = 0;
    let criteria = build_criteria(&["Eq", "Kn"]);

    let empty = build_or_node(vec![], &mut counter);
    let node = build_and_node(
        vec![
            Step::Leaf(build_leaf(&mut counter, &criteria, &[7, 1])),
            empty,
            Step::Leaf(build_leaf(&mut counter, &criteria, &[2, 5])),
        ],
        &mut counter,
    );

    assert_eq!(
        node.feasibility().unwrap().assessments(),
        &vec![Some(7), Some(5)]
    );
}

#[test]
fn an_and_node_fails_when_every_child_fails() {
    let mut counter = 0;

    let child = build_or_node(vec![], &mut counter);
    let node = build_and_node(vec![child], &mut counter);

    assert_eq!(
        node.feasibility().unwrap_err(),
        TreeError::AssessmentVectorMismatch
    );
}

#[test]
fn an_and_node_with_one_child_keeps_absent_entries() {
    let mut counter = 0;
    let criteria = build_criteria(&["Eq", "Kn"]);

    let leaf = Leaf {
        id: generate_id(&mut counter),
        description: "Attack step".to_string(),
        parent: None,
        criteria: FeasibilityAssessment::new(&criteria, &[Some(3), None]).unwrap(),
    };
    let node = build_and_node(vec![Step::Leaf(leaf)], &mut counter);

    assert_eq!(
        node.feasibility().unwrap().assessments(),
        &vec![Some(3), None]
    );
}

#[test]
fn an_and_node_fails_on_children_of_different_lengths() {
    let mut counter = 0;

    let node = build_and_node(
        vec![
            Step::Leaf(build_leaf(&mut counter, &build_criteria(&["Eq", "Kn"]), &[1, 2])),
            Step::Leaf(build_leaf(&mut counter, &build_criteria(&["Eq"]), &[1])),
        ],
        &mut counter,
    );

    assert_eq!(
        node.feasibility().unwrap_err(),
        TreeError::AssessmentVectorMismatch
    );
}

#[test]
fn feasibility_is_the_same_when_asked_twice() {
    let mut counter = 0;
    let criteria = build_criteria(&["Eq", "Kn"]);

    let node = build_or_node(
        vec![
            Step::Leaf(build_leaf(&mut counter, &criteria, &[5, 5])),
            Step::Leaf(build_leaf(&mut counter, &criteria, &[1, 2])),
        ],
        &mut counter,
    );

    let first = node.feasibility().unwrap();
    let second = node.feasibility().unwrap();
    assert_eq!(first.assessments(), second.assessments());
    assert_eq!(node.id(), node.id());
    assert_eq!(node.feasibility_value(), node.feasibility_value());
}

#[test]
fn identifiers_are_handed_out_in_order() {
    let mut counter = 0;
    assert_eq!(generate_id(&mut counter), 0);
    assert_eq!(generate_id(&mut counter), 1);
    assert_eq!(generate_id(&mut counter), 2);
    assert_eq!(counter, 3);

    let mut last = u32::MAX;
    assert_eq!(generate_id(&mut last), u32::MAX);
    assert_eq!(last, 0);
}

#[test]
fn children_are_appended_in_order() {
    let criteria = build_criteria(&["Eq", "Kn"]);

    let mut root = OrNode::new("Root", None, || 1);
    root.add_child(Step::Leaf(Leaf::new("A", Some(1), &criteria, &[1, 1], || 2)));
    root.add_child(Step::And(AndNode::new("B", Some(1), || 3)));
    root.add_child(Step::Leaf(Leaf::new("C", Some(1), &criteria, &[0, 0], || 4)));

    let children = root.get_children();
    let titles: Vec<&str> = children.iter().map(|c| c.title()).collect();
    assert_eq!(titles, vec!["A", "B", "C"]);
    let ids: Vec<u32> = children.iter().map(|c| c.id()).collect();
    assert_eq!(ids, vec![2, 3, 4]);
    for c in &children {
        assert_eq!(c.get_parent(), Some(root.id()));
    }
    assert_eq!(root.get_parent(), None);
    assert_eq!(root.title(), "Root");
}

#[test]
fn a_leaf_has_no_children() {
    let criteria = build_criteria(&["Eq", "Kn"]);
    let leaf = Leaf::new("A", None, &criteria, &[1, 1], || 2);

    assert!(leaf.get_children().is_empty());
}

#[test]
fn a_copy_of_a_step_holds_the_whole_tree() {
    let mut counter = 0;
    let criteria = build_criteria(&["Eq", "Kn"]);

    let inner = build_or_node(
        vec![Step::Leaf(build_leaf(&mut counter, &criteria, &[5, 5]))],
        &mut counter,
    );
    let tree = build_and_node(
        vec![inner, Step::Leaf(build_leaf(&mut counter, &criteria, &[1, 7]))],
        &mut counter,
    );

    let copy = tree.duplicate();
    assert_eq!(copy.id(), tree.id());
    assert_eq!(copy.title(), tree.title());
    assert_eq!(copy.get_children().len(), 2);
    assert_eq!(copy.get_children()[0].get_children().len(), 1);
    assert_eq!(copy.feasibility_value(), 5 + 7);
}

#[test]
fn a_label_holds_title_value_and_scores() {
    let criteria = Rc::new(FeasibilityCriteria(vec![
        FeasiblityCriterion {
            name: "Knowledge".to_string(),
            id: "Kn".to_string(),
        },
        FeasiblityCriterion {
            name: "Equipment".to_string(),
            id: "Eq".to_string(),
        },
    ]));
    let leaf = Leaf {
        id: 7,
        description: "Pick lock".to_string(),
        parent: None,
        criteria: FeasibilityAssessment::new(&criteria, &[Some(12), None]).unwrap(),
    };

    assert_eq!(leaf.render(), "label=\"Pick lock\\n12\\nKn=12, Eq=0\"");

    let mut and_node = AndNode::new("All", None, || 1);
    assert_eq!(and_node.render(), "label=\"All");
    and_node.add_child(Step::Leaf(leaf));
    assert_eq!(
        and_node.render(),
        "label=\"All\\n12\\nKn=12, Eq=0\" shape=trapezium"
    );

    let or_node = OrNode::new("Any", None, || 2);
    assert_eq!(or_node.render(), "label=\"Any");
}
