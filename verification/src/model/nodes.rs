//! The three kinds of attack step, and the tree they form.

use crate::model::assessment::{
    AssessmentModel, FeasibilityAssessment, FeasibilityCriteria, TreeError,
};
use crate::model::feasible_step::{
    cheapest, feasibilities, lemma_first_minimum, mismatch, most_demanding, render, successes,
    unassessed, FeasibleStep, StepKind, StepModel,
};
use std::rc::Rc;
use vstd::pervasive::unreached;
use vstd::prelude::*;

verus! {

/// A concrete attack step with an assessment of its own.
pub struct Leaf {
    pub id: u32,
    pub description: String,
    pub parent: Option<u32>,
    pub criteria: FeasibilityAssessment,
}

/// A step that is achieved by any one of its children.
pub struct OrNode {
    pub id: u32,
    pub description: String,
    pub parent: Option<u32>,
    pub children: Vec<Step>,
}

/// A step that is achieved by all of its children together.
pub struct AndNode {
    pub id: u32,
    pub description: String,
    pub parent: Option<u32>,
    pub children: Vec<Step>,
}

/// An attack step of any kind; a tree of steps is the step at its root.
pub enum Step {
    Leaf(Leaf),
    And(AndNode),
    Or(OrNode),
}

/// The models of `steps`, in order.
pub open spec fn step_models(steps: Seq<Step>) -> Seq<StepModel>
    decreases steps,
{
    Seq::new(
        steps.len(),
        |i: int|
            if 0 <= i < steps.len() {
                step_model(steps[i])
            } else {
                arbitrary()
            },
    )
}

/// The model of a step.
pub open spec fn step_model(step: Step) -> StepModel
    decreases step,
{
    match step {
        Step::Leaf(leaf) => StepModel {
            kind: StepKind::Leaf,
            id: leaf.id,
            title: leaf.description@,
            parent: leaf.parent,
            children: Seq::empty(),
            criteria: leaf.criteria@,
        },
        Step::And(node) => StepModel {
            kind: StepKind::And,
            id: node.id,
            title: node.description@,
            parent: node.parent,
            children: step_models(node.children@),
            criteria: unassessed(),
        },
        Step::Or(node) => StepModel {
            kind: StepKind::Or,
            id: node.id,
            title: node.description@,
            parent: node.parent,
            children: step_models(node.children@),
            criteria: unassessed(),
        },
    }
}

impl View for Step {
    type V = StepModel;

    open spec fn view(&self) -> StepModel {
        step_model(*self)
    }
}

impl View for Leaf {
    type V = StepModel;

    open spec fn view(&self) -> StepModel {
        step_model(Step::Leaf(*self))
    }
}

impl View for AndNode {
    type V = StepModel;

    open spec fn view(&self) -> StepModel {
        step_model(Step::And(*self))
    }
}

impl View for OrNode {
    type V = StepModel;

    open spec fn view(&self) -> StepModel {
        step_model(Step::Or(*self))
    }
}

/// Hands out the identifier that `counter` holds and advances the counter by one,
/// starting over after the greatest.
pub fn generate_id(counter: &mut u32) -> (id: u32)
    ensures
        id == *old(counter),
        *final(counter) == if *old(counter) == u32::MAX {
            0
        } else {
            *old(counter) + 1
        },
{
    let id: u32 = *counter;
    *counter = if id == u32::MAX {
        0
    } else {
        id + 1
    };
    id
}


/// Copies each of `steps`.
fn duplicate_all(steps: &Vec<Step>) -> (r: Vec<Step>)
    ensures
        step_models(r@) == step_models(steps@),
    decreases steps,
{
    let mut r: Vec<Step> = Vec::new();
    let mut i: usize = 0;
    while i < steps.len()
        invariant
            i <= steps.len(),
            r@.len() == i,
            forall|k: int| 0 <= k < i ==> step_model(#[trigger] r@[k]) == step_model(steps@[k]),
        decreases steps.len() - i,
    {
        r.push(steps[i].duplicate());
        i += 1;
    }
    assert(step_models(r@) =~= step_models(steps@));
    r
}

impl Step {
    /// A copy of the step and of all that is below it.
    pub fn duplicate(&self) -> (r: Step)
        ensures
            r@ == self@,
        decreases self,
    {
        match self {
            Step::Leaf(leaf) => Step::Leaf(
                Leaf {
                    id: leaf.id,
                    description: leaf.description.clone(),
                    parent: leaf.parent,
                    criteria: leaf.criteria.duplicate(),
                },
            ),
            Step::And(node) => Step::And(
                AndNode {
                    id: node.id,
                    description: node.description.clone(),
                    parent: node.parent,
                    children: duplicate_all(&node.children),
                },
            ),
            Step::Or(node) => Step::Or(
                OrNode {
                    id: node.id,
                    description: node.description.clone(),
                    parent: node.parent,
                    children: duplicate_all(&node.children),
                },
            ),
        }
    }
}

impl OrNode {
    /// An OR step without children, with the identifier that `id_gen` hands out.
    pub fn new<F>(title: &str, parent: Option<u32>, id_gen: F) -> (r: OrNode) where F: Fn() -> u32
        requires
            id_gen.requires(()),
        ensures
            id_gen.ensures((), r.id),
            r@ == (StepModel {
                kind: StepKind::Or,
                id: r.id,
                title: title@,
                parent,
                children: Seq::empty(),
                criteria: unassessed(),
            }),
    {
        let r = OrNode { id: id_gen(), description: title.to_owned(), parent, children: Vec::new() };
        assert(r@.children =~= Seq::empty());
        r
    }
}

impl FeasibleStep for OrNode {
    fn id(&self) -> (r: u32) {
        self.id
    }

    /// The assessment of least sum among those of the children, the first of them
    /// where several share that sum. Children without a feasibility are passed
    /// over; the step fails where that leaves none.
    fn feasibility(&self) -> (r: Result<FeasibilityAssessment, TreeError>)
        decreases self,
    {
        let ghost results = feasibilities(self@.children);
        let mut best: Option<FeasibilityAssessment> = None;
        let mut best_sum: u128 = 0;
        let mut i: usize = 0;
        while i < self.children.len()
            invariant
                i <= self.children.len(),
                results == feasibilities(self@.children),
                results.len() == self.children.len(),
                cheapest(successes(results.take(i as int))) == match best {
                    Some(b) => Ok(b@),
                    None => mismatch(),
                },
                best matches Some(b) ==> best_sum == b@.sum(),
            decreases self.children.len() - i,
        {
            let ghost found = successes(results.take(i as int));
            proof {
                assert(results.take(i + 1).drop_last() =~= results.take(i as int));
                assert(results[i as int] == self.children@[i as int]@.feasibility());
            }
            match self.children[i].feasibility() {
                Ok(f) => {
                    let sum = f.exact_sum();
                    proof {
                        assert(found.push(f@).drop_last() =~= found);
                        if found.len() > 0 {
                            lemma_first_minimum(found);
                        }
                    }
                    if best.is_none() || sum < best_sum {
                        best = Some(f);
                        best_sum = sum;
                    }
                },
                Err(_) => {},
            }
            i += 1;
        }
        assert(results.take(i as int) =~= results);
        match best {
            Some(b) => Ok(b),
            None => Err(TreeError::AssessmentVectorMismatch),
        }
    }

    fn title(&self) -> (r: &str) {
        self.description.as_str()
    }

    fn add_child(&mut self, child: Step) {
        self.children.push(child);
        assert(final(self)@.children =~= old(self)@.children.push(child@));
    }

    fn get_parent(&self) -> (r: Option<u32>) {
        self.parent
    }

    fn render(&self) -> (r: String) {
        render(self.title(), self.feasibility(), " shape=invtrapezium")
    }

    fn get_children(&self) -> (r: Vec<Step>) {
        duplicate_all(&self.children)
    }
}

impl AndNode {
    /// An AND step without children, with the identifier that `id_gen` hands out.
    pub fn new<F>(title: &str, parent: Option<u32>, id_gen: F) -> (r: AndNode) where F: Fn() -> u32
        requires
            id_gen.requires(()),
        ensures
            id_gen.ensures((), r.id),
            r@ == (StepModel {
                kind: StepKind::And,
                id: r.id,
                title: title@,
                parent,
                children: Seq::empty(),
                criteria: unassessed(),
            }),
    {
        let r = AndNode {
            id: id_gen(),
            description: title.to_owned(),
            parent,
            children: Vec::new(),
        };
        assert(r@.children =~= Seq::empty());
        r
    }
}

impl FeasibleStep for AndNode {
    fn id(&self) -> (r: u32) {
        self.id
    }

    /// The assessments of the children, combined from left to right by
    /// component-wise maximum. Children without a feasibility are passed over;
    /// the step fails where that leaves none, or where two of the assessments
    /// differ in length.
    fn feasibility(&self) -> (r: Result<FeasibilityAssessment, TreeError>)
        decreases self,
    {
        let ghost results = feasibilities(self@.children);
        let mut maximum: Option<FeasibilityAssessment> = None;
        let mut count: usize = 0;
        let mut i: usize = 0;
        while i < self.children.len()
            invariant
                i <= self.children.len(),
                count <= i,
                results == feasibilities(self@.children),
                results.len() == self.children.len(),
                count == successes(results.take(i as int)).len(),
                most_demanding(successes(results.take(i as int))) == match maximum {
                    Some(m) => Ok(m@),
                    None => mismatch(),
                },
            decreases self.children.len() - i,
        {
            let ghost found = successes(results.take(i as int));
            proof {
                assert(results.take(i + 1).drop_last() =~= results.take(i as int));
                assert(results[i as int] == self.children@[i as int]@.feasibility());
            }
            match self.children[i].feasibility() {
                Ok(f) => {
                    proof {
                        assert(found.push(f@).drop_last() =~= found);
                    }
                    maximum = if count == 0 {
                        Some(f)
                    } else {
                        match maximum {
                            Some(m) => match m.component_wise_max(&f) {
                                Ok(combined) => Some(combined),
                                Err(_) => None,
                            },
                            None => None,
                        }
                    };
                    count += 1;
                },
                Err(_) => {},
            }
            i += 1;
        }
        assert(results.take(i as int) =~= results);
        match maximum {
            Some(m) => Ok(m),
            None => Err(TreeError::AssessmentVectorMismatch),
        }
    }

    fn title(&self) -> (r: &str) {
        self.description.as_str()
    }

    fn add_child(&mut self, child: Step) {
        self.children.push(child);
        assert(final(self)@.children =~= old(self)@.children.push(child@));
    }

    fn get_parent(&self) -> (r: Option<u32>) {
        self.parent
    }

    fn render(&self) -> (r: String) {
        render(self.title(), self.feasibility(), " shape=trapezium")
    }

    fn get_children(&self) -> (r: Vec<Step>) {
        duplicate_all(&self.children)
    }
}

impl Leaf {
    /// A leaf whose scores are all present, with the identifier that `id_gen`
    /// hands out. There must be one score per criterion.
    pub fn new<F>(
        description: &str,
        parent: Option<u32>,
        definition: &Rc<FeasibilityCriteria>,
        assessment: &[u32],
        id_gen: F,
    ) -> (r: Leaf) where F: Fn() -> u32
        requires
            assessment@.len() == definition@.len(),
            id_gen.requires(()),
        ensures
            id_gen.ensures((), r.id),
            r@ == (StepModel {
                kind: StepKind::Leaf,
                id: r.id,
                title: description@,
                parent,
                children: Seq::empty(),
                criteria: AssessmentModel {
                    definition: definition@,
                    values: Seq::new(assessment@.len(), |i: int| Some(assessment@[i])),
                },
            }),
    {
        let mut assessments: Vec<Option<u32>> = Vec::new();
        let mut i: usize = 0;
        while i < assessment.len()
            invariant
                i <= assessment.len(),
                assessments@.len() == i,
                forall|k: int| 0 <= k < i ==> assessments@[k] == Some(assessment@[k]),
            decreases assessment.len() - i,
        {
            assessments.push(Some(assessment[i]));
            i += 1;
        }
        assert(assessments@ =~= Seq::new(assessment@.len(), |i: int| Some(assessment@[i])));
        match FeasibilityAssessment::new(definition, assessments.as_slice()) {
            Ok(criteria) => Leaf {
                id: id_gen(),
                description: description.to_owned(),
                parent,
                criteria,
            },
            Err(_) => unreached(),
        }
    }
}

impl FeasibleStep for Leaf {
    fn id(&self) -> (r: u32) {
        self.id
    }

    /// The leaf's own assessment, checked once more against its criteria.
    fn feasibility(&self) -> (r: Result<FeasibilityAssessment, TreeError>)
        ensures
            r is Ok,
    {
        FeasibilityAssessment::new(
            self.criteria.definition(),
            self.criteria.assessments().as_slice(),
        )
    }

    fn title(&self) -> (r: &str) {
        self.description.as_str()
    }

    /// A leaf takes no children: nothing may call this.
    fn add_child(&mut self, _child: Step) {
        unreached()
    }

    fn get_parent(&self) -> (r: Option<u32>) {
        self.parent
    }

    fn render(&self) -> (r: String) {
        render(self.title(), self.feasibility(), "")
    }

    fn get_children(&self) -> (r: Vec<Step>) {
        let r: Vec<Step> = Vec::new();
        assert(step_models(r@) =~= self@.children);
        r
    }
}

impl FeasibleStep for Step {
    fn id(&self) -> (r: u32) {
        match self {
            Step::Leaf(leaf) => leaf.id(),
            Step::And(node) => node.id(),
            Step::Or(node) => node.id(),
        }
    }

    fn feasibility(&self) -> (r: Result<FeasibilityAssessment, TreeError>)
        decreases self,
    {
        match self {
            Step::Leaf(leaf) => leaf.feasibility(),
            Step::And(node) => node.feasibility(),
            Step::Or(node) => node.feasibility(),
        }
    }

    fn title(&self) -> (r: &str) {
        match self {
            Step::Leaf(leaf) => leaf.title(),
            Step::And(node) => node.title(),
            Step::Or(node) => node.title(),
        }
    }

    fn add_child(&mut self, child: Step) {
        match self {
            Step::Leaf(_) => unreached(),
            Step::And(node) => node.add_child(child),
            Step::Or(node) => node.add_child(child),
        }
    }

    fn get_parent(&self) -> (r: Option<u32>) {
        match self {
            Step::Leaf(leaf) => leaf.get_parent(),
            Step::And(node) => node.get_parent(),
            Step::Or(node) => node.get_parent(),
        }
    }

    fn render(&self) -> (r: String) {
        match self {
            Step::Leaf(leaf) => leaf.render(),
            Step::And(node) => node.render(),
            Step::Or(node) => node.render(),
        }
    }

    fn get_children(&self) -> (r: Vec<Step>) {
        match self {
            Step::Leaf(leaf) => leaf.get_children(),
            Step::And(node) => node.get_children(),
            Step::Or(node) => node.get_children(),
        }
    }
}

} // verus!
