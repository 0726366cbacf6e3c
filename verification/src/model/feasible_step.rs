//! What an attack step is, what its feasibility is, and the interface all steps share.

use crate::model::assessment::{
    score, AssessmentModel, CriterionModel, FeasibilityAssessment, TreeError,
};
use crate::model::nodes::{step_models, Step};
use crate::text::{decimal, push_decimal};
use vstd::prelude::*;
use vstd::string::*;

verus! {

/// The three kinds of step.
#[derive(Clone, Copy, Debug, PartialEq, Eq, Structural)]
pub enum StepKind {
    /// A concrete action with an assessment of its own.
    Leaf,
    /// A step that needs all of its children.
    And,
    /// A step that needs any one of its children.
    Or,
}

/// What a step is: its kind and identity, the id of its parent if it has one, its
/// children in order, and its own assessment if it is a leaf.
pub struct StepModel {
    pub kind: StepKind,
    pub id: u32,
    pub title: Seq<char>,
    pub parent: Option<u32>,
    /// Empty for a leaf.
    pub children: Seq<StepModel>,
    /// The assessment of a leaf; `unassessed()` for the other kinds.
    pub criteria: AssessmentModel,
}

/// The assessment that stands in a step that has none of its own.
pub open spec fn unassessed() -> AssessmentModel {
    AssessmentModel { definition: Seq::empty(), values: Seq::empty() }
}

/// The failure that every feasibility computation reports.
pub open spec fn mismatch() -> Result<AssessmentModel, TreeError> {
    Err(TreeError::AssessmentVectorMismatch)
}

/// The feasibility of each of `steps`, in order.
pub open spec fn feasibilities(steps: Seq<StepModel>) -> Seq<Result<AssessmentModel, TreeError>>
    decreases steps,
{
    Seq::new(
        steps.len(),
        |i: int|
            if 0 <= i < steps.len() {
                steps[i].feasibility()
            } else {
                mismatch()
            },
    )
}

/// The assessments among `results`, in order, leaving out the failures.
pub open spec fn successes(results: Seq<Result<AssessmentModel, TreeError>>) -> Seq<
    AssessmentModel,
>
    decreases results.len(),
{
    if results.len() == 0 {
        Seq::empty()
    } else {
        match results.last() {
            Ok(a) => successes(results.drop_last()).push(a),
            Err(_) => successes(results.drop_last()),
        }
    }
}

/// The position of the first assessment whose sum no other undercuts.
pub open spec fn first_minimum(found: Seq<AssessmentModel>) -> int
    decreases found.len(),
{
    if found.len() <= 1 {
        0
    } else {
        let k = first_minimum(found.drop_last());
        if found.last().sum() < found[k].sum() {
            found.len() - 1
        } else {
            k
        }
    }
}

/// `first_minimum` finds an assessment of least sum, and the first of those.
pub proof fn lemma_first_minimum(found: Seq<AssessmentModel>)
    requires
        found.len() > 0,
    ensures
        0 <= first_minimum(found) < found.len(),
        forall|j: int|
            0 <= j < found.len() ==> found[first_minimum(found)].sum() <= (#[trigger] found[j]).sum(),
        forall|j: int|
            0 <= j < first_minimum(found) ==> found[first_minimum(found)].sum() < (
            #[trigger] found[j]).sum(),
    decreases found.len(),
{
    if found.len() > 1 {
        lemma_first_minimum(found.drop_last());
        let k = first_minimum(found.drop_last());
        assert forall|j: int| 0 <= j < found.len() - 1 implies found[j] == found.drop_last()[j] by {}
        assert(found[k] == found.drop_last()[k]);
    }
}

/// What an OR step makes of its children's assessments: the first one of least sum.
pub open spec fn cheapest(found: Seq<AssessmentModel>) -> Result<AssessmentModel, TreeError> {
    if found.len() == 0 {
        mismatch()
    } else {
        Ok(found[first_minimum(found)])
    }
}

/// What an AND step makes of its children's assessments: the first one, combined
/// from left to right with each of the others by component-wise maximum. A single
/// assessment comes back as it is.
pub open spec fn most_demanding(found: Seq<AssessmentModel>) -> Result<AssessmentModel, TreeError>
    decreases found.len(),
{
    if found.len() == 0 {
        mismatch()
    } else if found.len() == 1 {
        Ok(found[0])
    } else {
        match most_demanding(found.drop_last()) {
            Ok(a) => if a.values.len() == found.last().values.len() {
                Ok(a.max_with(found.last()))
            } else {
                mismatch()
            },
            Err(e) => Err(e),
        }
    }
}

/// The text that follows the label of a step of this kind.
pub open spec fn shape(kind: StepKind) -> Seq<char> {
    match kind {
        StepKind::Leaf => ""@,
        StepKind::And => " shape=trapezium"@,
        StepKind::Or => " shape=invtrapezium"@,
    }
}

/// One criterion's id and score, as `id=score`.
pub open spec fn pair_text(criterion: CriterionModel, entry: Option<u32>) -> Seq<char> {
    criterion.id + "="@ + decimal(score(entry) as nat)
}

/// The first `n` pairs of an assessment, separated by `, `.
pub open spec fn pairs_text(a: AssessmentModel, n: nat) -> Seq<char>
    decreases n,
{
    if n == 0 {
        Seq::empty()
    } else if n == 1 {
        pair_text(a.definition[0], a.values[0])
    } else {
        pairs_text(a, (n - 1) as nat) + ", "@ + pair_text(a.definition[n - 1], a.values[n - 1])
    }
}

/// The label of a step with this title and feasibility, followed by `shape`: title,
/// value and the score of each criterion; the title alone, and no shape, where
/// the step has no feasibility.
pub open spec fn label_text(
    title: Seq<char>,
    feasibility: Result<AssessmentModel, TreeError>,
    shape: Seq<char>,
) -> Seq<char> {
    match feasibility {
        Ok(a) => "label=\""@ + title + "\\n"@ + decimal(a.sum()) + "\\n"@ + pairs_text(
            a,
            a.pairs(),
        ) + "\""@ + shape,
        Err(_) => "label=\""@ + title,
    }
}

impl AssessmentModel {
    /// The number of positions that have both a criterion and an entry.
    pub open spec fn pairs(self) -> nat {
        if self.definition.len() <= self.values.len() {
            self.definition.len()
        } else {
            self.values.len()
        }
    }
}

impl StepModel {
    /// The feasibility of a step.
    ///
    /// A leaf has its own assessment, provided that it is aligned with its criteria.
    /// An OR step has the assessment of least sum among those of its children, the
    /// first of them where several share that sum. An AND step has the
    /// component-wise maximum of the assessments of its children. Children whose
    /// own feasibility fails are passed over by both; a composite step fails if
    /// that leaves it nothing, and an AND step also if two of the assessments it
    /// combines differ in length.
    pub open spec fn feasibility(self) -> Result<AssessmentModel, TreeError>
        decreases self,
    {
        match self.kind {
            StepKind::Leaf => if self.criteria.aligned() {
                Ok(self.criteria)
            } else {
                mismatch()
            },
            StepKind::Or => cheapest(successes(feasibilities(self.children))),
            StepKind::And => most_demanding(successes(feasibilities(self.children))),
        }
    }

    /// The scalar value of a step: the sum of its feasibility, or 0 where it has none.
    pub open spec fn feasibility_value(self) -> nat {
        match self.feasibility() {
            Ok(a) => a.sum(),
            Err(_) => 0,
        }
    }

    /// The step with one more child at the end.
    pub open spec fn with_child(self, child: StepModel) -> StepModel {
        StepModel { children: self.children.push(child), ..self }
    }

    /// The label a diagram shows for the step, with the shape of its kind.
    pub open spec fn label(self) -> Seq<char> {
        label_text(self.title, self.feasibility(), shape(self.kind))
    }
}

/// A composite step without children has no feasibility, and the value 0.
pub proof fn lemma_childless_composite_fails(step: StepModel)
    requires
        step.kind != StepKind::Leaf,
        step.children.len() == 0,
    ensures
        step.feasibility() == mismatch(),
        step.feasibility_value() == 0,
{
    assert(feasibilities(step.children) =~= Seq::empty());
}

/// A leaf whose assessment is aligned with its criteria has that assessment as its
/// feasibility, and the sum of its scores as its value.
pub proof fn lemma_leaf_feasibility(step: StepModel)
    requires
        step.kind == StepKind::Leaf,
        step.criteria.aligned(),
    ensures
        step.feasibility() == Ok::<AssessmentModel, TreeError>(step.criteria),
        step.feasibility_value() == step.criteria.sum(),
{
}

/// The feasibility of an OR step is that of one of its children, and no child's
/// feasibility has a smaller sum.
pub proof fn lemma_or_feasibility_is_least(step: StepModel)
    requires
        step.kind == StepKind::Or,
        step.feasibility() is Ok,
    ensures
        exists|k: int|
            0 <= k < step.children.len() && (#[trigger] step.children[k]).feasibility()
                == step.feasibility(),
        forall|k: int|
            0 <= k < step.children.len() && (#[trigger] step.children[k]).feasibility() is Ok
                ==> step.feasibility()->Ok_0.sum() <= step.children[k].feasibility()->Ok_0.sum(),
{
    let results = feasibilities(step.children);
    let found = successes(results);
    lemma_successes(results);
    lemma_first_minimum(found);
    let best = found[first_minimum(found)];
    let k = choose|k: int| 0 <= k < results.len() && results[k] == Ok::<AssessmentModel, TreeError>(best);
    assert(step.children[k].feasibility() == step.feasibility());
    assert forall|j: int|
        0 <= j < step.children.len() && (#[trigger] step.children[j]).feasibility() is Ok implies best.sum()
        <= step.children[j].feasibility()->Ok_0.sum() by {
        assert(results[j] is Ok);
        let i = choose|i: int| 0 <= i < found.len() && found[i] == results[j]->Ok_0;
        assert(best.sum() <= found[i].sum());
    }
}

/// The successes are exactly the assessments among the results.
pub proof fn lemma_successes(results: Seq<Result<AssessmentModel, TreeError>>)
    ensures
        forall|i: int|
            0 <= i < successes(results).len() ==> exists|k: int|
                0 <= k < results.len() && results[k] == Ok::<AssessmentModel, TreeError>(
                    #[trigger] successes(results)[i],
                ),
        forall|k: int|
            0 <= k < results.len() && (#[trigger] results[k]) is Ok ==> exists|i: int|
                0 <= i < successes(results).len() && successes(results)[i] == results[k]->Ok_0,
    decreases results.len(),
{
    if results.len() > 0 {
        let front = results.drop_last();
        lemma_successes(front);
        let found = successes(results);
        assert forall|i: int| 0 <= i < found.len() implies exists|k: int|
            0 <= k < results.len() && results[k] == Ok::<AssessmentModel, TreeError>(
                #[trigger] found[i],
            ) by {
            if i < successes(front).len() {
                assert(found[i] == successes(front)[i]);
                let k = choose|k: int|
                    0 <= k < front.len() && front[k] == Ok::<AssessmentModel, TreeError>(
                        successes(front)[i],
                    );
                assert(results[k] == front[k]);
            } else {
                assert(results[results.len() - 1] == Ok::<AssessmentModel, TreeError>(found[i]));
            }
        }
        assert forall|k: int| 0 <= k < results.len() && (#[trigger] results[k]) is Ok implies exists|
            i: int,
        |
            0 <= i < found.len() && found[i] == results[k]->Ok_0 by {
            if k < front.len() {
                assert(front[k] == results[k]);
                let i = choose|i: int|
                    0 <= i < successes(front).len() && successes(front)[i] == front[k]->Ok_0;
                assert(found[i] == successes(front)[i]);
            } else {
                assert(found[found.len() - 1] == results[k]->Ok_0);
            }
        }
    }
}

/// Combining assessments of one length gives, at each position, a score that no
/// assessment exceeds there; with two or more assessments every entry is present.
pub proof fn lemma_most_demanding_dominates(found: Seq<AssessmentModel>)
    requires
        found.len() > 0,
        forall|k: int| 0 <= k < found.len() ==> (#[trigger] found[k]).values.len()
            == found[0].values.len(),
    ensures
        most_demanding(found) is Ok,
        most_demanding(found)->Ok_0.definition == found[0].definition,
        most_demanding(found)->Ok_0.values.len() == found[0].values.len(),
        forall|k: int, i: int|
            0 <= k < found.len() && 0 <= i < found[0].values.len() ==> score(
                #[trigger] found[k].values[i],
            ) <= score(most_demanding(found)->Ok_0.values[i]),
        forall|i: int|
            0 <= i < found[0].values.len() ==> exists|k: int|
                0 <= k < found.len() && score(found[k].values[i]) == score(
                    #[trigger] most_demanding(found)->Ok_0.values[i],
                ),
        found.len() >= 2 ==> forall|i: int|
            0 <= i < found[0].values.len() ==> (#[trigger] most_demanding(found)->Ok_0.values[i])
                is Some,
    decreases found.len(),
{
    if found.len() > 1 {
        let front = found.drop_last();
        assert forall|k: int| 0 <= k < front.len() implies (#[trigger] front[k]).values.len()
            == front[0].values.len() by {
            assert(front[k] == found[k]);
            assert(front[0] == found[0]);
        }
        lemma_most_demanding_dominates(front);
        let before = most_demanding(front)->Ok_0;
        let after = most_demanding(found)->Ok_0;
        let last = found[found.len() - 1];
        assert(front[0] == found[0]);
        assert(last.values.len() == found[0].values.len());
        assert(after == before.max_with(last));
        assert forall|k: int, i: int|
            0 <= k < found.len() && 0 <= i < found[0].values.len() implies score(
            #[trigger] found[k].values[i],
        ) <= score(after.values[i]) by {
            if k < front.len() {
                assert(front[k] == found[k]);
                assert(score(front[k].values[i]) <= score(before.values[i]));
            }
        }
        assert forall|i: int| 0 <= i < found[0].values.len() implies exists|k: int|
            0 <= k < found.len() && score(found[k].values[i]) == score(
                #[trigger] after.values[i],
            ) by {
            if score(after.values[i]) == score(last.values[i]) {
                assert(score(found[found.len() - 1].values[i]) == score(after.values[i]));
            } else {
                let k = choose|k: int|
                    0 <= k < front.len() && score(front[k].values[i]) == score(before.values[i]);
                assert(front[k] == found[k]);
                assert(score(found[k].values[i]) == score(after.values[i]));
            }
        }
    } else {
        assert forall|i: int| 0 <= i < found[0].values.len() implies exists|k: int|
            0 <= k < found.len() && score(found[k].values[i]) == score(
                #[trigger] most_demanding(found)->Ok_0.values[i],
            ) by {
            assert(score(found[0].values[i]) == score(most_demanding(found)->Ok_0.values[i]));
        }
    }
}

/// The feasibility of a step is a function of the step alone: whenever it is
/// computed on the same step, the result is the same.
pub proof fn lemma_feasibility_repeatable(
    step: StepModel,
    first: Result<FeasibilityAssessment, TreeError>,
    second: Result<FeasibilityAssessment, TreeError>,
)
    requires
        outcome(first) == step.feasibility(),
        outcome(second) == step.feasibility(),
    ensures
        outcome(first) == outcome(second),
        first is Ok <==> second is Ok,
        first is Ok ==> first->Ok_0@ == second->Ok_0@,
{
}

/// The model of what a feasibility computation returned.
pub open spec fn outcome(r: Result<FeasibilityAssessment, TreeError>) -> Result<
    AssessmentModel,
    TreeError,
> {
    match r {
        Ok(a) => Ok(a@),
        Err(e) => Err(e),
    }
}

/// The interface shared by all attack steps.
pub trait FeasibleStep: View<V = StepModel> {
    /// The step's identifier.
    fn id(&self) -> (r: u32)
        ensures
            r == self@.id,
    ;

    /// Appends `child` to the children of a composite step.
    fn add_child(&mut self, child: Step)
        requires
            old(self)@.kind != StepKind::Leaf,
        ensures
            final(self)@ == old(self)@.with_child(child@),
    ;

    /// The id of the step's parent, if it has one.
    fn get_parent(&self) -> (r: Option<u32>)
        ensures
            r == self@.parent,
    ;

    fn title(&self) -> (r: &str)
        ensures
            r@ == self@.title,
    ;

    /// The sum of the step's feasibility, or 0 where it has none.
    fn feasibility_value(&self) -> (r: u32)
        requires
            self@.feasibility_value() <= u32::MAX,
        ensures
            r == self@.feasibility_value(),
    {
        let feasibility = self.feasibility();
        match feasibility {
            Ok(f) => f.sum(),
            Err(_) => 0,
        }
    }

    fn feasibility(&self) -> (r: Result<FeasibilityAssessment, TreeError>)
        ensures
            outcome(r) == self@.feasibility(),
    ;

    /// The label a diagram shows for the step.
    fn render(&self) -> (r: String)
        ensures
            r@ == self@.label(),
    ;

    /// A copy of the step's children, in order.
    fn get_children(&self) -> (r: Vec<Step>)
        ensures
            step_models(r@) == self@.children,
    ;
}


/// Appends the scores of `a`, each as `id=score`, separated by `, `.
fn push_pairs(out: &mut String, a: &FeasibilityAssessment)
    ensures
        final(out)@ == old(out)@ + pairs_text(a@, a@.pairs()),
{
    let criteria = a.definition();
    let values = a.assessments();
    let n: usize = if criteria.0.len() <= values.len() {
        criteria.0.len()
    } else {
        values.len()
    };
    let mut i: usize = 0;
    assert(out@ =~= old(out)@ + pairs_text(a@, 0));
    while i < n
        invariant
            i <= n,
            n == a@.pairs(),
            n <= criteria.0.len(),
            n <= values.len(),
            criteria@ == a@.definition,
            values@ == a@.values,
            out@ == old(out)@ + pairs_text(a@, i as nat),
        decreases n - i,
    {
        let ghost before = out@;
        if i > 0 {
            out.append(", ");
        }
        out.append(criteria.0[i].id.as_str());
        out.append("=");
        let entry: u32 = match values[i] {
            Some(v) => v,
            None => 0,
        };
        push_decimal(out, entry as u128);
        proof {
            let pair = pair_text(a@.definition[i as int], a@.values[i as int]);
            assert(criteria@[i as int] == criteria.0[i as int]@);
            if i > 0 {
                assert(out@ =~= before + ", "@ + pair);
                assert(out@ =~= old(out)@ + pairs_text(a@, (i + 1) as nat));
            } else {
                assert(out@ =~= before + pair);
                assert(before =~= old(out)@);
            }
        }
        i += 1;
    }
}

/// The label of a step with this title and feasibility, followed by `shape_str`.
pub fn render(
    title: &str,
    feasibility: Result<FeasibilityAssessment, TreeError>,
    shape_str: &str,
) -> (r: String)
    ensures
        r@ == label_text(title@, outcome(feasibility), shape_str@),
{
    let mut out = String::new();
    out.append("label=\"");
    out.append(title);
    match feasibility {
        Err(_) => {
            assert(out@ =~= "label=\""@ + title@);
        },
        Ok(a) => {
            out.append("\\n");
            push_decimal(&mut out, a.exact_sum());
            out.append("\\n");
            let ghost head = out@;
            push_pairs(&mut out, &a);
            out.append("\"");
            out.append(shape_str);
            assert(head =~= "label=\""@ + title@ + "\\n"@ + decimal(a@.sum()) + "\\n"@);
            assert(out@ =~= head + pairs_text(a@, a@.pairs()) + "\""@ + shape_str@);
        },
    }
    out
}

} // verus!
