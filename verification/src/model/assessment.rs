//! Feasibility criteria and the assessment of one attack step against them.

use std::rc::Rc;
use vstd::prelude::*;
use vstd::slice::*;

verus! {

#[derive(Debug, PartialEq, Eq, Structural)]
pub enum TreeError {
    /// A feasibility vector and its criteria differ in length, or a composite step
    /// has no child to take a feasibility from.
    AssessmentVectorMismatch,
}

/// One feasibility criterion: its full name, and the short id it is rendered with.
#[derive(Debug)]
pub struct FeasiblityCriterion {
    pub name: String,
    pub id: String,
}

/// The ordered list of criteria that every assessment of a tree is aligned with.
#[derive(Debug)]
pub struct FeasibilityCriteria(pub Vec<FeasiblityCriterion>);

/// The scores of one step, one per criterion; `None` where the step has no score.
#[derive(Clone, Debug)]
pub struct FeasibilityVector(Vec<Option<u32>>);

/// A feasibility vector together with the criteria it was built against.
#[derive(Debug)]
pub struct FeasibilityAssessment {
    definition: Rc<FeasibilityCriteria>,
    assessments: FeasibilityVector,
}

/// What a criterion is: two texts.
pub struct CriterionModel {
    pub name: Seq<char>,
    pub id: Seq<char>,
}

/// What an assessment is: the criteria and, aligned with them, the optional scores.
pub struct AssessmentModel {
    pub definition: Seq<CriterionModel>,
    pub values: Seq<Option<u32>>,
}

/// The score an entry contributes: its value, or 0 where it is absent.
pub open spec fn score(entry: Option<u32>) -> u32 {
    match entry {
        Some(v) => v,
        None => 0,
    }
}

/// The sum of all scores of a vector.
pub open spec fn total(values: Seq<Option<u32>>) -> nat
    decreases values.len(),
{
    if values.len() == 0 {
        0
    } else {
        total(values.drop_last()) + score(values.last()) as nat
    }
}

/// The greater of two scores.
pub open spec fn greater(a: u32, b: u32) -> u32 {
    if a >= b {
        a
    } else {
        b
    }
}

/// Position by position the greater score of two vectors; every entry is present.
pub open spec fn maxima(a: Seq<Option<u32>>, b: Seq<Option<u32>>) -> Seq<Option<u32>> {
    Seq::new(a.len(), |i: int| Some(greater(score(a[i]), score(b[i]))))
}

impl AssessmentModel {
    /// The vector has one entry per criterion.
    pub open spec fn aligned(self) -> bool {
        self.values.len() == self.definition.len()
    }

    /// The assessment's scalar value.
    pub open spec fn sum(self) -> nat {
        total(self.values)
    }

    /// The assessment that holds the position-wise maxima of `self` and `other`,
    /// against the criteria of `self`.
    pub open spec fn max_with(self, other: AssessmentModel) -> AssessmentModel {
        AssessmentModel { definition: self.definition, values: maxima(self.values, other.values) }
    }
}

impl View for FeasiblityCriterion {
    type V = CriterionModel;

    open spec fn view(&self) -> CriterionModel {
        CriterionModel { name: self.name@, id: self.id@ }
    }
}

impl View for FeasibilityCriteria {
    type V = Seq<CriterionModel>;

    open spec fn view(&self) -> Seq<CriterionModel> {
        Seq::new(self.0.len() as nat, |i: int| self.0[i]@)
    }
}

impl View for FeasibilityVector {
    type V = Seq<Option<u32>>;

    closed spec fn view(&self) -> Seq<Option<u32>> {
        self.0@
    }
}

impl View for FeasibilityAssessment {
    type V = AssessmentModel;

    closed spec fn view(&self) -> AssessmentModel {
        AssessmentModel { definition: self.definition@, values: self.assessments@ }
    }
}

/// A vector's total is bounded by its length.
pub proof fn lemma_total_bound(values: Seq<Option<u32>>)
    ensures
        total(values) <= values.len() * u32::MAX,
    decreases values.len(),
{
    if values.len() > 0 {
        lemma_total_bound(values.drop_last());
        assert((values.len() - 1) * u32::MAX + u32::MAX == values.len() * u32::MAX)
            by (nonlinear_arith);
    }
}

/// Component-wise maximum does not depend on the order of its operands.
pub proof fn lemma_maxima_commutative(a: Seq<Option<u32>>, b: Seq<Option<u32>>)
    requires
        a.len() == b.len(),
    ensures
        maxima(a, b) == maxima(b, a),
{
    assert(maxima(a, b) =~= maxima(b, a));
}

/// Component-wise maximum keeps the length of its operands, and dominates both.
pub proof fn lemma_maxima_dominates(a: Seq<Option<u32>>, b: Seq<Option<u32>>)
    requires
        a.len() == b.len(),
    ensures
        maxima(a, b).len() == a.len(),
        forall|i: int|
            0 <= i < a.len() ==> {
                &&& score(#[trigger] maxima(a, b)[i]) >= score(a[i])
                &&& score(maxima(a, b)[i]) >= score(b[i])
                &&& (score(maxima(a, b)[i]) == score(a[i]) || score(maxima(a, b)[i]) == score(
                    b[i],
                ))
            },
{
}

/// `Rc::clone`: another handle to the same criteria.
#[verifier::external_body]
fn share(definition: &Rc<FeasibilityCriteria>) -> (r: Rc<FeasibilityCriteria>)
    ensures
        r == *definition,
{
    Rc::clone(definition)
}

impl FeasibilityAssessment {
    #[verifier::type_invariant]
    spec fn aligned(&self) -> bool {
        self.assessments.0@.len() == self.definition.0@.len()
    }

    /// Pairs `assessments` with `definition`; the two must have the same length.
    pub fn new(definition: &Rc<FeasibilityCriteria>, assessments: &[Option<u32>]) -> (r: Result<
        FeasibilityAssessment,
        TreeError,
    >)
        ensures
            r is Ok <==> assessments@.len() == definition@.len(),
            r matches Ok(a) ==> a@ == (AssessmentModel {
                definition: definition@,
                values: assessments@,
            }),
            r matches Err(e) ==> e == TreeError::AssessmentVectorMismatch,
    {
        if assessments.len() != definition.0.len() {
            return Err(TreeError::AssessmentVectorMismatch);
        }
        Ok(
            FeasibilityAssessment {
                definition: share(definition),
                assessments: FeasibilityVector(slice_to_vec(assessments)),
            },
        )
    }

    /// The criteria this assessment was built against.
    pub fn definition(&self) -> (r: &Rc<FeasibilityCriteria>)
        ensures
            r@ == self@.definition,
    {
        &self.definition
    }

    /// The scores, one per criterion.
    pub fn assessments(&self) -> (r: &Vec<Option<u32>>)
        ensures
            r@ == self@.values,
            self@.aligned(),
    {
        proof {
            use_type_invariant(self);
        }
        &self.assessments.0
    }

    /// The sum of all scores as a number that cannot overflow.
    pub fn exact_sum(&self) -> (r: u128)
        ensures
            r == self@.sum(),
    {
        let values = &self.assessments.0;
        let mut sum: u128 = 0;
        let mut i: usize = 0;
        while i < values.len()
            invariant
                i <= values.len(),
                sum == total(values@.subrange(0, i as int)),
            decreases values.len() - i,
        {
            let ghost before = values@.subrange(0, i as int);
            let ghost after = values@.subrange(0, i + 1);
            proof {
                assert(after.drop_last() =~= before);
                lemma_total_bound(before);
                assert(before.len() * u32::MAX <= usize::MAX * u32::MAX) by (nonlinear_arith)
                    requires
                        before.len() <= usize::MAX,
                ;
            }
            let v: u32 = match values[i] {
                Some(v) => v,
                None => 0,
            };
            sum = sum + v as u128;
            i += 1;
        }
        assert(values@.subrange(0, i as int) =~= values@);
        sum
    }

    /// The sum of all scores, absent entries counting as 0.
    pub fn sum(&self) -> (r: u32)
        requires
            self@.sum() <= u32::MAX,
        ensures
            r == self@.sum(),
    {
        self.exact_sum() as u32
    }

    /// Combines two assessments of equal length into the one that holds, at each
    /// position, the greater of the two scores.
    pub fn component_wise_max(&self, other: &FeasibilityAssessment) -> (r: Result<
        FeasibilityAssessment,
        TreeError,
    >)
        ensures
            r is Ok <==> self@.values.len() == other@.values.len(),
            r matches Ok(m) ==> m@ == self@.max_with(other@),
            r matches Err(e) ==> e == TreeError::AssessmentVectorMismatch,
    {
        proof {
            use_type_invariant(self);
        }
        let mine = &self.assessments.0;
        let theirs = &other.assessments.0;
        if mine.len() != theirs.len() {
            return Err(TreeError::AssessmentVectorMismatch);
        }
        let mut result: Vec<Option<u32>> = Vec::new();
        let mut i: usize = 0;
        while i < mine.len()
            invariant
                i <= mine.len(),
                mine.len() == theirs.len(),
                result@.len() == i,
                forall|k: int| 0 <= k < i ==> result@[k] == maxima(mine@, theirs@)[k],
            decreases mine.len() - i,
        {
            let a: u32 = match mine[i] {
                Some(v) => v,
                None => 0,
            };
            let b: u32 = match theirs[i] {
                Some(v) => v,
                None => 0,
            };
            result.push(Some(if a >= b { a } else { b }));
            i += 1;
        }
        assert(result@ =~= maxima(mine@, theirs@));
        FeasibilityAssessment::new(&self.definition, result.as_slice())
    }

    /// A copy of this assessment that shares its criteria.
    pub fn duplicate(&self) -> (r: FeasibilityAssessment)
        ensures
            r@ == self@,
    {
        proof {
            use_type_invariant(self);
        }
        FeasibilityAssessment {
            definition: share(&self.definition),
            assessments: FeasibilityVector(slice_to_vec(self.assessments.0.as_slice())),
        }
    }
}

} // verus!
