//! The parser of the attack-tree notation: a state machine over the characters of
//! the text that places each finished line in the tree by its indentation.

use crate::model::assessment::{
    AssessmentModel, CriterionModel, FeasibilityAssessment, FeasibilityCriteria,
};
use crate::model::feasible_step::{unassessed, StepKind, StepModel};
use crate::model::nodes::{generate_id, step_models, AndNode, Leaf, OrNode, Step};
use crate::render::{flattened, flattened_all};
use crate::text::{decimal_value, parse_decimal, string_of, trim, trimmed};
use std::rc::Rc;
use vstd::prelude::*;

verus! {

#[derive(Debug, PartialEq, Eq, Structural)]
pub enum TreeFileError {
    /// The text could not be read.
    FileReadError,
    /// The text is not a tree in the notation.
    SyntaxError(u32),
}

/// Where in a line the parser is.
#[derive(Clone, Copy, Debug, PartialEq, Eq, Structural)]
pub enum ParserState {
    /// Counting the spaces at the start of a line.
    DeterminingIndentationLevel,
    /// Reading the title, up to the `;`.
    InTitle,
    /// Looking at what follows the `;`.
    DeterminingNodeType,
    /// Reading the name of a criterion, up to the `=`.
    InAssessmentName,
    /// Reading the score of a criterion, up to the `,` or the end of the line.
    InAssessmentValue,
    /// Passing over the rest of a line.
    SkipToLineEnd,
}

/// A node of the tree under construction. Nodes refer to each other by position.
pub struct DraftModel {
    pub kind: StepKind,
    pub id: u32,
    pub title: Seq<char>,
    pub parent: Option<int>,
    pub children: Seq<int>,
    /// The assessment of a leaf; `unassessed()` for the other kinds.
    pub criteria: AssessmentModel,
}

/// What a parser is: the state of its machine, the texts it is collecting, the
/// scores committed so far, the indentation of this line and of the one before,
/// and the tree under construction with the two places that the next node is
/// attached by.
pub struct ParserModel {
    pub state: ParserState,
    pub title: Seq<char>,
    pub assessment_value: Seq<char>,
    pub assessment_title: Seq<char>,
    pub parsed_assessments: Map<Seq<char>, u32>,
    pub indentation_counter: u32,
    pub previous_indentation: u32,
    pub current_indentation: u32,
    pub current_node: Option<int>,
    pub last_added_node: Option<int>,
    pub nodes: Seq<DraftModel>,
    pub next_id: u32,
}

/// The identifier that follows `id`.
pub open spec fn following(id: u32) -> u32 {
    if id == u32::MAX {
        0
    } else {
        (id + 1) as u32
    }
}

/// The committed scores laid out along the criteria: at each position the score
/// committed under that criterion's name, if there is one.
pub open spec fn projection(schema: Seq<CriterionModel>, parsed: Map<Seq<char>, u32>) -> Seq<
    Option<u32>,
> {
    Seq::new(
        schema.len(),
        |i: int|
            if parsed.contains_key(schema[i].name) {
                Some(parsed[schema[i].name])
            } else {
                None
            },
    )
}

/// The node without a parent that is reached from node `i` by going up.
pub open spec fn root(nodes: Seq<DraftModel>, i: int) -> int
    decreases i,
{
    if 0 <= i < nodes.len() {
        match nodes[i].parent {
            Some(p) => if 0 <= p < i {
                root(nodes, p)
            } else {
                i
            },
            None => i,
        }
    } else {
        i
    }
}

/// The finished tree below node `i`, each step with the id of its parent.
pub open spec fn tree(nodes: Seq<DraftModel>, i: int) -> StepModel
    decreases nodes.len() - i,
{
    if 0 <= i < nodes.len() {
        let node = nodes[i];
        StepModel {
            kind: node.kind,
            id: node.id,
            title: node.title,
            parent: match node.parent {
                Some(p) => Some(nodes[p].id),
                None => None,
            },
            children: Seq::new(
                node.children.len(),
                |k: int|
                    if 0 <= k < node.children.len() && i < node.children[k] < nodes.len() {
                        tree(nodes, node.children[k])
                    } else {
                        arbitrary()
                    },
            ),
            criteria: node.criteria,
        }
    } else {
        arbitrary()
    }
}

/// Every step below `step` names `step` as its parent, and so on down the tree.
pub open spec fn linked(step: StepModel) -> bool
    decreases step,
{
    forall|k: int|
        0 <= k < step.children.len() ==> {
            &&& (#[trigger] step.children[k]).parent == Some(step.id)
            &&& linked(step.children[k])
        }
}

/// No two steps of the tree below and with `step` share an identifier.
pub open spec fn distinct_ids(step: StepModel) -> bool {
    forall|a: int, b: int|
        0 <= a < b < flattened(step).len() ==> (#[trigger] flattened(step)[a]).id != (
        #[trigger] flattened(step)[b]).id
}

impl ParserModel {
    /// A parser that has read nothing.
    pub open spec fn initial() -> ParserModel {
        ParserModel {
            state: ParserState::DeterminingIndentationLevel,
            title: Seq::empty(),
            assessment_value: Seq::empty(),
            assessment_title: Seq::empty(),
            parsed_assessments: Map::empty(),
            indentation_counter: 0,
            previous_indentation: 0,
            current_indentation: 0,
            current_node: None,
            last_added_node: None,
            nodes: Seq::empty(),
            next_id: 0,
        }
    }

    /// The tree under construction is one: parents come before their children,
    /// only the first node has none, a node's children are the nodes that name it
    /// as their parent, in the order in which they were added, a leaf has no
    /// children, and the two places exist. The identifiers follow one another in
    /// the order in which the nodes were added.
    pub open spec fn well_formed(self) -> bool {
        &&& forall|i: int, j: int|
            0 <= i && j == i + 1 && j < self.nodes.len() ==> (#[trigger] self.nodes[j]).id
                == following((#[trigger] self.nodes[i]).id)
        &&& self.nodes.len() > 0 ==> self.next_id == following(self.nodes.last().id)
        &&& self.current_node is Some <==> self.nodes.len() > 0
        &&& self.last_added_node is Some <==> self.nodes.len() > 0
        &&& self.current_node matches Some(c) ==> 0 <= c < self.nodes.len()
        &&& self.last_added_node matches Some(l) ==> 0 <= l < self.nodes.len()
        &&& forall|i: int|
            0 <= i < self.nodes.len() ==> match (#[trigger] self.nodes[i]).parent {
                Some(p) => 0 <= p < i,
                None => i == 0,
            }
        &&& forall|i: int, k: int|
            0 <= i < self.nodes.len() && 0 <= k < self.nodes[i].children.len() ==> {
                &&& i < (#[trigger] self.nodes[i].children[k]) < self.nodes.len()
                &&& self.nodes[self.nodes[i].children[k]].parent == Some(i)
            }
        &&& forall|i: int|
            0 <= i < self.nodes.len() && (#[trigger] self.nodes[i]).kind == StepKind::Leaf
                ==> self.nodes[i].children.len() == 0
        &&& forall|i: int, j: int, k: int|
            0 <= i < self.nodes.len() && 0 <= j < k < self.nodes[i].children.len() ==> (
            #[trigger] self.nodes[i].children[j]) < (#[trigger] self.nodes[i].children[k])
    }

    /// Entering a state empties the text that the state collects.
    pub open spec fn set_state(self, state: ParserState) -> ParserModel {
        match state {
            ParserState::DeterminingIndentationLevel => ParserModel {
                state,
                indentation_counter: 0,
                ..self
            },
            ParserState::InTitle => ParserModel { state, title: Seq::empty(), ..self },
            ParserState::DeterminingNodeType => ParserModel { state, ..self },
            ParserState::InAssessmentName => ParserModel {
                state,
                assessment_title: Seq::empty(),
                ..self
            },
            ParserState::InAssessmentValue => ParserModel {
                state,
                assessment_value: Seq::empty(),
                ..self
            },
            ParserState::SkipToLineEnd => ParserModel { state, ..self },
        }
    }

    /// Commits the pair that was collected: the trimmed value, read as a number,
    /// under the trimmed name. Fails where the value is no number.
    pub open spec fn commit_assessment(self) -> Option<ParserModel> {
        match decimal_value(trimmed(self.assessment_value)) {
            Some(value) => Some(
                ParserModel {
                    parsed_assessments: self.parsed_assessments.insert(
                        trimmed(self.assessment_title),
                        value,
                    ),
                    assessment_value: Seq::empty(),
                    assessment_title: Seq::empty(),
                    ..self
                },
            ),
            None => None,
        }
    }

    /// The assessment of a leaf that is built now: the committed scores along `schema`.
    pub open spec fn leaf_criteria(self, schema: Seq<CriterionModel>) -> AssessmentModel {
        AssessmentModel {
            definition: schema,
            values: projection(schema, self.parsed_assessments),
        }
    }

    /// The node that a new node is attached to, by the indentation of its line
    /// against that of the line before: deeper, the node added last; shallower,
    /// the parent of the current node; else the current node.
    pub open spec fn target(self) -> Option<int> {
        match self.current_node {
            Some(current) => if self.current_indentation > self.previous_indentation {
                self.last_added_node
            } else if self.current_indentation < self.previous_indentation {
                if 0 <= current < self.nodes.len() {
                    self.nodes[current].parent
                } else {
                    None
                }
            } else {
                Some(current)
            },
            None => None,
        }
    }

    /// Whether the next node can be placed: it is the first, or its target exists
    /// and is no leaf.
    pub open spec fn placeable(self) -> bool {
        self.current_node is None || (self.target() matches Some(p) && 0 <= p < self.nodes.len()
            && self.nodes[p].kind != StepKind::Leaf)
    }

    /// Adds a node with the collected title at its place in the tree. The first
    /// node becomes the current one; any other becomes the last child of its
    /// target, which becomes the current node. Fails where the node has no place.
    pub open spec fn add_node(self, kind: StepKind, criteria: AssessmentModel) -> Option<
        ParserModel,
    > {
        if !self.placeable() {
            None
        } else {
            let index = self.nodes.len() as int;
            let parent = if self.current_node is None {
                None
            } else {
                self.target()
            };
            let node = DraftModel {
                kind,
                id: self.next_id,
                title: self.title,
                parent,
                children: Seq::empty(),
                criteria,
            };
            let nodes = match parent {
                Some(p) => self.nodes.update(
                    p,
                    DraftModel { children: self.nodes[p].children.push(index), ..self.nodes[p] },
                ).push(node),
                None => self.nodes.push(node),
            };
            Some(
                ParserModel {
                    nodes,
                    current_node: match parent {
                        Some(p) => Some(p),
                        None => Some(index),
                    },
                    last_added_node: Some(index),
                    next_id: following(self.next_id),
                    ..self
                },
            )
        }
    }

    /// The parser after one more character, or `None` where the character makes
    /// the text no tree.
    pub open spec fn step(self, c: char, schema: Seq<CriterionModel>) -> Option<ParserModel> {
        match self.state {
            ParserState::InTitle => if c == ';' {
                Some(self.set_state(ParserState::DeterminingNodeType))
            } else {
                Some(ParserModel { title: self.title.push(c), ..self })
            },
            ParserState::DeterminingNodeType => if c == '&' {
                match self.add_node(StepKind::And, unassessed()) {
                    Some(m) => Some(m.set_state(ParserState::SkipToLineEnd)),
                    None => None,
                }
            } else if c == '|' {
                match self.add_node(StepKind::Or, unassessed()) {
                    Some(m) => Some(m.set_state(ParserState::SkipToLineEnd)),
                    None => None,
                }
            } else if c != ' ' {
                let m = self.set_state(ParserState::InAssessmentName);
                Some(ParserModel { assessment_title: m.assessment_title.push(c), ..m })
            } else {
                Some(self)
            },
            ParserState::SkipToLineEnd => if c == '\n' {
                Some(self.set_state(ParserState::DeterminingIndentationLevel))
            } else {
                Some(self)
            },
            ParserState::DeterminingIndentationLevel => if c == ' ' {
                if self.indentation_counter == u32::MAX {
                    None
                } else {
                    Some(
                        ParserModel {
                            indentation_counter: (self.indentation_counter + 1) as u32,
                            ..self
                        },
                    )
                }
            } else if c == '\n' {
                Some(self.set_state(ParserState::DeterminingIndentationLevel))
            } else {
                let m = ParserModel {
                    previous_indentation: self.current_indentation,
                    current_indentation: self.indentation_counter,
                    ..self
                }.set_state(ParserState::InTitle);
                Some(ParserModel { title: m.title.push(c), ..m })
            },
            ParserState::InAssessmentName => if c == '=' {
                Some(self.set_state(ParserState::InAssessmentValue))
            } else {
                Some(ParserModel { assessment_title: self.assessment_title.push(c), ..self })
            },
            ParserState::InAssessmentValue => if c == ',' {
                match self.commit_assessment() {
                    Some(m) => Some(m.set_state(ParserState::InAssessmentName)),
                    None => None,
                }
            } else if c == '\n' {
                match self.finish_leaf(schema) {
                    Some(m) => Some(m.set_state(ParserState::DeterminingIndentationLevel)),
                    None => None,
                }
            } else {
                Some(ParserModel { assessment_value: self.assessment_value.push(c), ..self })
            },
        }
    }

    /// Commits the pending pair and adds the leaf that the line describes.
    pub open spec fn finish_leaf(self, schema: Seq<CriterionModel>) -> Option<ParserModel> {
        match self.commit_assessment() {
            Some(m) => m.add_node(StepKind::Leaf, m.leaf_criteria(schema)),
            None => None,
        }
    }

    /// Whether every character of `text` can be taken, one after the other.
    pub open spec fn accepts(self, text: Seq<char>, schema: Seq<CriterionModel>) -> bool
        decreases text.len(),
    {
        if text.len() == 0 {
            true
        } else {
            match self.step(text[0], schema) {
                Some(m) => m.accepts(text.drop_first(), schema),
                None => false,
            }
        }
    }

    /// The parser after the characters of `text`, up to the first that cannot be
    /// taken.
    pub open spec fn advance(self, text: Seq<char>, schema: Seq<CriterionModel>) -> ParserModel
        decreases text.len(),
    {
        if text.len() == 0 {
            self
        } else {
            match self.step(text[0], schema) {
                Some(m) => m.advance(text.drop_first(), schema),
                None => self,
            }
        }
    }

    /// What the end of the text does: a leaf whose line was not ended is still added.
    pub open spec fn finish(self, schema: Seq<CriterionModel>) -> Option<ParserModel> {
        if self.state == ParserState::InAssessmentValue {
            self.finish_leaf(schema)
        } else {
            Some(self)
        }
    }

    /// The parser after the whole of `text` where the text is a tree, else `None`:
    /// every character can be taken, the end can be, and there is a node. The
    /// current node is then the root of the tree.
    pub open spec fn completed(self, text: Seq<char>, schema: Seq<CriterionModel>) -> Option<
        ParserModel,
    > {
        if self.accepts(text, schema) {
            match self.advance(text, schema).finish(schema) {
                Some(m) => if m.current_node is Some {
                    Some(m.at_root())
                } else {
                    None
                },
                None => None,
            }
        } else {
            None
        }
    }

    /// The parser with its current node moved up to the node without a parent.
    pub open spec fn at_root(self) -> ParserModel {
        match self.current_node {
            Some(current) => ParserModel {
                current_node: Some(root(self.nodes, current)),
                ..self
            },
            None => self,
        }
    }

    /// The tree below the current node.
    pub open spec fn result(self) -> StepModel
        recommends
            self.current_node is Some,
    {
        tree(self.nodes, self.current_node->0)
    }
}


/// What a node under construction holds besides its place in the tree.
enum Content {
    Leaf(FeasibilityAssessment),
    And,
    Or,
}

/// A node under construction; `parent` and `children` are positions in the parser's
/// list of nodes.
struct Draft {
    id: u32,
    title: String,
    parent: Option<usize>,
    children: Vec<usize>,
    content: Content,
}

/// A committed score.
struct Entry {
    name: String,
    value: u32,
}

impl Content {
    spec fn kind(self) -> StepKind {
        match self {
            Content::Leaf(_) => StepKind::Leaf,
            Content::And => StepKind::And,
            Content::Or => StepKind::Or,
        }
    }

    spec fn criteria(self) -> AssessmentModel {
        match self {
            Content::Leaf(a) => a@,
            _ => unassessed(),
        }
    }
}

impl Draft {
    spec fn model(self) -> DraftModel {
        DraftModel {
            kind: self.content.kind(),
            id: self.id,
            title: self.title@,
            parent: match self.parent {
                Some(p) => Some(p as int),
                None => None,
            },
            children: Seq::new(self.children@.len(), |k: int| self.children@[k] as int),
            criteria: self.content.criteria(),
        }
    }
}

/// The scores that a list of entries holds, by name; a later entry replaces an
/// earlier one of the same name.
spec fn table(entries: Seq<Entry>) -> Map<Seq<char>, u32>
    decreases entries.len(),
{
    if entries.len() == 0 {
        Map::empty()
    } else {
        table(entries.drop_last()).insert(entries.last().name@, entries.last().value)
    }
}

/// No two entries have the same name.
spec fn distinct(entries: Seq<Entry>) -> bool {
    forall|i: int, j: int|
        0 <= i < j < entries.len() ==> (#[trigger] entries[i]).name@ != (#[trigger] entries[j]).name@
}

/// With distinct names, the table holds what each entry says and nothing else.
proof fn lemma_table(entries: Seq<Entry>)
    requires
        distinct(entries),
    ensures
        forall|i: int|
            0 <= i < entries.len() ==> table(entries).contains_key((#[trigger] entries[i]).name@)
                && table(entries)[entries[i].name@] == entries[i].value,
        forall|name: Seq<char>| #[trigger]
            table(entries).contains_key(name) ==> exists|i: int|
                0 <= i < entries.len() && (#[trigger] entries[i]).name@ == name,
    decreases entries.len(),
{
    if entries.len() > 0 {
        let front = entries.drop_last();
        assert forall|i: int, j: int| 0 <= i < j < front.len() implies (#[trigger] front[i]).name@
            != (#[trigger] front[j]).name@ by {
            assert(front[i] == entries[i] && front[j] == entries[j]);
        }
        lemma_table(front);
        assert forall|i: int| 0 <= i < entries.len() implies table(entries).contains_key(
            (#[trigger] entries[i]).name@,
        ) && table(entries)[entries[i].name@] == entries[i].value by {
            if i < front.len() {
                assert(front[i] == entries[i]);
                assert(entries[i].name@ != entries[entries.len() - 1].name@);
            }
        }
        assert forall|name: Seq<char>| #[trigger] table(entries).contains_key(name) implies exists|
            i: int,
        |
            0 <= i < entries.len() && (#[trigger] entries[i]).name@ == name by {
            if name == entries.last().name@ {
                assert(entries[entries.len() - 1].name@ == name);
            } else {
                assert(table(front).contains_key(name));
                let i = choose|i: int| 0 <= i < front.len() && (#[trigger] front[i]).name@ == name;
                assert(entries[i].name@ == name);
            }
        }
    }
}

/// Replacing the value of one entry is an insertion under its name.
proof fn lemma_table_update(entries: Seq<Entry>, i: int, entry: Entry)
    requires
        distinct(entries),
        0 <= i < entries.len(),
        entry.name@ == entries[i].name@,
    ensures
        distinct(entries.update(i, entry)),
        table(entries.update(i, entry)) == table(entries).insert(entry.name@, entry.value),
    decreases entries.len(),
{
    let updated = entries.update(i, entry);
    assert forall|a: int, b: int| 0 <= a < b < updated.len() implies (#[trigger] updated[a]).name@
        != (#[trigger] updated[b]).name@ by {
        assert(updated[a].name@ == entries[a].name@);
        assert(updated[b].name@ == entries[b].name@);
    }
    let front = entries.drop_last();
    if i == entries.len() - 1 {
        assert(updated.drop_last() =~= front);
        assert(table(updated) =~= table(entries).insert(entry.name@, entry.value));
    } else {
        assert forall|a: int, b: int| 0 <= a < b < front.len() implies (#[trigger] front[a]).name@
            != (#[trigger] front[b]).name@ by {
            assert(front[a] == entries[a] && front[b] == entries[b]);
        }
        lemma_table_update(front, i, entry);
        assert(updated.drop_last() =~= front.update(i, entry));
        assert(updated.last() == entries.last());
        assert(entries[i].name@ != entries[entries.len() - 1].name@);
        assert(table(updated) =~= table(entries).insert(entry.name@, entry.value));
    }
}

/// The score committed under `name`, if there is one.
fn lookup(entries: &Vec<Entry>, name: &String) -> (r: Option<u32>)
    requires
        distinct(entries@),
    ensures
        r == if table(entries@).contains_key(name@) {
            Some(table(entries@)[name@])
        } else {
            None::<u32>
        },
{
    proof {
        lemma_table(entries@);
    }
    let mut i: usize = 0;
    while i < entries.len()
        invariant
            i <= entries.len(),
            distinct(entries@),
            forall|k: int| 0 <= k < i ==> (#[trigger] entries@[k]).name@ != name@,
        decreases entries.len() - i,
    {
        if entries[i].name == *name {
            proof {
                lemma_table(entries@);
            }
            return Some(entries[i].value);
        }
        i += 1;
    }
    None
}

/// Commits `value` under `name`, in place of what was committed under it before.
fn record(entries: &mut Vec<Entry>, name: String, value: u32)
    requires
        distinct(old(entries)@),
    ensures
        distinct(final(entries)@),
        table(final(entries)@) == table(old(entries)@).insert(name@, value),
{
    let mut i: usize = 0;
    while i < entries.len()
        invariant
            i <= entries.len(),
            entries@ == old(entries)@,
            distinct(entries@),
            forall|k: int| 0 <= k < i ==> (#[trigger] entries@[k]).name@ != name@,
        decreases entries.len() - i,
    {
        if entries[i].name == name {
            proof {
                lemma_table_update(entries@, i as int, Entry { name, value });
            }
            entries[i] = Entry { name, value };
            return ;
        }
        i += 1;
    }
    let ghost entry = Entry { name, value };
    entries.push(Entry { name, value });
    assert(entries@.drop_last() =~= old(entries)@);
    assert(entries@.last() == entry);
}


/// Reads attack trees from their text notation.
pub struct AttackTreeParser {
    state: ParserState,
    title: Vec<char>,
    assessment_value: Vec<char>,
    assessment_title: Vec<char>,
    parsed_assessments: Vec<Entry>,
    indentation_counter: u32,
    previous_indentation: u32,
    current_indentation: u32,
    current_node: Option<usize>,
    last_added_node: Option<usize>,
    nodes: Vec<Draft>,
    next_id: u32,
}

/// A position in the list of nodes, as the model has it.
spec fn place(position: Option<usize>) -> Option<int> {
    match position {
        Some(p) => Some(p as int),
        None => None,
    }
}

impl View for AttackTreeParser {
    type V = ParserModel;

    closed spec fn view(&self) -> ParserModel {
        ParserModel {
            state: self.state,
            title: self.title@,
            assessment_value: self.assessment_value@,
            assessment_title: self.assessment_title@,
            parsed_assessments: table(self.parsed_assessments@),
            indentation_counter: self.indentation_counter,
            previous_indentation: self.previous_indentation,
            current_indentation: self.current_indentation,
            current_node: place(self.current_node),
            last_added_node: place(self.last_added_node),
            nodes: Seq::new(self.nodes@.len(), |i: int| self.nodes@[i].model()),
            next_id: self.next_id,
        }
    }
}

impl AttackTreeParser {
    /// The parser's tree is well formed and its committed scores are kept one per
    /// name.
    pub closed spec fn wf(&self) -> bool {
        &&& self@.well_formed()
        &&& distinct(self.parsed_assessments@)
    }

    /// A parser that holds to its invariant has a well-formed tree.
    pub proof fn lemma_well_formed(&self)
        requires
            self.wf(),
        ensures
            self@.well_formed(),
    {
    }

    /// A parser that has read nothing; its first node will have the id 0.
    pub fn new() -> (r: AttackTreeParser)
        ensures
            r.wf(),
            r@ == ParserModel::initial(),
    {
        AttackTreeParser::starting_at(0)
    }

    /// A parser that has read nothing; its first node will have the id `first_id`.
    /// With the `next_id` of one parser as the first id of the next, the trees of
    /// several texts share no identifier.
    pub fn starting_at(first_id: u32) -> (r: AttackTreeParser)
        ensures
            r.wf(),
            r@ == (ParserModel { next_id: first_id, ..ParserModel::initial() }),
    {
        let r = AttackTreeParser {
            state: ParserState::DeterminingIndentationLevel,
            title: Vec::new(),
            assessment_value: Vec::new(),
            assessment_title: Vec::new(),
            parsed_assessments: Vec::new(),
            indentation_counter: 0,
            previous_indentation: 0,
            current_indentation: 0,
            current_node: None,
            last_added_node: None,
            nodes: Vec::new(),
            next_id: first_id,
        };
        assert(r@.nodes =~= Seq::empty());
        r
    }

    /// The id that the next node will have.
    pub fn next_id(&self) -> (r: u32)
        ensures
            r == self@.next_id,
    {
        self.next_id
    }

    /// Enters `state`, emptying the text that the state collects.
    fn set_state(&mut self, state: ParserState)
        requires
            old(self).wf(),
        ensures
            final(self).wf(),
            final(self)@ == old(self)@.set_state(state),
    {
        self.state = state;
        match self.state {
            ParserState::DeterminingIndentationLevel => {
                self.indentation_counter = 0;
            },
            ParserState::InTitle => {
                self.title.clear();
            },
            ParserState::DeterminingNodeType => {},
            ParserState::InAssessmentName => {
                self.assessment_title.clear();
            },
            ParserState::InAssessmentValue => {
                self.assessment_value.clear();
            },
            ParserState::SkipToLineEnd => {},
        }
    }

    /// Commits the pair that was collected: the value, read as a number, under
    /// the name, both without the whitespace around them. Where the value is no
    /// number, nothing changes.
    fn commit_assessment(&mut self) -> (r: Result<(), TreeFileError>)
        requires
            old(self).wf(),
        ensures
            final(self).wf(),
            match old(self)@.commit_assessment() {
                Some(m) => r is Ok && final(self)@ == m,
                None => r == Err::<(), TreeFileError>(TreeFileError::SyntaxError(1))
                    && final(self)@ == old(self)@,
            },
    {
        let value: u32 = match parse_decimal(&trim(&self.assessment_value)) {
            Some(v) => v,
            None => {
                return Err(TreeFileError::SyntaxError(1));
            },
        };
        let name = string_of(&trim(&self.assessment_title));
        record(&mut self.parsed_assessments, name, value);
        self.assessment_value.clear();
        self.assessment_title.clear();
        Ok(())
    }

    /// The assessment of a leaf that is built now: for each criterion the score
    /// committed under its name, if there is one.
    fn build_leaf(&self, definition: &Rc<FeasibilityCriteria>) -> (r: FeasibilityAssessment)
        requires
            self.wf(),
        ensures
            r@ == self@.leaf_criteria(definition@),
    {
        let mut values: Vec<Option<u32>> = Vec::new();
        let mut i: usize = 0;
        while i < definition.0.len()
            invariant
                i <= definition.0.len(),
                distinct(self.parsed_assessments@),
                values@.len() == i,
                forall|k: int|
                    0 <= k < i ==> values@[k] == projection(
                        definition@,
                        table(self.parsed_assessments@),
                    )[k],
            decreases definition.0.len() - i,
        {
            values.push(lookup(&self.parsed_assessments, &definition.0[i].name));
            i += 1;
        }
        assert(values@ =~= projection(definition@, self@.parsed_assessments));
        match FeasibilityAssessment::new(definition, values.as_slice()) {
            Ok(criteria) => criteria,
            Err(_) => vstd::pervasive::unreached(),
        }
    }

    /// The node that a new node would be attached to: `None` for the first node,
    /// an error where the node has no place.
    fn target(&self) -> (r: Result<Option<usize>, TreeFileError>)
        requires
            self.wf(),
        ensures
            r is Ok <==> self@.placeable(),
            r matches Ok(parent) ==> place(parent) == if self@.current_node is None {
                None::<int>
            } else {
                self@.target()
            },
            r matches Err(e) ==> e == TreeFileError::SyntaxError(1),
    {
        let current: usize = match self.current_node {
            Some(current) => current,
            None => {
                return Ok(None);
            },
        };
        let target: Option<usize> = if self.current_indentation > self.previous_indentation {
            self.last_added_node
        } else if self.current_indentation < self.previous_indentation {
            self.nodes[current].parent
        } else {
            Some(current)
        };
        assert(self@.nodes[current as int] == self.nodes@[current as int].model());
        match target {
            Some(p) => {
                assert(self@.nodes[p as int] == self.nodes@[p as int].model());
                match self.nodes[p].content {
                    Content::Leaf(_) => Err(TreeFileError::SyntaxError(1)),
                    _ => Ok(Some(p)),
                }
            },
            None => Err(TreeFileError::SyntaxError(1)),
        }
    }

    /// Adds a node with the collected title at its place in the tree. Where it
    /// has no place, nothing changes.
    fn add_node(&mut self, content: Content) -> (r: Result<(), TreeFileError>)
        requires
            old(self).wf(),
        ensures
            final(self).wf(),
            match old(self)@.add_node(content.kind(), content.criteria()) {
                Some(m) => r is Ok && final(self)@ == m,
                None => r == Err::<(), TreeFileError>(TreeFileError::SyntaxError(1))
                    && final(self)@ == old(self)@,
            },
    {
        let parent: Option<usize> = match self.target() {
            Ok(parent) => parent,
            Err(e) => {
                return Err(e);
            },
        };
        let ghost expected = old(self)@.add_node(content.kind(), content.criteria())->0;
        proof {
            lemma_add_node_well_formed(old(self)@, content.kind(), content.criteria());
        }
        let index: usize = self.nodes.len();
        let id = generate_id(&mut self.next_id);
        let title = string_of(&self.title);
        match parent {
            Some(p) => {
                self.nodes[p].children.push(index);
                self.current_node = Some(p);
            },
            None => {
                self.current_node = Some(index);
            },
        }
        self.nodes.push(Draft { id, title, parent, children: Vec::new(), content });
        self.last_added_node = Some(index);
        proof {
            assert forall|i: int| 0 <= i < self@.nodes.len() implies self@.nodes[i]
                == expected.nodes[i] by {
                assert(self@.nodes[i].children =~= expected.nodes[i].children);
            }
            assert(self@.nodes =~= expected.nodes);
        }
        Ok(())
    }

    /// Commits the pending pair and adds the leaf that the line describes. Where
    /// the value is no number or the leaf has no place, nothing changes.
    fn finish_leaf(&mut self, definition: &Rc<FeasibilityCriteria>) -> (r: Result<
        (),
        TreeFileError,
    >)
        requires
            old(self).wf(),
        ensures
            final(self).wf(),
            match old(self)@.finish_leaf(definition@) {
                Some(m) => r is Ok && final(self)@ == m,
                None => r == Err::<(), TreeFileError>(TreeFileError::SyntaxError(1))
                    && final(self)@ == old(self)@,
            },
    {
        match self.target() {
            Ok(_) => {},
            Err(e) => {
                return Err(e);
            },
        }
        match self.commit_assessment() {
            Ok(_) => {},
            Err(e) => {
                return Err(e);
            },
        }
        let criteria = self.build_leaf(definition);
        self.add_node(Content::Leaf(criteria))
    }

    /// Takes one more character of the text. Where the character makes the text
    /// no tree, nothing changes.
    fn consume(&mut self, c: char, definition: &Rc<FeasibilityCriteria>) -> (r: Result<
        (),
        TreeFileError,
    >)
        requires
            old(self).wf(),
        ensures
            final(self).wf(),
            match old(self)@.step(c, definition@) {
                Some(m) => r is Ok && final(self)@ == m,
                None => r == Err::<(), TreeFileError>(TreeFileError::SyntaxError(1))
                    && final(self)@ == old(self)@,
            },
    {
        match self.state {
            ParserState::InTitle => {
                if c == ';' {
                    self.set_state(ParserState::DeterminingNodeType);
                } else {
                    self.title.push(c);
                }
            },
            ParserState::DeterminingNodeType => {
                if c == '&' {
                    match self.add_node(Content::And) {
                        Ok(_) => {},
                        Err(e) => {
                            return Err(e);
                        },
                    }
                    self.set_state(ParserState::SkipToLineEnd);
                } else if c == '|' {
                    match self.add_node(Content::Or) {
                        Ok(_) => {},
                        Err(e) => {
                            return Err(e);
                        },
                    }
                    self.set_state(ParserState::SkipToLineEnd);
                } else if c != ' ' {
                    self.set_state(ParserState::InAssessmentName);
                    self.assessment_title.push(c);
                }
            },
            ParserState::SkipToLineEnd => {
                if c == '\n' {
                    self.set_state(ParserState::DeterminingIndentationLevel);
                }
            },
            ParserState::DeterminingIndentationLevel => {
                if c == ' ' {
                    if self.indentation_counter == u32::MAX {
                        return Err(TreeFileError::SyntaxError(1));
                    }
                    self.indentation_counter += 1;
                } else if c == '\n' {
                    self.set_state(ParserState::DeterminingIndentationLevel);
                } else {
                    self.previous_indentation = self.current_indentation;
                    self.current_indentation = self.indentation_counter;
                    self.set_state(ParserState::InTitle);
                    self.title.push(c);
                }
            },
            ParserState::InAssessmentName => {
                if c == '=' {
                    self.set_state(ParserState::InAssessmentValue);
                } else {
                    self.assessment_title.push(c);
                }
            },
            ParserState::InAssessmentValue => {
                if c == ',' {
                    match self.commit_assessment() {
                        Ok(_) => {},
                        Err(e) => {
                            return Err(e);
                        },
                    }
                    self.set_state(ParserState::InAssessmentName);
                } else if c == '\n' {
                    match self.finish_leaf(definition) {
                        Ok(_) => {},
                        Err(e) => {
                            return Err(e);
                        },
                    }
                    self.set_state(ParserState::DeterminingIndentationLevel);
                } else {
                    self.assessment_value.push(c);
                }
            },
        }
        Ok(())
    }

    /// The finished tree below node `index`.
    fn extract(&self, index: usize) -> (r: Step)
        requires
            self.wf(),
            index < self.nodes.len(),
        ensures
            r@ == tree(self@.nodes, index as int),
        decreases self.nodes.len() - index,
    {
        let draft = &self.nodes[index];
        let ghost node = self@.nodes[index as int];
        assert(node == draft.model());
        let parent: Option<u32> = match draft.parent {
            Some(p) => {
                assert(self@.nodes[p as int] == self.nodes@[p as int].model());
                Some(self.nodes[p].id)
            },
            None => None,
        };
        let mut children: Vec<Step> = Vec::new();
        let mut k: usize = 0;
        while k < draft.children.len()
            invariant
                self.wf(),
                index < self.nodes.len(),
                draft == self.nodes@[index as int],
                node == self@.nodes[index as int],
                node == draft.model(),
                k <= draft.children.len(),
                children@.len() == k,
                forall|j: int|
                    0 <= j < k ==> (#[trigger] children@[j])@ == tree(
                        self@.nodes,
                        node.children[j],
                    ),
            decreases draft.children.len() - k,
        {
            let child: usize = draft.children[k];
            assert(node.children[k as int] == child);
            children.push(self.extract(child));
            k += 1;
        }
        let ghost expected = tree(self@.nodes, index as int);
        assert(step_models(children@) =~= expected.children);
        assert(expected.kind == StepKind::Leaf ==> expected.children =~= Seq::empty());
        match &draft.content {
            Content::Leaf(criteria) => Step::Leaf(
                Leaf {
                    id: draft.id,
                    description: draft.title.clone(),
                    parent,
                    criteria: criteria.duplicate(),
                },
            ),
            Content::And => Step::And(
                AndNode { id: draft.id, description: draft.title.clone(), parent, children },
            ),
            Content::Or => Step::Or(
                OrNode { id: draft.id, description: draft.title.clone(), parent, children },
            ),
        }
    }

    /// Reads `text` as a tree: takes its characters one by one, adds the leaf of a
    /// last line that was not ended, and hands out the tree from its root. The
    /// root has no parent, every other step names the step above it as its parent,
    /// and no two steps share an identifier while the parser holds no more nodes
    /// than there are identifiers.
    ///
    /// The text is no tree where a score is no number, where a line would become
    /// the child of a leaf or the sibling of the root, where a line is indented by
    /// more than `u32::MAX` spaces, or where no line describes a node. The parser
    /// then keeps the state that it had before the character that it could not
    /// take.
    pub fn parse(&mut self, text: &str, definition: &Rc<FeasibilityCriteria>) -> (r: Result<
        Step,
        TreeFileError,
    >)
        requires
            old(self).wf(),
        ensures
            final(self).wf(),
            match old(self)@.completed(text@, definition@) {
                Some(m) => final(self)@ == m && (r matches Ok(t) && t@ == m.result()),
                None => final(self)@ == old(self)@.advance(text@, definition@)
                    && r == Err::<Step, TreeFileError>(TreeFileError::SyntaxError(1)),
            },
            r matches Ok(t) ==> t@.parent is None && linked(t@),
            r matches Ok(t) ==> (final(self)@.nodes.len() <= 0x1_0000_0000 ==> distinct_ids(t@)),
    {
        let ghost start = self@;
        let ghost schema = definition@;
        proof {
            assert(text@.skip(0) =~= text@);
        }
        for c in it: text.chars()
            invariant
                self.wf(),
                start == old(self)@,
                schema == definition@,
                it.seq() == text@,
                start.accepts(text@, schema) == self@.accepts(text@.skip(it.index()), schema),
                start.advance(text@, schema) == self@.advance(text@.skip(it.index()), schema),
        {
            let ghost rest = text@.skip(it.index());
            proof {
                assert(rest[0] == c);
                assert(rest.drop_first() =~= text@.skip(it.index() + 1));
            }
            match self.consume(c, definition) {
                Ok(_) => {},
                Err(e) => {
                    return Err(e);
                },
            }
        }
        match self.state {
            ParserState::InAssessmentValue => {
                match self.finish_leaf(definition) {
                    Ok(_) => {},
                    Err(e) => {
                        return Err(e);
                    },
                }
            },
            _ => {},
        }
        let current: usize = match self.current_node {
            Some(current) => current,
            None => {
                return Err(TreeFileError::SyntaxError(1));
            },
        };
        let mut at: usize = current;
        loop
            invariant_except_break
                self.wf(),
                at < self.nodes.len(),
                root(self@.nodes, at as int) == root(self@.nodes, current as int),
            ensures
                self.wf(),
                at < self.nodes.len(),
                at == root(self@.nodes, current as int),
            decreases at,
        {
            assert(self@.nodes[at as int] == self.nodes@[at as int].model());
            match self.nodes[at].parent {
                Some(p) => {
                    at = p;
                },
                None => {
                    break ;
                },
            }
        }
        self.current_node = Some(at);
        proof {
            lemma_root_is_first(self@, current as int);
            lemma_tree_linked(self@, at as int);
            if self@.nodes.len() <= 0x1_0000_0000 {
                lemma_tree_ids_distinct(self@, at as int);
            }
        }
        Ok(self.extract(at))
    }
}

/// Adding a node keeps the tree well formed.
pub proof fn lemma_add_node_well_formed(m: ParserModel, kind: StepKind, criteria: AssessmentModel)
    requires
        m.well_formed(),
        m.add_node(kind, criteria) is Some,
    ensures
        m.add_node(kind, criteria)->0.well_formed(),
{
    let after = m.add_node(kind, criteria)->0;
    let index = m.nodes.len() as int;
    assert forall|i: int, j: int| 0 <= i && j == i + 1 && j < after.nodes.len() implies (
    #[trigger] after.nodes[j]).id == following((#[trigger] after.nodes[i]).id) by {
        assert(after.nodes[i].id == m.nodes[i].id);
        if j < index {
            assert(after.nodes[j].id == m.nodes[j].id);
        }
    }
    assert forall|i: int| 0 <= i < after.nodes.len() implies match (#[trigger] after.nodes[i]).parent {
        Some(p) => 0 <= p < i,
        None => i == 0,
    } by {
        if i < index {
            assert(after.nodes[i].parent == m.nodes[i].parent);
        }
    }
    assert forall|i: int, k: int|
        0 <= i < after.nodes.len() && 0 <= k < after.nodes[i].children.len() implies {
        &&& i < (#[trigger] after.nodes[i].children[k]) < after.nodes.len()
        &&& after.nodes[after.nodes[i].children[k]].parent == Some(i)
    } by {
        if i < index {
            if k < m.nodes[i].children.len() {
                let c = m.nodes[i].children[k];
                assert(after.nodes[i].children[k] == c);
                assert(after.nodes[c].parent == m.nodes[c].parent);
            }
        }
    }
    assert forall|i: int|
        0 <= i < after.nodes.len() && (#[trigger] after.nodes[i]).kind == StepKind::Leaf implies after.nodes[i].children.len()
        == 0 by {
        if i < index {
            assert(after.nodes[i].kind == m.nodes[i].kind);
        }
    }
    assert forall|i: int, j: int, k: int|
        0 <= i < after.nodes.len() && 0 <= j < k < after.nodes[i].children.len() implies (
    #[trigger] after.nodes[i].children[j]) < (#[trigger] after.nodes[i].children[k]) by {
        if i < index {
            assert(after.nodes[i].children[j] == m.nodes[i].children[j]);
            assert(m.nodes[i].children[j] < index);
            if k < m.nodes[i].children.len() {
                assert(after.nodes[i].children[k] == m.nodes[i].children[k]);
            }
        }
    }
}

/// In a tree made from a well-formed parser, every step names the step above it as
/// its parent.
pub proof fn lemma_tree_linked(m: ParserModel, i: int)
    requires
        m.well_formed(),
        0 <= i < m.nodes.len(),
    ensures
        linked(tree(m.nodes, i)),
    decreases m.nodes.len() - i,
{
    let step = tree(m.nodes, i);
    assert forall|k: int| 0 <= k < step.children.len() implies {
        &&& (#[trigger] step.children[k]).parent == Some(step.id)
        &&& linked(step.children[k])
    } by {
        let c = m.nodes[i].children[k];
        assert(i < c < m.nodes.len());
        assert(m.nodes[c].parent == Some(i));
        lemma_tree_linked(m, c);
    }
}

/// Taking a character keeps the tree well formed.
pub proof fn lemma_step_well_formed(m: ParserModel, c: char, schema: Seq<CriterionModel>)
    requires
        m.well_formed(),
        m.step(c, schema) is Some,
    ensures
        m.step(c, schema)->0.well_formed(),
{
    match m.state {
        ParserState::DeterminingNodeType => {
            if c == '&' {
                lemma_add_node_well_formed(m, StepKind::And, unassessed());
            } else if c == '|' {
                lemma_add_node_well_formed(m, StepKind::Or, unassessed());
            }
        },
        ParserState::InAssessmentValue => {
            if c == '\n' {
                let committed = m.commit_assessment()->0;
                lemma_add_node_well_formed(
                    committed,
                    StepKind::Leaf,
                    committed.leaf_criteria(schema),
                );
            }
        },
        _ => {},
    }
}

/// Whatever of a text a well-formed parser takes, its tree stays well formed.
pub proof fn lemma_advance_well_formed(m: ParserModel, text: Seq<char>, schema: Seq<CriterionModel>)
    requires
        m.well_formed(),
    ensures
        m.advance(text, schema).well_formed(),
    decreases text.len(),
{
    if text.len() > 0 {
        match m.step(text[0], schema) {
            Some(next) => {
                lemma_step_well_formed(m, text[0], schema);
                lemma_advance_well_formed(next, text.drop_first(), schema);
            },
            None => {},
        }
    }
}

/// In a well-formed tree the way up ends at the first node, from wherever it starts.
pub proof fn lemma_root_is_first(m: ParserModel, i: int)
    requires
        m.well_formed(),
        0 <= i < m.nodes.len(),
    ensures
        root(m.nodes, i) == 0,
    decreases i,
{
    match m.nodes[i].parent {
        Some(p) => {
            lemma_root_is_first(m, p);
        },
        None => {},
    }
}

/// A parser that takes a character with an unreadable score takes no text that
/// holds it: reading stops there.
pub proof fn lemma_unreadable_score_is_refused(m: ParserModel, c: char, schema: Seq<CriterionModel>)
    requires
        m.state == ParserState::InAssessmentValue,
        c == ',' || c == '\n',
        decimal_value(trimmed(m.assessment_value)) is None,
    ensures
        m.step(c, schema) is None,
{
}

/// The identifier of each node is that of the first, advanced once for every node
/// between them.
pub proof fn lemma_ids_in_order(m: ParserModel, i: int)
    requires
        m.well_formed(),
        0 <= i < m.nodes.len(),
    ensures
        m.nodes[i].id == (m.nodes[0].id + i) % 0x1_0000_0000,
    decreases i,
{
    if i > 0 {
        lemma_ids_in_order(m, i - 1);
        assert(m.nodes[i].id == following(m.nodes[i - 1].id));
    }
}

/// No two nodes of a tree share an identifier, unless the tree has more nodes than
/// there are identifiers.
pub proof fn lemma_ids_distinct(m: ParserModel, i: int, j: int)
    requires
        m.well_formed(),
        m.nodes.len() <= 0x1_0000_0000,
        0 <= i < j < m.nodes.len(),
    ensures
        m.nodes[i].id != m.nodes[j].id,
{
    lemma_ids_in_order(m, i);
    lemma_ids_in_order(m, j);
}

/// Whether node `a` is node `from` or is reached from it by going up.
spec fn reaches(nodes: Seq<DraftModel>, from: int, a: int) -> bool
    decreases from,
{
    from == a || (0 <= from < nodes.len() && match nodes[from].parent {
        Some(p) => 0 <= p < from && reaches(nodes, p, a),
        None => false,
    })
}

/// The places of the nodes of the tree below node `i`, in the order in which
/// `flattened` lists its steps.
spec fn members(nodes: Seq<DraftModel>, i: int) -> Seq<int>
    decreases nodes.len() - i, 1int, 0nat,
{
    if 0 <= i < nodes.len() {
        seq![i] + members_below(nodes, i, nodes[i].children.len())
    } else {
        Seq::empty()
    }
}

/// The places of the nodes of the trees below the first `n` children of node `i`.
spec fn members_below(nodes: Seq<DraftModel>, i: int, n: nat) -> Seq<int>
    decreases nodes.len() - i, 0int, n,
{
    if n == 0 || !(0 <= i < nodes.len()) {
        Seq::empty()
    } else {
        let c = nodes[i].children[n - 1];
        members_below(nodes, i, (n - 1) as nat) + if i < c < nodes.len() {
            members(nodes, c)
        } else {
            Seq::empty()
        }
    }
}

/// Each of `steps` has the identifier of the node at the same position of `places`.
spec fn matching(nodes: Seq<DraftModel>, steps: Seq<StepModel>, places: Seq<int>) -> bool {
    &&& steps.len() == places.len()
    &&& forall|x: int|
        0 <= x < places.len() ==> 0 <= (#[trigger] places[x]) < nodes.len() && steps[x].id
            == nodes[places[x]].id
}

proof fn lemma_flattened_members(m: ParserModel, i: int)
    requires
        m.well_formed(),
        0 <= i < m.nodes.len(),
    ensures
        matching(m.nodes, flattened(tree(m.nodes, i)), members(m.nodes, i)),
    decreases m.nodes.len() - i, 1int, 0nat,
{
    let step = tree(m.nodes, i);
    let n = m.nodes[i].children.len();
    lemma_flattened_members_below(m, i, n);
    assert(step.children.take(n as int) =~= step.children);
    let below = members_below(m.nodes, i, n);
    let steps = flattened(step);
    let places = members(m.nodes, i);
    assert forall|x: int| 0 <= x < places.len() implies 0 <= (#[trigger] places[x])
        < m.nodes.len() && steps[x].id == m.nodes[places[x]].id by {
        if x > 0 {
            assert(places[x] == below[x - 1]);
            assert(steps[x] == flattened_all(step.children)[x - 1]);
        }
    }
}

proof fn lemma_flattened_members_below(m: ParserModel, i: int, n: nat)
    requires
        m.well_formed(),
        0 <= i < m.nodes.len(),
        n <= m.nodes[i].children.len(),
    ensures
        matching(
            m.nodes,
            flattened_all(tree(m.nodes, i).children.take(n as int)),
            members_below(m.nodes, i, n),
        ),
    decreases m.nodes.len() - i, 0int, n,
{
    let children = tree(m.nodes, i).children;
    if n > 0 {
        let c = m.nodes[i].children[n - 1];
        assert(i < c < m.nodes.len());
        lemma_flattened_members_below(m, i, (n - 1) as nat);
        lemma_flattened_members(m, c);
        let done = children.take(n as int);
        assert(done.drop_last() =~= children.take(n - 1));
        assert(done.last() == tree(m.nodes, c));
        let front_steps = flattened_all(children.take(n - 1));
        let front_places = members_below(m.nodes, i, (n - 1) as nat);
        let steps = flattened_all(done);
        let places = members_below(m.nodes, i, n);
        assert(steps == front_steps + flattened(tree(m.nodes, c)));
        assert(places == front_places + members(m.nodes, c));
        assert forall|x: int| 0 <= x < places.len() implies 0 <= (#[trigger] places[x])
            < m.nodes.len() && steps[x].id == m.nodes[places[x]].id by {
            if x < front_places.len() {
                assert(places[x] == front_places[x]);
                assert(steps[x] == front_steps[x]);
            } else {
                assert(places[x] == members(m.nodes, c)[x - front_places.len()]);
                assert(steps[x] == flattened(tree(m.nodes, c))[x - front_places.len()]);
            }
        }
    } else {
        assert(children.take(0) =~= Seq::empty());
    }
}

proof fn lemma_reaches_below(nodes: Seq<DraftModel>, from: int, a: int)
    requires
        reaches(nodes, from, a),
    ensures
        a <= from,
    decreases from,
{
    if from != a {
        lemma_reaches_below(nodes, nodes[from].parent->0, a);
    }
}

proof fn lemma_reaches_on(nodes: Seq<DraftModel>, from: int, a: int, b: int)
    requires
        reaches(nodes, from, a),
        reaches(nodes, a, b),
    ensures
        reaches(nodes, from, b),
    decreases from,
{
    if from != a {
        lemma_reaches_on(nodes, nodes[from].parent->0, a, b);
    }
}

/// Going up from a node, at most one child of a given node is passed.
proof fn lemma_one_way_up(m: ParserModel, from: int, c1: int, c2: int, i: int)
    requires
        m.well_formed(),
        0 <= c1 < m.nodes.len(),
        0 <= c2 < m.nodes.len(),
        m.nodes[c1].parent == Some(i),
        m.nodes[c2].parent == Some(i),
        reaches(m.nodes, from, c1),
        reaches(m.nodes, from, c2),
    ensures
        c1 == c2,
    decreases from,
{
    if from == c1 {
        if c1 != c2 {
            assert(reaches(m.nodes, i, c2));
            lemma_reaches_below(m.nodes, i, c2);
        }
    } else if from == c2 {
        assert(reaches(m.nodes, i, c1));
        lemma_reaches_below(m.nodes, i, c1);
    } else {
        lemma_one_way_up(m, m.nodes[from].parent->0, c1, c2, i);
    }
}

proof fn lemma_members_reach(m: ParserModel, i: int)
    requires
        m.well_formed(),
        0 <= i < m.nodes.len(),
    ensures
        forall|x: int|
            0 <= x < members(m.nodes, i).len() ==> reaches(
                m.nodes,
                #[trigger] members(m.nodes, i)[x],
                i,
            ),
    decreases m.nodes.len() - i, 1int, 0nat,
{
    let n = m.nodes[i].children.len();
    lemma_members_below_reach(m, i, n);
    let places = members(m.nodes, i);
    let below = members_below(m.nodes, i, n);
    assert forall|x: int| 0 <= x < places.len() implies reaches(m.nodes, #[trigger] places[x], i) by {
        if x > 0 {
            assert(places[x] == below[x - 1]);
            let k = choose|k: int|
                0 <= k < n && reaches(m.nodes, below[x - 1], m.nodes[i].children[k]);
            let c = m.nodes[i].children[k];
            assert(i < c < m.nodes.len());
            assert(m.nodes[c].parent == Some(i));
            assert(reaches(m.nodes, i, i));
            assert(reaches(m.nodes, c, i));
            lemma_reaches_on(m.nodes, places[x], c, i);
        }
    }
}

proof fn lemma_members_below_reach(m: ParserModel, i: int, n: nat)
    requires
        m.well_formed(),
        0 <= i < m.nodes.len(),
        n <= m.nodes[i].children.len(),
    ensures
        forall|x: int|
            0 <= x < members_below(m.nodes, i, n).len() ==> exists|k: int|
                0 <= k < n && reaches(
                    m.nodes,
                    #[trigger] members_below(m.nodes, i, n)[x],
                    m.nodes[i].children[k],
                ),
    decreases m.nodes.len() - i, 0int, n,
{
    if n > 0 {
        let c = m.nodes[i].children[n - 1];
        assert(i < c < m.nodes.len());
        lemma_members_below_reach(m, i, (n - 1) as nat);
        lemma_members_reach(m, c);
        let front = members_below(m.nodes, i, (n - 1) as nat);
        let places = members_below(m.nodes, i, n);
        assert(places == front + members(m.nodes, c));
        assert forall|x: int| 0 <= x < places.len() implies exists|k: int|
            0 <= k < n && reaches(m.nodes, #[trigger] places[x], m.nodes[i].children[k]) by {
            if x < front.len() {
                assert(places[x] == front[x]);
                let k = choose|k: int|
                    0 <= k < n - 1 && reaches(m.nodes, front[x], m.nodes[i].children[k]);
                assert(reaches(m.nodes, places[x], m.nodes[i].children[k]));
            } else {
                assert(places[x] == members(m.nodes, c)[x - front.len()]);
                assert(reaches(m.nodes, places[x], m.nodes[i].children[n - 1]));
            }
        }
    }
}

proof fn lemma_members_distinct(m: ParserModel, i: int)
    requires
        m.well_formed(),
        0 <= i < m.nodes.len(),
    ensures
        members(m.nodes, i).no_duplicates(),
    decreases m.nodes.len() - i, 1int, 0nat,
{
    let n = m.nodes[i].children.len();
    lemma_members_below_distinct(m, i, n);
    lemma_members_below_reach(m, i, n);
    let places = members(m.nodes, i);
    let below = members_below(m.nodes, i, n);
    assert forall|x: int, y: int| 0 <= x < places.len() && 0 <= y < places.len() && x != y implies places[x]
        != places[y] by {
        if x > 0 && y > 0 {
            assert(places[x] == below[x - 1] && places[y] == below[y - 1]);
        } else {
            let z = if x > 0 {
                x
            } else {
                y
            };
            assert(places[z] == below[z - 1]);
            let k = choose|k: int|
                0 <= k < n && reaches(m.nodes, below[z - 1], m.nodes[i].children[k]);
            lemma_reaches_below(m.nodes, below[z - 1], m.nodes[i].children[k]);
            assert(i < m.nodes[i].children[k]);
        }
    }
}

proof fn lemma_members_below_distinct(m: ParserModel, i: int, n: nat)
    requires
        m.well_formed(),
        0 <= i < m.nodes.len(),
        n <= m.nodes[i].children.len(),
    ensures
        members_below(m.nodes, i, n).no_duplicates(),
    decreases m.nodes.len() - i, 0int, n,
{
    if n > 0 {
        let c = m.nodes[i].children[n - 1];
        assert(i < c < m.nodes.len());
        assert(m.nodes[c].parent == Some(i));
        lemma_members_below_distinct(m, i, (n - 1) as nat);
        lemma_members_below_reach(m, i, (n - 1) as nat);
        lemma_members_distinct(m, c);
        lemma_members_reach(m, c);
        let front = members_below(m.nodes, i, (n - 1) as nat);
        let last = members(m.nodes, c);
        let places = members_below(m.nodes, i, n);
        assert(places == front + last);
        assert forall|x: int, y: int| 0 <= x < y < places.len() implies places[x] != places[y] by {
            if y < front.len() {
                assert(places[x] == front[x] && places[y] == front[y]);
            } else if x >= front.len() {
                assert(places[x] == last[x - front.len()] && places[y] == last[y - front.len()]);
            } else {
                assert(places[x] == front[x] && places[y] == last[y - front.len()]);
                if places[x] == places[y] {
                    let k = choose|k: int|
                        0 <= k < n - 1 && reaches(m.nodes, front[x], m.nodes[i].children[k]);
                    let other = m.nodes[i].children[k];
                    assert(i < other < m.nodes.len());
                    assert(m.nodes[other].parent == Some(i));
                    assert(other < c);
                    lemma_one_way_up(m, places[x], other, c, i);
                }
            }
        }
    }
}

/// No two steps of a tree made from a well-formed parser share an identifier,
/// unless the parser holds more nodes than there are identifiers.
pub proof fn lemma_tree_ids_distinct(m: ParserModel, i: int)
    requires
        m.well_formed(),
        0 <= i < m.nodes.len(),
        m.nodes.len() <= 0x1_0000_0000,
    ensures
        distinct_ids(tree(m.nodes, i)),
{
    lemma_flattened_members(m, i);
    lemma_members_distinct(m, i);
    let steps = flattened(tree(m.nodes, i));
    let places = members(m.nodes, i);
    assert forall|a: int, b: int| 0 <= a < b < steps.len() implies (#[trigger] steps[a]).id != (
    #[trigger] steps[b]).id by {
        assert(places[a] != places[b]);
        if places[a] < places[b] {
            lemma_ids_distinct(m, places[a], places[b]);
        } else {
            lemma_ids_distinct(m, places[b], places[a]);
        }
    }
}

} // verus!
