//! Attack trees as text: a diagram description, and a table of threats.

use crate::model::feasible_step::{FeasibleStep, StepModel};
use crate::model::nodes::Step;
use crate::text::{decimal, push_decimal};
use vstd::prelude::*;
use vstd::string::*;

verus! {

#[derive(Debug, PartialEq, Eq, Structural)]
pub enum RenderError {
    FileWriteError,
}

/// A step, followed by all that is below it: each child's steps in turn.
pub open spec fn flattened(step: StepModel) -> Seq<StepModel>
    decreases step, 1int,
{
    seq![step] + flattened_all(step.children)
}

/// The steps of one tree after the other.
pub open spec fn flattened_all(steps: Seq<StepModel>) -> Seq<StepModel>
    decreases steps, 0int,
{
    if steps.len() == 0 {
        Seq::empty()
    } else {
        flattened_all(steps.drop_last()) + flattened(steps.last())
    }
}

/// `lines` with `separator` between each two of them.
pub open spec fn joined(lines: Seq<Seq<char>>, separator: Seq<char>) -> Seq<char>
    decreases lines.len(),
{
    if lines.len() == 0 {
        Seq::empty()
    } else if lines.len() == 1 {
        lines[0]
    } else {
        joined(lines.drop_last(), separator) + separator + lines.last()
    }
}

/// The line that declares a step in a diagram: its id, and its label in brackets.
pub open spec fn label_line(step: StepModel) -> Seq<char> {
    decimal(step.id as nat) + " ["@ + step.label() + "]"@
}

/// The line that draws the edge from a parent to a step.
pub open spec fn edge_line(parent: u32, id: u32) -> Seq<char> {
    decimal(parent as nat) + " -> "@ + decimal(id as nat) + ";"@
}

/// The declaration of each of `steps`, in order.
pub open spec fn label_lines(steps: Seq<StepModel>) -> Seq<Seq<char>> {
    Seq::new(steps.len(), |i: int| label_line(steps[i]))
}

/// The edge of each of `steps` that has a parent, in order.
pub open spec fn edge_lines(steps: Seq<StepModel>) -> Seq<Seq<char>>
    decreases steps.len(),
{
    if steps.len() == 0 {
        Seq::empty()
    } else {
        match steps.last().parent {
            Some(parent) => edge_lines(steps.drop_last()).push(edge_line(parent, steps.last().id)),
            None => edge_lines(steps.drop_last()),
        }
    }
}

/// The description of a tree as a directed graph: the declarations of all its
/// steps, parents before children, then the edges.
pub open spec fn dot_text(root: StepModel) -> Seq<char> {
    "digraph G {\n\nnode [shape=box]\n\n"@ + joined(label_lines(flattened(root)), "\n"@) + "\n\n"@
        + joined(edge_lines(flattened(root)), "\n"@) + "\n\n}"@
}

/// The row of a threat in the table: id, title and feasibility value, and two
/// columns left empty.
pub open spec fn table_row(step: StepModel) -> Seq<char> {
    "| "@ + decimal(step.id as nat) + " | "@ + step.title + " | "@ + decimal(
        step.feasibility_value(),
    ) + " | | |\n"@
}

/// The rows of `steps`, one after the other.
pub open spec fn table_rows(steps: Seq<StepModel>) -> Seq<char>
    decreases steps.len(),
{
    if steps.len() == 0 {
        Seq::empty()
    } else {
        table_rows(steps.drop_last()) + table_row(steps.last())
    }
}

/// The table of threats before it is laid out: the header, the delimiter row and
/// a row for each step.
pub open spec fn table_source(steps: Seq<StepModel>) -> Seq<char> {
    "| Threat Id | Threat | Feasbility | Impact | Risk |\n"@ + "|--|--|--|--|--|\n"@ + table_rows(
        steps,
    )
}

/// The models of the steps that `steps` refers to.
pub open spec fn models(steps: Seq<&Step>) -> Seq<StepModel> {
    Seq::new(steps.len(), |i: int| (*steps[i])@)
}

/// What each of `lines` spells.
pub open spec fn texts(lines: Seq<String>) -> Seq<Seq<char>> {
    Seq::new(lines.len(), |i: int| lines[i]@)
}

/// Whether a document holds no carriage return.
pub open spec fn without_carriage_return(doc: Seq<char>) -> bool {
    forall|i: int| 0 <= i < doc.len() ==> doc[i] != '\r'
}

/// What `markdown_table_formatter::format_tables` makes of a document.
pub uninterp spec fn formatted_tables(doc: Seq<char>) -> Seq<char>;

/// `markdown_table_formatter::format_tables`: the document with its tables laid
/// out in columns. The result depends on the document alone.
///
/// A document with a carriage return is left out. The formatter finds its tables
/// by line numbers that count a carriage return as the end of a line, and cuts
/// the document by counting line feeds only; where the two counts part, it
/// slices the document backwards and panics.
#[verifier::external_body]
fn format_tables(doc: String) -> (r: String)
    requires
        without_carriage_return(doc@),
    ensures
        r@ == formatted_tables(doc@),
{
    markdown_table_formatter::format_tables(doc)
}

/// Appends `node` and then all that is below it to `result`.
pub fn flatten<'a>(node: &'a Step, result: &mut Vec<&'a Step>)
    ensures
        models(final(result)@) == models(old(result)@) + flattened(node@),
    decreases node,
{
    result.push(node);
    assert(models(result@) =~= models(old(result)@) + seq![node@]);
    let children: &'a Vec<Step> = match node {
        Step::Leaf(_) => {
            assert(flattened_all(node@.children) =~= Seq::empty());
            assert(models(result@) =~= models(old(result)@) + flattened(node@));
            return ;
        },
        Step::And(n) => &n.children,
        Step::Or(n) => &n.children,
    };
    let mut i: usize = 0;
    assert(node@.children.take(0) =~= Seq::empty());
    while i < children.len()
        invariant
            i <= children.len(),
            decreases_to!(node => children),
            node@.children.len() == children.len(),
            forall|k: int| 0 <= k < children.len() ==> node@.children[k] == children@[k]@,
            models(result@) == models(old(result)@) + seq![node@] + flattened_all(
                node@.children.take(i as int),
            ),
        decreases children.len() - i,
    {
        let ghost before = models(result@);
        flatten(&children[i], result);
        proof {
            let done = node@.children.take(i + 1);
            assert(done.drop_last() =~= node@.children.take(i as int));
            assert(done.last() == children@[i as int]@);
            assert(models(result@) =~= models(old(result)@) + seq![node@] + flattened_all(done));
        }
        i += 1;
    }
    assert(node@.children.take(i as int) =~= node@.children);
    assert(models(result@) =~= models(old(result)@) + flattened(node@));
}

/// Joins `lines`, with `separator` between each two of them.
fn join(lines: &Vec<String>, separator: &str) -> (r: String)
    ensures
        r@ == joined(texts(lines@), separator@),
{
    let mut out = String::new();
    let mut i: usize = 0;
    assert(texts(lines@).take(0) =~= Seq::empty());
    while i < lines.len()
        invariant
            i <= lines.len(),
            out@ == joined(texts(lines@).take(i as int), separator@),
        decreases lines.len() - i,
    {
        let ghost before = out@;
        if i > 0 {
            out.append(separator);
        }
        out.append(lines[i].as_str());
        proof {
            let done = texts(lines@).take(i + 1);
            assert(done.drop_last() =~= texts(lines@).take(i as int));
            assert(done.last() == lines@[i as int]@);
            if i == 0 {
                assert(out@ =~= done[0]);
            } else {
                assert(out@ =~= before + separator@ + done.last());
            }
        }
        i += 1;
    }
    assert(texts(lines@).take(i as int) =~= texts(lines@));
    out
}

/// Describes the tree below `root_node` as a directed graph.
pub fn render_to_dot_string(root_node: &Step) -> (r: Result<String, RenderError>)
    ensures
        r matches Ok(text) && text@ == dot_text(root_node@),
{
    let mut flat_nodes_list: Vec<&Step> = Vec::new();
    flatten(root_node, &mut flat_nodes_list);
    let ghost steps = flattened(root_node@);
    assert(models(flat_nodes_list@) =~= steps);

    let mut labels_texts: Vec<String> = Vec::new();
    let mut edges_texts: Vec<String> = Vec::new();
    let mut i: usize = 0;
    assert(steps.take(0) =~= Seq::empty());
    assert(texts(edges_texts@) =~= edge_lines(steps.take(0)));
    while i < flat_nodes_list.len()
        invariant
            i <= flat_nodes_list.len(),
            models(flat_nodes_list@) == steps,
            labels_texts@.len() == i,
            forall|k: int| 0 <= k < i ==> (#[trigger] labels_texts@[k])@ == label_line(steps[k]),
            texts(edges_texts@) == edge_lines(steps.take(i as int)),
        decreases flat_nodes_list.len() - i,
    {
        let node: &Step = flat_nodes_list[i];
        assert(steps[i as int] == node@);
        let mut line = String::new();
        push_decimal(&mut line, node.id() as u128);
        line.append(" [");
        line.append(node.render().as_str());
        line.append("]");
        assert(line@ =~= label_line(node@));
        labels_texts.push(line);

        proof {
            let done = steps.take(i + 1);
            assert(done.drop_last() =~= steps.take(i as int));
            assert(done.last() == node@);
        }
        if let Some(parent) = node.get_parent() {
            let mut edge = String::new();
            push_decimal(&mut edge, parent as u128);
            edge.append(" -> ");
            push_decimal(&mut edge, node.id() as u128);
            edge.append(";");
            assert(edge@ =~= edge_line(parent, node@.id));
            edges_texts.push(edge);
            assert(texts(edges_texts@) =~= edge_lines(steps.take(i + 1)));
        }
        i += 1;
    }
    assert(steps.take(i as int) =~= steps);
    assert(texts(labels_texts@) =~= label_lines(steps));

    let mut dot_content = String::new();
    dot_content.append("digraph G {\n\nnode [shape=box]\n\n");
    dot_content.append(join(&labels_texts, "\n").as_str());
    dot_content.append("\n\n");
    dot_content.append(join(&edges_texts, "\n").as_str());
    dot_content.append("\n\n}");
    assert(dot_content@ =~= dot_text(root_node@));
    Ok(dot_content)
}

/// The table of threats, one row for each of `root_nodes`, before it is laid out.
pub fn markdown_table_source(root_nodes: &Vec<&Step>) -> (r: String)
    ensures
        r@ == table_source(models(root_nodes@)),
{
    let ghost steps = models(root_nodes@);
    let mut result = String::new();
    result.append("| Threat Id | Threat | Feasbility | Impact | Risk |\n");
    result.append("|--|--|--|--|--|\n");
    let ghost head = result@;
    let mut i: usize = 0;
    assert(steps.take(0) =~= Seq::empty());
    assert(result@ =~= head + table_rows(steps.take(0)));
    while i < root_nodes.len()
        invariant
            i <= root_nodes.len(),
            steps == models(root_nodes@),
            result@ == head + table_rows(steps.take(i as int)),
        decreases root_nodes.len() - i,
    {
        let node: &Step = root_nodes[i];
        let ghost before = result@;
        let value: u128 = match node.feasibility() {
            Ok(f) => f.exact_sum(),
            Err(_) => 0,
        };
        result.append("| ");
        push_decimal(&mut result, node.id() as u128);
        result.append(" | ");
        result.append(node.title());
        result.append(" | ");
        push_decimal(&mut result, value);
        result.append(" | | |\n");
        proof {
            let done = steps.take(i + 1);
            assert(done.drop_last() =~= steps.take(i as int));
            assert(done.last() == node@);
            assert(result@ =~= before + table_row(node@));
            assert(result@ =~= head + table_rows(done));
        }
        i += 1;
    }
    assert(steps.take(i as int) =~= steps);
    assert(head =~= "| Threat Id | Threat | Feasbility | Impact | Risk |\n"@ + "|--|--|--|--|--|\n"@);
    result
}

/// Whether the table of `root_nodes` can be laid out: whether it holds no carriage
/// return.
pub fn can_render_to_markdown_table(root_nodes: &Vec<&Step>) -> (r: bool)
    ensures
        r == without_carriage_return(table_source(models(root_nodes@))),
{
    let source = markdown_table_source(root_nodes);
    for c in it: source.as_str().chars()
        invariant
            it.seq() == source@,
            source@ == table_source(models(root_nodes@)),
            forall|i: int| 0 <= i < it.index() ==> source@[i] != '\r',
    {
        if c == '\r' {
            assert(source@[it.index() as int] == '\r');
            return false;
        }
    }
    true
}

/// The table of threats, one row for each of `root_nodes`, laid out in columns.
/// The table may hold no carriage return: `can_render_to_markdown_table` tells.
pub fn render_to_markdown_table(root_nodes: Vec<&Step>) -> (r: String)
    requires
        without_carriage_return(table_source(models(root_nodes@))),
    ensures
        r@ == formatted_tables(table_source(models(root_nodes@))),
{
    format_tables(markdown_table_source(&root_nodes))
}

} // verus!
