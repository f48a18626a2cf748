//! Rendering of a mapping as a directed-graph description.

use crate::deptree::{targets, texts, DepEntry, DepTree, Edges};
use vstd::prelude::*;
use vstd::string::StringExecFns;

verus! {

/// A name between double quotes. The name is written as it is.
pub open spec fn quoted(n: Seq<char>) -> Seq<char> {
    "\""@ + n + "\""@
}

/// The members of a bracketed group: each name quoted and followed by a space.
pub open spec fn group(t: Seq<Seq<char>>) -> Seq<char>
    decreases t.len(),
{
    if t.len() == 0 {
        Seq::empty()
    } else {
        group(t.drop_last()) + quoted(t.last()) + " "@
    }
}

/// The line of one node: a bare declaration where it lists nothing, one edge
/// where it lists one name, an edge to a bracketed group where it lists more.
pub open spec fn statement(e: Edges) -> Seq<char> {
    let t = targets(e);
    if t.len() == 0 {
        "\t"@ + quoted(e.name) + ";\n"@
    } else if t.len() == 1 {
        "\t"@ + quoted(e.name) + " -> "@ + quoted(t[0]) + ";\n"@
    } else {
        "\t"@ + quoted(e.name) + " -> { "@ + group(t) + "};\n"@
    }
}

/// The lines of all nodes, in the order of the entries.
pub open spec fn statements(m: Seq<Edges>) -> Seq<char>
    decreases m.len(),
{
    if m.len() == 0 {
        Seq::empty()
    } else {
        statements(m.drop_last()) + statement(m.last())
    }
}

/// The whole description: header, one line for each node, footer.
pub open spec fn dot_text(m: Seq<Edges>) -> Seq<char> {
    "digraph {\n"@ + statements(m) + "}\n"@
}

/// Appends `name` between double quotes.
fn write_quoted(out: &mut String, name: &String)
    ensures
        final(out)@ == old(out)@ + quoted(name@),
{
    out.append("\"");
    out.append(name.as_str());
    out.append("\"");
    assert(out@ =~= old(out)@ + quoted(name@));
}

/// Appends the members of a bracketed group.
fn write_group(out: &mut String, names: &Vec<String>)
    ensures
        final(out)@ == old(out)@ + group(texts(names@)),
{
    let ghost all = texts(names@);
    let mut j: usize = 0;
    assert(out@ =~= old(out)@ + group(all.take(0)));
    while j < names.len()
        invariant
            j <= names@.len(),
            all == texts(names@),
            out@ == old(out)@ + group(all.take(j as int)),
        decreases names@.len() - j,
    {
        let ghost before = out@;
        write_quoted(out, &names[j]);
        out.append(" ");
        proof {
            let next = all.take(j + 1);
            assert(next.drop_last() =~= all.take(j as int));
            assert(next.last() == names@[j as int]@);
            assert(out@ =~= old(out)@ + group(next));
        }
        j += 1;
    }
    assert(all.take(j as int) =~= all);
}

/// Appends the line of one node.
fn write_statement(out: &mut String, entry: &DepEntry)
    ensures
        final(out)@ == old(out)@ + statement(entry@),
{
    out.append("\t");
    write_quoted(out, &entry.name);
    match &entry.deps {
        None => {
            out.append(";\n");
        },
        Some(deps) => {
            if deps.len() == 0 {
                out.append(";\n");
            } else if deps.len() == 1 {
                out.append(" -> ");
                write_quoted(out, &deps[0]);
                out.append(";\n");
            } else {
                out.append(" -> { ");
                write_group(out, deps);
                out.append("};\n");
            }
        },
    }
    assert(out@ =~= old(out)@ + statement(entry@));
}

/// Renders `graph` as a directed-graph description: a header line, one line
/// for each key in the order of the keys, and a footer line. Each key stands
/// in one line, followed there by each name it lists.
pub fn serialize(graph: &DepTree) -> (text: String)
    ensures
        text@ == dot_text(graph@),
{
    let mut text = String::from_str("digraph {\n");
    let mut i: usize = 0;
    assert(text@ =~= "digraph {\n"@ + statements(graph@.take(0)));
    while i < graph.len()
        invariant
            i <= graph@.len(),
            text@ == "digraph {\n"@ + statements(graph@.take(i as int)),
        decreases graph@.len() - i,
    {
        write_statement(&mut text, graph.entry(i));
        proof {
            let next = graph@.take(i + 1);
            assert(next.drop_last() =~= graph@.take(i as int));
            assert(next.last() == graph@[i as int]);
            assert(text@ =~= "digraph {\n"@ + statements(next));
        }
        i += 1;
    }
    assert(graph@.take(i as int) =~= graph@);
    text.append("}\n");
    text
}

} // verus!
