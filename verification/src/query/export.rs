//! Export a graph as Graphviz DOT or Mermaid text.

use vstd::prelude::*;
use crate::model::{CodeGraph, Edge, Node, edge_kind_str, node_kind_str};
use crate::text::{chars_of, is_ascii_alnum, owned, push_char, push_str};

verus! {

/// The export formats. JSON is the graph's own serialized form.
#[derive(Clone, Copy, Debug, PartialEq, Eq, Structural)]
pub enum ExportFormat {
    Dot,
    Mermaid,
    Json,
}

/// The name of a format.
pub open spec fn format_name_spec(f: ExportFormat) -> Seq<char> {
    match f {
        ExportFormat::Dot => "dot"@,
        ExportFormat::Mermaid => "mermaid"@,
        ExportFormat::Json => "json"@,
    }
}

/// The name of a format.
pub fn format_name(f: ExportFormat) -> (r: &'static str)
    ensures
        r@ == format_name_spec(f),
{
    proof {
        reveal_strlit("dot");
        reveal_strlit("mermaid");
        reveal_strlit("json");
    }
    match f {
        ExportFormat::Dot => "dot",
        ExportFormat::Mermaid => "mermaid",
        ExportFormat::Json => "json",
    }
}

/// An identifier safe in both formats: ASCII letters and digits kept,
/// anything else made `_`.
pub open spec fn sanitize_id_spec(s: Seq<char>) -> Seq<char> {
    s.map_values(|c: char| if is_ascii_alnum(c) { c } else { '_' })
}

/// A text inside a DOT string: `\` and `"` escaped with a backslash.
pub open spec fn escape_dot_spec(s: Seq<char>) -> Seq<char>
    decreases s.len(),
{
    if s.len() == 0 {
        Seq::empty()
    } else {
        let c = s.last();
        escape_dot_spec(s.drop_last()) + if c == '\\' {
            seq!['\\', '\\']
        } else if c == '"' {
            seq!['\\', '"']
        } else {
            seq![c]
        }
    }
}

fn sanitize_id(s: &str) -> (r: String)
    ensures
        r@ == sanitize_id_spec(s@),
{
    let v = chars_of(s);
    let mut r = String::new();
    let mut i: usize = 0;
    while i < v.len()
        invariant
            i <= v@.len(),
            v@ == s@,
            r@ == sanitize_id_spec(s@.take(i as int)),
        decreases v@.len() - i,
    {
        let c = v[i];
        let keep = ('a' <= c && c <= 'z') || ('A' <= c && c <= 'Z') || ('0' <= c && c <= '9');
        push_char(&mut r, if keep {
            c
        } else {
            '_'
        });
        assert(sanitize_id_spec(s@.take(i + 1)) =~= sanitize_id_spec(s@.take(i as int)).push(
            if keep {
                c
            } else {
                '_'
            },
        ));
        i = i + 1;
    }
    assert(s@.take(v@.len() as int) =~= s@);
    r
}

fn escape_dot(s: &str) -> (r: String)
    ensures
        r@ == escape_dot_spec(s@),
{
    let v = chars_of(s);
    let mut r = String::new();
    let mut i: usize = 0;
    while i < v.len()
        invariant
            i <= v@.len(),
            v@ == s@,
            r@ == escape_dot_spec(s@.take(i as int)),
        decreases v@.len() - i,
    {
        let c = v[i];
        assert(s@.take(i + 1).drop_last() =~= s@.take(i as int));
        let ghost before = r@;
        if c == '\\' {
            push_char(&mut r, '\\');
            push_char(&mut r, '\\');
            assert(r@ =~= before + seq!['\\', '\\']);
        } else if c == '"' {
            push_char(&mut r, '\\');
            push_char(&mut r, '"');
            assert(r@ =~= before + seq!['\\', '"']);
        } else {
            push_char(&mut r, c);
            assert(r@ =~= before + seq![c]);
        }
        i = i + 1;
    }
    assert(s@.take(v@.len() as int) =~= s@);
    r
}

/// A node's label: `name [kind]`.
pub open spec fn node_label(n: Node) -> Seq<char> {
    n.name@ + " ["@ + node_kind_str(n.kind) + "]"@
}

/// The DOT line of a node.
pub open spec fn dot_node_line(n: Node) -> Seq<char> {
    "  \""@ + sanitize_id_spec(n.id@) + "\" [label=\""@ + escape_dot_spec(node_label(n)) + "\"];\n"@
}

/// The DOT line of an edge.
pub open spec fn dot_edge_line(e: Edge) -> Seq<char> {
    "  \""@ + sanitize_id_spec(e.from@) + "\" -> \""@ + sanitize_id_spec(e.to@) + "\" [label=\""@
        + escape_dot_spec(edge_kind_str(e.kind)) + "\"];\n"@
}

/// The Mermaid line of a node.
pub open spec fn mermaid_node_line(n: Node) -> Seq<char> {
    "  "@ + sanitize_id_spec(n.id@) + "[\""@ + node_label(n) + "\"]\n"@
}

/// The Mermaid line of an edge.
pub open spec fn mermaid_edge_line(e: Edge) -> Seq<char> {
    "  "@ + sanitize_id_spec(e.from@) + " -->|"@ + edge_kind_str(e.kind) + "| "@ + sanitize_id_spec(
        e.to@,
    ) + "\n"@
}

/// The lines of the first `k` nodes in a format.
pub open spec fn node_lines(nodes: Seq<Node>, k: int, dot: bool) -> Seq<char>
    decreases k,
{
    if k <= 0 || k > nodes.len() {
        Seq::empty()
    } else {
        node_lines(nodes, k - 1, dot) + if dot {
            dot_node_line(nodes[k - 1])
        } else {
            mermaid_node_line(nodes[k - 1])
        }
    }
}

/// The lines of the first `k` edges in a format.
pub open spec fn edge_lines(edges: Seq<Edge>, k: int, dot: bool) -> Seq<char>
    decreases k,
{
    if k <= 0 || k > edges.len() {
        Seq::empty()
    } else {
        edge_lines(edges, k - 1, dot) + if dot {
            dot_edge_line(edges[k - 1])
        } else {
            mermaid_edge_line(edges[k - 1])
        }
    }
}

/// The text of a graph in a format: DOT with a `digraph pyscope`
/// left-to-right, or a Mermaid `graph LR`; a line per node, then per edge.
pub open spec fn export_text(g: CodeGraph, dot: bool) -> Seq<char> {
    if dot {
        "digraph pyscope {\n  rankdir=LR;\n"@ + node_lines(g.nodes@, g.nodes@.len() as int, true)
            + edge_lines(g.edges@, g.edges@.len() as int, true) + "}\n"@
    } else {
        "graph LR\n"@ + node_lines(g.nodes@, g.nodes@.len() as int, false) + edge_lines(
            g.edges@,
            g.edges@.len() as int,
            false,
        )
    }
}

fn push_node_line(out: &mut String, n: &Node, dot: bool)
    ensures
        final(out)@ == old(out)@ + if dot {
            dot_node_line(*n)
        } else {
            mermaid_node_line(*n)
        },
{
    proof {
        reveal_strlit(" [");
        reveal_strlit("]");
        reveal_strlit("  \"");
        reveal_strlit("\" [label=\"");
        reveal_strlit("\"];\n");
        reveal_strlit("  ");
        reveal_strlit("[\"");
        reveal_strlit("\"]\n");
    }
    let mut label = owned(n.name.as_str());
    push_str(&mut label, " [");
    push_str(&mut label, n.kind.as_str());
    push_str(&mut label, "]");
    let id = sanitize_id(n.id.as_str());
    if dot {
        let esc = escape_dot(label.as_str());
        push_str(out, "  \"");
        push_str(out, id.as_str());
        push_str(out, "\" [label=\"");
        push_str(out, esc.as_str());
        push_str(out, "\"];\n");
    } else {
        push_str(out, "  ");
        push_str(out, id.as_str());
        push_str(out, "[\"");
        push_str(out, label.as_str());
        push_str(out, "\"]\n");
    }
}

fn push_edge_line(out: &mut String, e: &Edge, dot: bool)
    ensures
        final(out)@ == old(out)@ + if dot {
            dot_edge_line(*e)
        } else {
            mermaid_edge_line(*e)
        },
{
    proof {
        reveal_strlit("  \"");
        reveal_strlit("\" -> \"");
        reveal_strlit("\" [label=\"");
        reveal_strlit("\"];\n");
        reveal_strlit("  ");
        reveal_strlit(" -->|");
        reveal_strlit("| ");
        reveal_strlit("\n");
    }
    let from = sanitize_id(e.from.as_str());
    let to = sanitize_id(e.to.as_str());
    if dot {
        let esc = escape_dot(e.kind.as_str());
        push_str(out, "  \"");
        push_str(out, from.as_str());
        push_str(out, "\" -> \"");
        push_str(out, to.as_str());
        push_str(out, "\" [label=\"");
        push_str(out, esc.as_str());
        push_str(out, "\"];\n");
    } else {
        push_str(out, "  ");
        push_str(out, from.as_str());
        push_str(out, " -->|");
        push_str(out, e.kind.as_str());
        push_str(out, "| ");
        push_str(out, to.as_str());
        push_str(out, "\n");
    }
}

/// The graph as DOT or Mermaid text; `None` for JSON, which is the graph's
/// own serialized form.
pub fn export(graph: &CodeGraph, format: ExportFormat) -> (r: Option<String>)
    ensures
        match format {
            ExportFormat::Dot => r matches Some(t) && t@ == export_text(*graph, true),
            ExportFormat::Mermaid => r matches Some(t) && t@ == export_text(*graph, false),
            ExportFormat::Json => r is None,
        },
{
    let dot = match format {
        ExportFormat::Dot => true,
        ExportFormat::Mermaid => false,
        ExportFormat::Json => {
            return None;
        },
    };
    proof {
        reveal_strlit("digraph pyscope {\n  rankdir=LR;\n");
        reveal_strlit("graph LR\n");
        reveal_strlit("}\n");
    }
    let mut out = if dot {
        owned("digraph pyscope {\n  rankdir=LR;\n")
    } else {
        owned("graph LR\n")
    };
    let ghost head = out@;
    let mut i: usize = 0;
    while i < graph.nodes.len()
        invariant
            i <= graph.nodes@.len(),
            out@ == head + node_lines(graph.nodes@, i as int, dot),
        decreases graph.nodes@.len() - i,
    {
        push_node_line(&mut out, &graph.nodes[i], dot);
        i = i + 1;
    }
    let ghost mid = out@;
    let mut j: usize = 0;
    while j < graph.edges.len()
        invariant
            j <= graph.edges@.len(),
            out@ == mid + edge_lines(graph.edges@, j as int, dot),
        decreases graph.edges@.len() - j,
    {
        push_edge_line(&mut out, &graph.edges[j], dot);
        j = j + 1;
    }
    if dot {
        push_str(&mut out, "}\n");
    }
    Some(out)
}

} // verus!
