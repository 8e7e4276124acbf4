//! Diagram models to coloured Unicode text.
use vstd::prelude::*;
use crate::color::{
    Ansi, blue, bold, bright_cyan, bright_green, bright_yellow, color_of_lower,
    color_panics, color_would_panic, cyan, dim, green, lemma_ansi_codes, magenta, reset,
    white, yellow,
};
use crate::parser::{
    Edge, EdgeType, Flowchart, Node, NodeShape, SpecEdge, SpecFlowchart, SpecNode, edges_view,
    has_node, nodes_view, strings_view, SequenceDiagram, SequenceItem, SpecSequenceDiagram,
    SpecSequenceItem, items_view, ClassDiagram, ClassItem, ClassMember, ClassRelation, SpecClassDiagram,
    SpecClassItem, SpecClassMember, SpecClassRelation, classes_view, members_view, relations_view,
    Direction, ParsedDiagram, SpecDiagram,
};
use crate::text::{from_chars, lowercase_of, push_char, push_rep, rep, slice_of, to_chars, to_lowercase};

verus! {

/// Appends a string slice.
pub fn put(out: &mut String, s: &str)
    ensures
        final(out)@ == old(out)@ + s@,
{
    out.append(s);
}

/// The pieces concatenated in order.
pub open spec fn concat(parts: Seq<Seq<char>>) -> Seq<char>
    decreases parts.len(),
{
    if parts.len() == 0 {
        seq![]
    } else {
        concat(parts.drop_last()) + parts.last()
    }
}

pub proof fn lemma_concat_push(parts: Seq<Seq<char>>, p: Seq<char>)
    ensures
        concat(parts.push(p)) == concat(parts) + p,
{
    assert(parts.push(p).drop_last() =~= parts);
}

// ---------------------------------------------------------------------------
// Node boxes
// ---------------------------------------------------------------------------

/// The colour sequence a colour word of a style directive gives.
pub open spec fn color_of(c: Seq<char>) -> Seq<char> {
    color_of_lower(lowercase_of(c))
}

/// Whether a colour word can be read without slicing inside a character.
pub open spec fn color_ok(c: Seq<char>) -> bool {
    !color_panics(lowercase_of(c))
}

pub open spec fn first_some(a: Option<Seq<char>>, b: Option<Seq<char>>) -> Option<Seq<char>> {
    match a {
        Some(x) => Some(x),
        None => b,
    }
}

/// The colour of a node's border: its stroke, else its fill, else cyan.
pub open spec fn border_color(n: SpecNode) -> Seq<char> {
    match n.style {
        Some(st) => match first_some(st.stroke, st.fill) {
            Some(c) => color_of(c),
            None => cyan(),
        },
        None => cyan(),
    }
}

/// The colour of a node's label: its text colour, else white; bold when the
/// node has no style.
pub open spec fn text_color(n: SpecNode) -> Seq<char> {
    match n.style {
        Some(st) => match st.color {
            Some(c) => color_of(c),
            None => white(),
        },
        None => bold(),
    }
}

/// Whether the colour words a node's box reads can all be read.
pub open spec fn node_colors_ok(n: SpecNode) -> bool {
    match n.style {
        Some(st) => {
            &&& (match first_some(st.stroke, st.fill) {
                Some(c) => color_ok(c),
                None => true,
            })
            &&& (match st.color {
                Some(c) => color_ok(c),
                None => true,
            })
        },
        None => true,
    }
}

/// The three rows of a node's box.
pub open spec fn node_box(n: SpecNode) -> Seq<Seq<char>> {
    let b = border_color(n);
    let t = text_color(n);
    let r = reset();
    let l = n.label;
    let w = l.len() as int;
    match n.shape {
        NodeShape::Diamond => seq![
            b + "  ╱"@ + rep('─', w + 2) + "╲"@ + r,
            b + " ⟨  "@ + t + l + b + "  ⟩"@ + r,
            b + "  ╲"@ + rep('─', w + 2) + "╱"@ + r,
        ],
        NodeShape::Rounded => seq![
            b + " ╭─"@ + rep('─', w) + "─╮"@ + r,
            b + " │ "@ + t + l + b + " │"@ + r,
            b + " ╰─"@ + rep('─', w) + "─╯"@ + r,
        ],
        NodeShape::Cylinder => seq![
            b + " ⌠─"@ + rep('─', w) + "─⌡"@ + r,
            b + " │ "@ + t + l + b + " │"@ + r,
            b + " ⌡─"@ + rep('─', w) + "─⌠"@ + r,
        ],
        NodeShape::Circle => seq![
            b + " (( "@ + rep('─', w) + " ))"@ + r,
            b + " (( "@ + t + l + b + " ))"@ + r,
            b + " (( "@ + rep('─', w) + " ))"@ + r,
        ],
        NodeShape::Rectangle => seq![
            b + "┌─"@ + rep('─', w) + "─┐"@ + r,
            b + "│ "@ + t + l + b + " │"@ + r,
            b + "└─"@ + rep('─', w) + "─┘"@ + r,
        ],
    }
}

/// Whether a colour word of a style can be read, found at run time.
fn color_word_ok(c: &String) -> (b: bool)
    ensures
        b == color_ok(c@),
{
    let lower = to_lowercase(c.as_str());
    !color_would_panic(lower.as_str())
}

/// Whether a node's box can be drawn, found at run time.
pub fn node_colors_ok_exec(n: &Node) -> (b: bool)
    ensures
        b == node_colors_ok(n@),
{
    match &n.style {
        Some(st) => {
            let border_ok = match &st.stroke {
                Some(c) => color_word_ok(c),
                None => match &st.fill {
                    Some(c) => color_word_ok(c),
                    None => true,
                },
            };
            let text_ok = match &st.color {
                Some(c) => color_word_ok(c),
                None => true,
            };
            border_ok && text_ok
        },
        None => true,
    }
}

fn border_color_exec(n: &Node) -> (s: String)
    requires
        node_colors_ok(n@),
    ensures
        s@ == border_color(n@),
{
    proof {
        lemma_ansi_codes();
    }
    match &n.style {
        Some(st) => match &st.stroke {
            Some(c) => Ansi::parse_color(c.as_str()),
            None => match &st.fill {
                Some(c) => Ansi::parse_color(c.as_str()),
                None => Ansi::CYAN.to_owned(),
            },
        },
        None => Ansi::CYAN.to_owned(),
    }
}

fn text_color_exec(n: &Node) -> (s: String)
    requires
        node_colors_ok(n@),
    ensures
        s@ == text_color(n@),
{
    proof {
        lemma_ansi_codes();
    }
    match &n.style {
        Some(st) => match &st.color {
            Some(c) => Ansi::parse_color(c.as_str()),
            None => Ansi::WHITE.to_owned(),
        },
        None => Ansi::BOLD.to_owned(),
    }
}

/// One row of a box: border, left edge, fill of `w` rules, right edge, reset.
fn rule_row(b: &String, left: &str, w: usize, right: &str) -> (s: String)
    ensures
        s@ == b@ + left@ + rep('─', w as int) + right@ + reset(),
{
    proof {
        lemma_ansi_codes();
    }
    let mut s = String::new();
    put(&mut s, b.as_str());
    put(&mut s, left);
    push_rep(&mut s, '─', w);
    put(&mut s, right);
    put(&mut s, Ansi::RESET);
    assert(s@ =~= b@ + left@ + rep('─', w as int) + right@ + reset());
    s
}

/// The label row of a box: border, left edge, text colour, label, border,
/// right edge, reset.
fn label_row(b: &String, left: &str, t: &String, l: &String, right: &str) -> (s: String)
    ensures
        s@ == b@ + left@ + t@ + l@ + b@ + right@ + reset(),
{
    proof {
        lemma_ansi_codes();
    }
    let mut s = String::new();
    put(&mut s, b.as_str());
    put(&mut s, left);
    put(&mut s, t.as_str());
    put(&mut s, l.as_str());
    put(&mut s, b.as_str());
    put(&mut s, right);
    put(&mut s, Ansi::RESET);
    assert(s@ =~= b@ + left@ + t@ + l@ + b@ + right@ + reset());
    s
}

/// The three rows of a node's box.
fn format_node_box(node: &Node) -> (rows: Vec<String>)
    requires
        node_colors_ok(node@),
        node@.label.len() + 2 <= usize::MAX,
    ensures
        strings_view(rows@) == node_box(node@),
        rows.len() == 3,
{
    let b = border_color_exec(node);
    let t = text_color_exec(node);
    let l = &node.label;
    let w = char_count(l);
    let rows = match node.shape {
        NodeShape::Diamond => {
            let w2 = w + 2;
            vec![
                rule_row(&b, "  ╱", w2, "╲"),
                label_row(&b, " ⟨  ", &t, l, "  ⟩"),
                rule_row(&b, "  ╲", w2, "╱"),
            ]
        },
        NodeShape::Rounded => vec![
            rule_row(&b, " ╭─", w, "─╮"),
            label_row(&b, " │ ", &t, l, " │"),
            rule_row(&b, " ╰─", w, "─╯"),
        ],
        NodeShape::Cylinder => vec![
            rule_row(&b, " ⌠─", w, "─⌡"),
            label_row(&b, " │ ", &t, l, " │"),
            rule_row(&b, " ⌡─", w, "─⌠"),
        ],
        NodeShape::Circle => vec![
            rule_row(&b, " (( ", w, " ))"),
            label_row(&b, " (( ", &t, l, " ))"),
            rule_row(&b, " (( ", w, " ))"),
        ],
        NodeShape::Rectangle => vec![
            rule_row(&b, "┌─", w, "─┐"),
            label_row(&b, "│ ", &t, l, " │"),
            rule_row(&b, "└─", w, "─┘"),
        ],
    };
    assert(strings_view(rows@) =~= node_box(node@));
    rows
}

/// The number of characters of a string.
pub fn char_count(s: &String) -> (n: usize)
    ensures
        n == s@.len(),
{
    s.as_str().unicode_len()
}


// ---------------------------------------------------------------------------
// Flowcharts
// ---------------------------------------------------------------------------

/// The index of the first node from `k` on with the given id.
pub open spec fn node_at(nodes: Seq<SpecNode>, id: Seq<char>, k: int) -> Option<int>
    decreases nodes.len() - k,
{
    if k < 0 || k >= nodes.len() {
        None
    } else if nodes[k].id == id {
        Some(k)
    } else {
        node_at(nodes, id, k + 1)
    }
}

/// The node drawn for an id: the first node with it, else a plain
/// rectangle labelled with the id.
pub open spec fn lookup_node(nodes: Seq<SpecNode>, id: Seq<char>) -> SpecNode {
    match node_at(nodes, id, 0) {
        Some(i) => nodes[i],
        None => SpecNode { id, label: id, shape: NodeShape::Rectangle, style: None },
    }
}

pub proof fn lemma_node_at(nodes: Seq<SpecNode>, id: Seq<char>, k: int)
    requires
        0 <= k,
    ensures
        node_at(nodes, id, k) matches Some(i) ==> k <= i < nodes.len() && nodes[i].id == id,
        node_at(nodes, id, k) is None ==> forall|j: int| k <= j < nodes.len() ==> nodes[j].id != id,
    decreases nodes.len() - k,
{
    if k < nodes.len() && nodes[k].id != id {
        lemma_node_at(nodes, id, k + 1);
    }
}

fn copy_node(n: &Node) -> (r: Node)
    ensures
        r@ == n@,
{
    let style = match &n.style {
        Some(st) => Some(crate::parser::copy_style(st)),
        None => None,
    };
    Node { id: n.id.clone(), label: n.label.clone(), shape: n.shape, style }
}

/// The node drawn for an id: the first node with that id, or else a plain
/// rectangle labelled with the id.
fn lookup_node_exec(nodes: &Vec<Node>, id: &String) -> (r: Node)
    ensures
        r@ == lookup_node(nodes_view(nodes@), id@),
{
    let ghost nv = nodes_view(nodes@);
    let mut k: usize = 0;
    while k < nodes.len()
        invariant
            k <= nodes.len(),
            nv == nodes_view(nodes@),
            node_at(nv, id@, 0) == node_at(nv, id@, k as int),
        decreases nodes.len() - k,
    {
        proof {
            assert(nv[k as int] == nodes@[k as int]@);
        }
        if nodes[k].id == *id {
            return copy_node(&nodes[k]);
        }
        k = k + 1;
    }
    Node { id: id.clone(), label: id.clone(), shape: NodeShape::Rectangle, style: None }
}

/// The arrow drawn between two boxes in a left-to-right flowchart.
pub open spec fn lr_arrow(e: SpecEdge) -> Seq<char> {
    match (e.edge_type, e.label) {
        (EdgeType::DottedArrow, Some(l)) => yellow() + " -.- "@ + bright_yellow() + l + yellow() + " .-> "@
            + reset(),
        (EdgeType::DottedArrow, None) => yellow() + " -.-.-.-> "@ + reset(),
        (EdgeType::ThickArrow, Some(l)) => bright_green() + " === "@ + white() + l + bright_green()
            + " ==> "@ + reset(),
        (EdgeType::ThickArrow, None) => bright_green() + " ========> "@ + reset(),
        (EdgeType::SolidArrow, Some(l)) => blue() + " ─── "@ + white() + l + blue() + " ───▶ "@
            + reset(),
        (EdgeType::SolidArrow, None) => blue() + " ────────▶ "@ + reset(),
        (EdgeType::SolidLine, Some(l)) => dim() + " ─── "@ + white() + l + dim() + " ─── "@ + reset(),
        (EdgeType::SolidLine, None) => dim() + " ───────── "@ + reset(),
    }
}

/// The three rows for one edge of a left-to-right flowchart, followed by a
/// blank line unless it is the last edge.
pub open spec fn lr_section(nodes: Seq<SpecNode>, edges: Seq<SpecEdge>, i: int) -> Seq<char> {
    let e = edges[i];
    let fb = node_box(lookup_node(nodes, e.from));
    let tb = node_box(lookup_node(nodes, e.to));
    let gap = "           "@;
    fb[0] + gap + tb[0] + "\n"@ + fb[1] + lr_arrow(e) + tb[1] + "\n"@ + fb[2] + gap + tb[2] + "\n"@ + (
    if i < edges.len() - 1 {
        "\n"@
    } else {
        seq![]
    })
}

pub open spec fn lr_output(nodes: Seq<SpecNode>, edges: Seq<SpecEdge>) -> Seq<char> {
    concat(Seq::new(edges.len(), |i: int| lr_section(nodes, edges, i)))
}

fn lr_arrow_exec(e: &Edge) -> (s: String)
    ensures
        s@ == lr_arrow(e@),
{
    proof {
        lemma_ansi_codes();
    }
    let mut s = String::new();
    match (&e.edge_type, &e.label) {
        (EdgeType::DottedArrow, Some(l)) => {
            put(&mut s, Ansi::YELLOW);
            put(&mut s, " -.- ");
            put(&mut s, Ansi::BRIGHT_YELLOW);
            put(&mut s, l.as_str());
            put(&mut s, Ansi::YELLOW);
            put(&mut s, " .-> ");
            put(&mut s, Ansi::RESET);
        },
        (EdgeType::DottedArrow, None) => {
            put(&mut s, Ansi::YELLOW);
            put(&mut s, " -.-.-.-> ");
            put(&mut s, Ansi::RESET);
        },
        (EdgeType::ThickArrow, Some(l)) => {
            put(&mut s, Ansi::BRIGHT_GREEN);
            put(&mut s, " === ");
            put(&mut s, Ansi::WHITE);
            put(&mut s, l.as_str());
            put(&mut s, Ansi::BRIGHT_GREEN);
            put(&mut s, " ==> ");
            put(&mut s, Ansi::RESET);
        },
        (EdgeType::ThickArrow, None) => {
            put(&mut s, Ansi::BRIGHT_GREEN);
            put(&mut s, " ========> ");
            put(&mut s, Ansi::RESET);
        },
        (EdgeType::SolidArrow, Some(l)) => {
            put(&mut s, Ansi::BLUE);
            put(&mut s, " ─── ");
            put(&mut s, Ansi::WHITE);
            put(&mut s, l.as_str());
            put(&mut s, Ansi::BLUE);
            put(&mut s, " ───▶ ");
            put(&mut s, Ansi::RESET);
        },
        (EdgeType::SolidArrow, None) => {
            put(&mut s, Ansi::BLUE);
            put(&mut s, " ────────▶ ");
            put(&mut s, Ansi::RESET);
        },
        (EdgeType::SolidLine, Some(l)) => {
            put(&mut s, Ansi::DIM);
            put(&mut s, " ─── ");
            put(&mut s, Ansi::WHITE);
            put(&mut s, l.as_str());
            put(&mut s, Ansi::DIM);
            put(&mut s, " ─── ");
            put(&mut s, Ansi::RESET);
        },
        (EdgeType::SolidLine, None) => {
            put(&mut s, Ansi::DIM);
            put(&mut s, " ───────── ");
            put(&mut s, Ansi::RESET);
        },
    }
    assert(s@ =~= lr_arrow(e@));
    s
}

/// Whether a node's box fits the machine's widths.
pub open spec fn node_fits(n: SpecNode) -> bool {
    n.label.len() + 2 <= usize::MAX && n.id.len() + 2 <= usize::MAX
}

/// Whether every box a flowchart can draw fits the machine's widths.
pub open spec fn flowchart_fits(fc: SpecFlowchart) -> bool {
    &&& forall|i: int| 0 <= i < fc.nodes.len() ==> node_fits(#[trigger] fc.nodes[i])
    &&& forall|i: int|
        0 <= i < fc.edges.len() ==> (#[trigger] fc.edges[i]).from.len() + 2 <= usize::MAX
            && fc.edges[i].to.len() + 2 <= usize::MAX
}

pub proof fn lemma_lookup_fits(nodes: Seq<SpecNode>, id: Seq<char>)
    requires
        forall|i: int| 0 <= i < nodes.len() ==> node_fits(#[trigger] nodes[i]),
        id.len() + 2 <= usize::MAX,
    ensures
        lookup_node(nodes, id).label.len() + 2 <= usize::MAX,
{
    lemma_node_at(nodes, id, 0);
}

/// Whether the boxes a left-to-right flowchart draws can read their colours.
pub open spec fn lr_colors_ok(nodes: Seq<SpecNode>, edges: Seq<SpecEdge>) -> bool {
    forall|i: int|
        0 <= i < edges.len() ==> node_colors_ok(lookup_node(nodes, (#[trigger] edges[i]).from))
            && node_colors_ok(lookup_node(nodes, edges[i].to))
}

fn push_row(out: &mut String, a: &String, mid: &str, b: &String)
    ensures
        final(out)@ == old(out)@ + a@ + mid@ + b@ + "\n"@,
{
    put(out, a.as_str());
    put(out, mid);
    put(out, b.as_str());
    put(out, "\n");
    assert(out@ =~= old(out)@ + a@ + mid@ + b@ + "\n"@);
}

fn lr_section_exec(fc: &Flowchart, i: usize) -> (s: String)
    requires
        i < fc.edges.len(),
        flowchart_fits(fc@),
        lr_colors_ok(fc@.nodes, fc@.edges),
    ensures
        s@ == lr_section(fc@.nodes, fc@.edges, i as int),
{
    let ghost nodes = fc@.nodes;
    let ghost edges = fc@.edges;
    let e = &fc.edges[i];
    proof {
        assert(edges[i as int] == e@);
        lemma_lookup_fits(nodes, e@.from);
        lemma_lookup_fits(nodes, e@.to);
    }
    let from_node = lookup_node_exec(&fc.nodes, &e.from);
    let to_node = lookup_node_exec(&fc.nodes, &e.to);
    let from_box = format_node_box(&from_node);
    let to_box = format_node_box(&to_node);
    let arrow = lr_arrow_exec(e);
    let mut out = String::new();
    push_row(&mut out, &from_box[0], "           ", &to_box[0]);
    push_row(&mut out, &from_box[1], arrow.as_str(), &to_box[1]);
    push_row(&mut out, &from_box[2], "           ", &to_box[2]);
    if i < fc.edges.len() - 1 {
        put(&mut out, "\n");
    }
    proof {
        assert(strings_view(from_box@)[0] == from_box@[0]@);
        assert(strings_view(from_box@)[1] == from_box@[1]@);
        assert(strings_view(from_box@)[2] == from_box@[2]@);
        assert(strings_view(to_box@)[0] == to_box@[0]@);
        assert(strings_view(to_box@)[1] == to_box@[1]@);
        assert(strings_view(to_box@)[2] == to_box@[2]@);
        assert(out@ =~= lr_section(nodes, edges, i as int));
    }
    out
}

fn render_lr(fc: &Flowchart) -> (out: String)
    requires
        flowchart_fits(fc@),
        lr_colors_ok(fc@.nodes, fc@.edges),
    ensures
        out@ == lr_output(fc@.nodes, fc@.edges),
{
    let ghost nodes = fc@.nodes;
    let ghost edges = fc@.edges;
    let mut out = String::new();
    let n = fc.edges.len();
    let mut i: usize = 0;
    while i < n
        invariant
            i <= n == fc.edges.len(),
            nodes == fc@.nodes,
            edges == fc@.edges,
            flowchart_fits(fc@),
            lr_colors_ok(nodes, edges),
            out@ == concat(Seq::new(i as nat, |k: int| lr_section(nodes, edges, k))),
        decreases n - i,
    {
        let sec = lr_section_exec(fc, i);
        let ghost before = out@;
        put(&mut out, sec.as_str());
        proof {
            let f = |k: int| lr_section(nodes, edges, k);
            assert(Seq::new((i + 1) as nat, f).drop_last() =~= Seq::new(i as nat, f));
        }
        i = i + 1;
    }
    out
}


/// The number of edges into `id`.
pub open spec fn in_degree(edges: Seq<SpecEdge>, id: Seq<char>) -> nat
    decreases edges.len(),
{
    if edges.len() == 0 {
        0
    } else {
        in_degree(edges.drop_last(), id) + if edges.last().to == id {
            1nat
        } else {
            0nat
        }
    }
}

/// The ids of the nodes without incoming edges, in node order.
pub open spec fn roots(nodes: Seq<SpecNode>, edges: Seq<SpecEdge>) -> Seq<Seq<char>>
    decreases nodes.len(),
{
    if nodes.len() == 0 {
        seq![]
    } else {
        let prev = roots(nodes.drop_last(), edges);
        if in_degree(edges, nodes.last().id) == 0 {
            prev.push(nodes.last().id)
        } else {
            prev
        }
    }
}

/// Where the walk of a top-to-bottom flowchart starts: the roots, else the
/// first node.
pub open spec fn start_stack(nodes: Seq<SpecNode>, edges: Seq<SpecEdge>) -> Seq<Seq<char>> {
    if roots(nodes, edges).len() > 0 {
        roots(nodes, edges)
    } else if nodes.len() > 0 {
        seq![nodes[0].id]
    } else {
        seq![]
    }
}

/// The edges out of `id`, in order.
pub open spec fn edges_from(edges: Seq<SpecEdge>, id: Seq<char>) -> Seq<SpecEdge>
    decreases edges.len(),
{
    if edges.len() == 0 {
        seq![]
    } else {
        let prev = edges_from(edges.drop_last(), id);
        if edges.last().from == id {
            prev.push(edges.last())
        } else {
            prev
        }
    }
}

pub open spec fn sources(edges: Seq<SpecEdge>) -> Seq<Seq<char>> {
    edges.map_values(|e: SpecEdge| e.from)
}

/// The targets of the given edges that are not yet in `seen`, in order.
pub open spec fn fresh_targets(es: Seq<SpecEdge>, seen: Seq<Seq<char>>) -> Seq<Seq<char>>
    decreases es.len(),
{
    if es.len() == 0 {
        seq![]
    } else {
        let prev = fresh_targets(es.drop_last(), seen);
        if seen.contains(es.last().to) {
            prev
        } else {
            prev.push(es.last().to)
        }
    }
}

/// How many entries of `u` are not in `order`.
pub open spec fn unvisited(u: Seq<Seq<char>>, order: Seq<Seq<char>>) -> nat
    decreases u.len(),
{
    if u.len() == 0 {
        0
    } else {
        unvisited(u.drop_last(), order) + if order.contains(u.last()) {
            0nat
        } else {
            1nat
        }
    }
}

pub proof fn lemma_unvisited_push(u: Seq<Seq<char>>, order: Seq<Seq<char>>, c: Seq<char>)
    requires
        !order.contains(c),
    ensures
        unvisited(u, order.push(c)) <= unvisited(u, order),
        u.contains(c) ==> unvisited(u, order.push(c)) < unvisited(u, order),
        !u.contains(c) ==> unvisited(u, order.push(c)) == unvisited(u, order),
    decreases u.len(),
{
    if u.len() > 0 {
        lemma_unvisited_push(u.drop_last(), order, c);
        assert(order.push(c).contains(u.last()) <==> (order.contains(u.last()) || u.last() == c)) by {
            if u.last() == c {
                assert(order.push(c)[order.len() as int] == c);
            }
            if order.contains(u.last()) {
                let j = choose|j: int| 0 <= j < order.len() && order[j] == u.last();
                assert(order.push(c)[j] == u.last());
            }
        }
        if u.contains(c) && !u.drop_last().contains(c) {
            let j = choose|j: int| 0 <= j < u.len() && u[j] == c;
            if j < u.len() - 1 {
                assert(u.drop_last()[j] == c);
            }
        }
        if !u.contains(c) && u.drop_last().contains(c) {
            let j = choose|j: int| 0 <= j < u.len() - 1 && u.drop_last()[j] == c;
            assert(u[j] == c);
        }
    }
}

pub proof fn lemma_edges_from_sources(edges: Seq<SpecEdge>, id: Seq<char>)
    ensures
        edges_from(edges, id).len() > 0 ==> sources(edges).contains(id),
        forall|k: int| 0 <= k < edges_from(edges, id).len() ==> (#[trigger] edges_from(edges, id)[k]).from == id,
    decreases edges.len(),
{
    if edges.len() > 0 {
        lemma_edges_from_sources(edges.drop_last(), id);
        let prev = edges_from(edges.drop_last(), id);
        if prev.len() > 0 {
            let j = choose|j: int| 0 <= j < sources(edges.drop_last()).len() && sources(edges.drop_last())[j] == id;
            assert(sources(edges)[j] == id);
        }
        if edges.last().from == id {
            assert(sources(edges)[edges.len() - 1] == id);
        }
    }
}

pub proof fn lemma_fresh_len(es: Seq<SpecEdge>, seen: Seq<Seq<char>>)
    ensures
        fresh_targets(es, seen).len() <= es.len(),
    decreases es.len(),
{
    if es.len() > 0 {
        lemma_fresh_len(es.drop_last(), seen);
    }
}

/// The order in which a depth-first walk (last pushed, first visited) from
/// `stack` visits ids, continuing `order`.
pub open spec fn dfs_order(edges: Seq<SpecEdge>, stack: Seq<Seq<char>>, order: Seq<Seq<char>>) -> Seq<
    Seq<char>,
>
    decreases unvisited(sources(edges), order), stack.len(),
{
    if stack.len() == 0 {
        order
    } else {
        let curr = stack.last();
        let rest = stack.drop_last();
        if order.contains(curr) {
            dfs_order(edges, rest, order)
        } else {
            let seen = order.push(curr);
            proof {
                lemma_unvisited_push(sources(edges), order, curr);
                lemma_edges_from_sources(edges, curr);
                lemma_fresh_len(edges_from(edges, curr), seen);
            }
            dfs_order(edges, rest + fresh_targets(edges_from(edges, curr), seen), seen)
        }
    }
}

/// `order` followed by the node ids it lacks, in node order.
pub open spec fn complete_order(nodes: Seq<SpecNode>, order: Seq<Seq<char>>) -> Seq<Seq<char>>
    decreases nodes.len(),
{
    if nodes.len() == 0 {
        order
    } else {
        let prev = complete_order(nodes.drop_last(), order);
        if prev.contains(nodes.last().id) {
            prev
        } else {
            prev.push(nodes.last().id)
        }
    }
}

/// The order in which a top-to-bottom flowchart draws its boxes.
pub open spec fn td_order(nodes: Seq<SpecNode>, edges: Seq<SpecEdge>) -> Seq<Seq<char>> {
    complete_order(nodes, dfs_order(edges, start_stack(nodes, edges), seq![]))
}

/// Whether an id has an entry in the adjacency table: a node's id or an
/// edge's source.
pub open spec fn has_adj(nodes: Seq<SpecNode>, edges: Seq<SpecEdge>, id: Seq<char>) -> bool {
    has_node(nodes, id) || sources(edges).contains(id)
}

/// The lines drawn below a box for one of its outgoing edges.
pub open spec fn td_edge_lines(e: SpecEdge) -> Seq<char> {
    (match e.label {
        Some(l) => dim() + "     │  "@ + yellow() + l + reset() + "\n"@,
        None => seq![],
    }) + match e.edge_type {
        EdgeType::DottedArrow => yellow() + "     :\n     ▼"@ + reset() + "\n"@,
        EdgeType::ThickArrow => bright_green() + "     ║\n     ▼"@ + reset() + "\n"@,
        EdgeType::SolidArrow => blue() + "     │\n     ▼"@ + reset() + "\n"@,
        EdgeType::SolidLine => dim() + "     │\n     │"@ + reset() + "\n"@,
    }
}

pub open spec fn box_rows(b: Seq<Seq<char>>) -> Seq<char> {
    b[0] + "\n"@ + b[1] + "\n"@ + b[2] + "\n"@
}

/// The box of the `idx`-th id in drawing order and the lines below it.
pub open spec fn td_section(
    nodes: Seq<SpecNode>,
    edges: Seq<SpecEdge>,
    order: Seq<Seq<char>>,
    idx: int,
) -> Seq<char> {
    let id = order[idx];
    box_rows(node_box(lookup_node(nodes, id))) + if has_adj(nodes, edges, id) {
        concat(edges_from(edges, id).map_values(|e: SpecEdge| td_edge_lines(e)))
    } else if idx < order.len() - 1 {
        blue() + "     │\n     ▼"@ + reset() + "\n"@
    } else {
        seq![]
    }
}

pub open spec fn td_output(nodes: Seq<SpecNode>, edges: Seq<SpecEdge>) -> Seq<char> {
    let order = td_order(nodes, edges);
    concat(Seq::new(order.len(), |i: int| td_section(nodes, edges, order, i)))
}

/// What a flowchart renders to.
pub open spec fn flowchart_text(fc: SpecFlowchart) -> Seq<char> {
    if fc.nodes.len() == 0 {
        "Empty diagram"@
    } else if fc.direction == crate::parser::Direction::LeftToRight {
        lr_output(fc.nodes, fc.edges)
    } else {
        td_output(fc.nodes, fc.edges)
    }
}

/// Whether the boxes a top-to-bottom flowchart draws can read their colours.
pub open spec fn td_colors_ok(nodes: Seq<SpecNode>) -> bool {
    forall|i: int| 0 <= i < nodes.len() ==> node_colors_ok(lookup_node(nodes, (#[trigger] nodes[i]).id))
}

/// Whether the boxes a flowchart draws can read their colours.
pub open spec fn flowchart_colors_ok(fc: SpecFlowchart) -> bool {
    if fc.direction == crate::parser::Direction::LeftToRight {
        lr_colors_ok(fc.nodes, fc.edges)
    } else {
        td_colors_ok(fc.nodes)
    }
}


pub open spec fn targets(edges: Seq<SpecEdge>) -> Seq<Seq<char>> {
    edges.map_values(|e: SpecEdge| e.to)
}

pub proof fn lemma_push_contains(s: Seq<Seq<char>>, t: Seq<char>, x: Seq<char>)
    ensures
        s.push(t).contains(x) <==> (s.contains(x) || x == t),
{
    if x == t {
        assert(s.push(t)[s.len() as int] == t);
    }
    if s.contains(x) {
        let j = choose|j: int| 0 <= j < s.len() && s[j] == x;
        assert(s.push(t)[j] == x);
    }
    if s.push(t).contains(x) {
        let j = choose|j: int| 0 <= j < s.push(t).len() && s.push(t)[j] == x;
        if j < s.len() {
            assert(s[j] == x);
        }
    }
}

pub proof fn lemma_fresh_members(es: Seq<SpecEdge>, seen: Seq<Seq<char>>, edges: Seq<SpecEdge>)
    requires
        forall|k: int| 0 <= k < es.len() ==> targets(edges).contains(#[trigger] es[k].to),
    ensures
        forall|x: Seq<char>| fresh_targets(es, seen).contains(x) ==> targets(edges).contains(x),
    decreases es.len(),
{
    if es.len() > 0 {
        assert forall|k: int| 0 <= k < es.drop_last().len() implies targets(edges).contains(
            #[trigger] es.drop_last()[k].to,
        ) by {
            assert(es.drop_last()[k] == es[k]);
        }
        lemma_fresh_members(es.drop_last(), seen, edges);
        assert(targets(edges).contains(es[es.len() - 1].to));
        let prev = fresh_targets(es.drop_last(), seen);
        assert forall|x: Seq<char>| fresh_targets(es, seen).contains(x) implies targets(edges).contains(x) by {
            lemma_push_contains(prev, es.last().to, x);
        }
    }
}

pub proof fn lemma_edges_from_targets(edges: Seq<SpecEdge>, id: Seq<char>)
    ensures
        forall|k: int| 0 <= k < edges_from(edges, id).len() ==> targets(edges).contains(
            #[trigger] edges_from(edges, id)[k].to,
        ),
    decreases edges.len(),
{
    if edges.len() > 0 {
        lemma_edges_from_targets(edges.drop_last(), id);
        let prev = edges_from(edges.drop_last(), id);
        assert forall|k: int| 0 <= k < prev.len() implies targets(edges).contains(#[trigger] prev[k].to) by {
            let j = choose|j: int| 0 <= j < targets(edges.drop_last()).len() && targets(edges.drop_last())[j] == prev[k].to;
            assert(targets(edges)[j] == prev[k].to);
        }
        assert(targets(edges)[edges.len() - 1] == edges.last().to);
        if edges.last().from == id {
            assert forall|k: int| 0 <= k < edges_from(edges, id).len() implies targets(edges).contains(
                #[trigger] edges_from(edges, id)[k].to,
            ) by {
                if k < prev.len() {
                    assert(edges_from(edges, id)[k] == prev[k]);
                }
            }
        }
    }
}

/// Every id a walk visits was already visited, was on the stack, or is the
/// target of an edge.
pub proof fn lemma_dfs_members(edges: Seq<SpecEdge>, stack: Seq<Seq<char>>, order: Seq<Seq<char>>)
    ensures
        forall|x: Seq<char>| dfs_order(edges, stack, order).contains(x) ==> order.contains(x)
            || stack.contains(x) || targets(edges).contains(x),
    decreases unvisited(sources(edges), order), stack.len(),
{
    if stack.len() > 0 {
        let curr = stack.last();
        let rest = stack.drop_last();
        assert forall|x: Seq<char>| rest.contains(x) implies stack.contains(x) by {
            let j = choose|j: int| 0 <= j < rest.len() && rest[j] == x;
            assert(stack[j] == x);
        }
        if order.contains(curr) {
            lemma_dfs_members(edges, rest, order);
        } else {
            let seen = order.push(curr);
            lemma_unvisited_push(sources(edges), order, curr);
            lemma_edges_from_sources(edges, curr);
            lemma_fresh_len(edges_from(edges, curr), seen);
            let fr = fresh_targets(edges_from(edges, curr), seen);
            let st2 = rest + fr;
            lemma_dfs_members(edges, st2, seen);
            lemma_edges_from_targets(edges, curr);
            lemma_fresh_members(edges_from(edges, curr), seen, edges);
            assert forall|x: Seq<char>| seen.contains(x) implies order.contains(x) || stack.contains(x) by {
                lemma_push_contains(order, curr, x);
                assert(stack[stack.len() - 1] == curr);
            }
            assert forall|x: Seq<char>| st2.contains(x) implies stack.contains(x) || targets(edges).contains(x) by {
                let j = choose|j: int| 0 <= j < st2.len() && st2[j] == x;
                if j < rest.len() {
                    assert(rest[j] == x);
                } else {
                    assert(fr[j - rest.len()] == x);
                }
            }
        }
    }
}

pub proof fn lemma_complete_members(nodes: Seq<SpecNode>, order: Seq<Seq<char>>)
    ensures
        forall|x: Seq<char>| complete_order(nodes, order).contains(x) ==> order.contains(x) || has_node(nodes, x),
    decreases nodes.len(),
{
    if nodes.len() > 0 {
        lemma_complete_members(nodes.drop_last(), order);
        let prev = complete_order(nodes.drop_last(), order);
        assert forall|x: Seq<char>| complete_order(nodes, order).contains(x) implies order.contains(x) || has_node(nodes, x) by {
            lemma_push_contains(prev, nodes.last().id, x);
            if has_node(nodes.drop_last(), x) {
                let j = choose|j: int| 0 <= j < nodes.drop_last().len() && (#[trigger] nodes.drop_last()[j]).id == x;
                assert(nodes[j].id == x);
            }
            if x == nodes.last().id {
                assert(nodes[nodes.len() - 1].id == x);
            }
        }
    }
}

pub proof fn lemma_roots_members(nodes: Seq<SpecNode>, edges: Seq<SpecEdge>)
    ensures
        forall|x: Seq<char>| roots(nodes, edges).contains(x) ==> has_node(nodes, x),
    decreases nodes.len(),
{
    if nodes.len() > 0 {
        lemma_roots_members(nodes.drop_last(), edges);
        let prev = roots(nodes.drop_last(), edges);
        assert forall|x: Seq<char>| roots(nodes, edges).contains(x) implies has_node(nodes, x) by {
            lemma_push_contains(prev, nodes.last().id, x);
            if has_node(nodes.drop_last(), x) {
                let j = choose|j: int| 0 <= j < nodes.drop_last().len() && (#[trigger] nodes.drop_last()[j]).id == x;
                assert(nodes[j].id == x);
            }
            if x == nodes.last().id {
                assert(nodes[nodes.len() - 1].id == x);
            }
        }
    }
}

/// Every id drawn in a top-to-bottom flowchart is a node's id or an edge's target.
pub proof fn lemma_td_order_members(nodes: Seq<SpecNode>, edges: Seq<SpecEdge>)
    ensures
        forall|x: Seq<char>| td_order(nodes, edges).contains(x) ==> has_node(nodes, x) || targets(edges).contains(x),
{
    let st = start_stack(nodes, edges);
    let d = dfs_order(edges, st, seq![]);
    lemma_dfs_members(edges, st, seq![]);
    lemma_roots_members(nodes, edges);
    lemma_complete_members(nodes, d);
    assert forall|x: Seq<char>| st.contains(x) implies has_node(nodes, x) by {
        if roots(nodes, edges).len() == 0 && nodes.len() > 0 {
            assert(st[0] == x);
            assert(nodes[0].id == x);
        }
    }
}


pub proof fn lemma_push_distinct(s: Seq<Seq<char>>, x: Seq<char>)
    requires
        s.no_duplicates(),
        !s.contains(x),
    ensures
        s.push(x).no_duplicates(),
{
    let t = s.push(x);
    assert forall|i: int, j: int| 0 <= i < t.len() && 0 <= j < t.len() && i != j implies t[i] != t[j] by {
        if i < s.len() && j < s.len() {
            assert(t[i] == s[i] && t[j] == s[j]);
        } else if i < s.len() {
            assert(t[i] == s[i]);
        } else if j < s.len() {
            assert(t[j] == s[j]);
        }
    }
}

/// A walk never visits an id twice, and keeps what it had visited.
pub proof fn lemma_dfs_distinct(edges: Seq<SpecEdge>, stack: Seq<Seq<char>>, order: Seq<Seq<char>>)
    requires
        order.no_duplicates(),
    ensures
        dfs_order(edges, stack, order).no_duplicates(),
        forall|x: Seq<char>| order.contains(x) ==> dfs_order(edges, stack, order).contains(x),
    decreases unvisited(sources(edges), order), stack.len(),
{
    if stack.len() > 0 {
        let curr = stack.last();
        let rest = stack.drop_last();
        if order.contains(curr) {
            lemma_dfs_distinct(edges, rest, order);
        } else {
            let seen = order.push(curr);
            lemma_unvisited_push(sources(edges), order, curr);
            lemma_edges_from_sources(edges, curr);
            lemma_fresh_len(edges_from(edges, curr), seen);
            lemma_push_distinct(order, curr);
            let st2 = rest + fresh_targets(edges_from(edges, curr), seen);
            lemma_dfs_distinct(edges, st2, seen);
            assert forall|x: Seq<char>| order.contains(x) implies dfs_order(edges, stack, order).contains(x) by {
                lemma_push_contains(order, curr, x);
            }
        }
    }
}

/// Completing an order with the missing node ids adds no id twice, keeps
/// the order, and leaves no node's id out.
pub proof fn lemma_complete_distinct(nodes: Seq<SpecNode>, order: Seq<Seq<char>>)
    requires
        order.no_duplicates(),
    ensures
        complete_order(nodes, order).no_duplicates(),
        forall|x: Seq<char>| order.contains(x) ==> complete_order(nodes, order).contains(x),
        forall|i: int| 0 <= i < nodes.len() ==> complete_order(nodes, order).contains(#[trigger] nodes[i].id),
    decreases nodes.len(),
{
    if nodes.len() > 0 {
        let prev = complete_order(nodes.drop_last(), order);
        let id = nodes.last().id;
        lemma_complete_distinct(nodes.drop_last(), order);
        if !prev.contains(id) {
            lemma_push_distinct(prev, id);
        }
        assert forall|x: Seq<char>| prev.contains(x) implies complete_order(nodes, order).contains(x) by {
            lemma_push_contains(prev, id, x);
        }
        assert forall|i: int| 0 <= i < nodes.len() implies complete_order(nodes, order).contains(
            #[trigger] nodes[i].id,
        ) by {
            if i < nodes.len() - 1 {
                assert(nodes.drop_last()[i] == nodes[i]);
            } else {
                lemma_push_contains(prev, id, id);
            }
        }
    }
}

/// A top-to-bottom flowchart draws the box of every node, and no id twice.
pub proof fn lemma_td_order_draws_each_once(nodes: Seq<SpecNode>, edges: Seq<SpecEdge>)
    ensures
        td_order(nodes, edges).no_duplicates(),
        forall|i: int| 0 <= i < nodes.len() ==> td_order(nodes, edges).contains(#[trigger] nodes[i].id),
{
    let empty: Seq<Seq<char>> = seq![];
    assert(empty.no_duplicates());
    let d = dfs_order(edges, start_stack(nodes, edges), empty);
    lemma_dfs_distinct(edges, start_stack(nodes, edges), empty);
    lemma_complete_distinct(nodes, d);
}

fn contains_str(v: &Vec<String>, x: &String) -> (b: bool)
    ensures
        b == strings_view(v@).contains(x@),
{
    let mut i: usize = 0;
    while i < v.len()
        invariant
            i <= v.len(),
            forall|j: int| 0 <= j < i ==> v@[j]@ != x@,
        decreases v.len() - i,
    {
        if v[i] == *x {
            proof {
                assert(strings_view(v@)[i as int] == x@);
            }
            return true;
        }
        i = i + 1;
    }
    proof {
        if strings_view(v@).contains(x@) {
            let j = choose|j: int| 0 <= j < strings_view(v@).len() && strings_view(v@)[j] == x@;
            assert(v@[j]@ == x@);
        }
    }
    false
}

fn push_str_copy(v: &mut Vec<String>, x: &String)
    ensures
        strings_view(final(v)@) == strings_view(old(v)@).push(x@),
{
    let ghost before = strings_view(v@);
    v.push(x.clone());
    proof {
        assert(strings_view(v@) =~= before.push(x@));
    }
}

fn in_degree_exec(edges: &Vec<Edge>, id: &String) -> (n: usize)
    ensures
        n == in_degree(edges_view(edges@), id@),
{
    let mut n: usize = 0;
    let mut i: usize = 0;
    while i < edges.len()
        invariant
            i <= edges.len(),
            n == in_degree(edges_view(edges@).take(i as int), id@),
            n <= i,
        decreases edges.len() - i,
    {
        proof {
            assert(edges_view(edges@).take(i + 1).drop_last() =~= edges_view(edges@).take(i as int));
            assert(edges_view(edges@).take(i + 1).last() == edges@[i as int]@);
        }
        if edges[i].to == *id {
            n = n + 1;
        }
        i = i + 1;
    }
    proof {
        assert(edges_view(edges@).take(edges.len() as int) =~= edges_view(edges@));
    }
    n
}

fn start_stack_exec(fc: &Flowchart) -> (r: Vec<String>)
    ensures
        strings_view(r@) == start_stack(fc@.nodes, fc@.edges),
{
    let ghost nodes = fc@.nodes;
    let ghost edges = fc@.edges;
    let mut roots_v: Vec<String> = Vec::new();
    let mut i: usize = 0;
    while i < fc.nodes.len()
        invariant
            i <= fc.nodes.len(),
            nodes == fc@.nodes,
            edges == fc@.edges,
            strings_view(roots_v@) == roots(nodes.take(i as int), edges),
        decreases fc.nodes.len() - i,
    {
        proof {
            assert(nodes.take(i + 1).drop_last() =~= nodes.take(i as int));
            assert(nodes.take(i + 1).last() == fc.nodes@[i as int]@);
        }
        if in_degree_exec(&fc.edges, &fc.nodes[i].id) == 0 {
            push_str_copy(&mut roots_v, &fc.nodes[i].id);
        }
        i = i + 1;
    }
    proof {
        assert(nodes.take(fc.nodes.len() as int) =~= nodes);
    }
    if roots_v.len() > 0 {
        roots_v
    } else if fc.nodes.len() > 0 {
        let mut r: Vec<String> = Vec::new();
        proof {
            assert(nodes[0] == fc.nodes@[0]@);
        }
        push_str_copy(&mut r, &fc.nodes[0].id);
        proof {
            assert(strings_view(r@) =~= seq![nodes[0].id]);
        }
        r
    } else {
        let r: Vec<String> = Vec::new();
        proof {
            assert(strings_view(r@) =~= Seq::<Seq<char>>::empty());
        }
        r
    }
}

fn copy_edge(e: &Edge) -> (r: Edge)
    ensures
        r@ == e@,
{
    let label = match &e.label {
        Some(l) => Some(l.clone()),
        None => None,
    };
    Edge { from: e.from.clone(), to: e.to.clone(), label, edge_type: e.edge_type }
}

fn edges_from_exec(edges: &Vec<Edge>, id: &String) -> (r: Vec<Edge>)
    ensures
        edges_view(r@) == edges_from(edges_view(edges@), id@),
{
    let mut r: Vec<Edge> = Vec::new();
    let mut i: usize = 0;
    while i < edges.len()
        invariant
            i <= edges.len(),
            edges_view(r@) == edges_from(edges_view(edges@).take(i as int), id@),
        decreases edges.len() - i,
    {
        proof {
            assert(edges_view(edges@).take(i + 1).drop_last() =~= edges_view(edges@).take(i as int));
            assert(edges_view(edges@).take(i + 1).last() == edges@[i as int]@);
        }
        if edges[i].from == *id {
            let e = copy_edge(&edges[i]);
            let ghost before = edges_view(r@);
            r.push(e);
            proof {
                assert(edges_view(r@) =~= before.push(e@));
            }
        }
        i = i + 1;
    }
    proof {
        assert(edges_view(edges@).take(edges.len() as int) =~= edges_view(edges@));
    }
    r
}

/// The order in which a top-to-bottom flowchart draws its boxes.
fn td_order_exec(fc: &Flowchart) -> (r: Vec<String>)
    ensures
        strings_view(r@) == td_order(fc@.nodes, fc@.edges),
{
    let ghost nodes = fc@.nodes;
    let ghost edges = fc@.edges;
    let mut stack = start_stack_exec(fc);
    let mut order: Vec<String> = Vec::new();
    let ghost goal = dfs_order(edges, strings_view(stack@), seq![]);
    proof {
        assert(strings_view(order@) =~= seq![]);
    }
    while stack.len() > 0
        invariant
            edges == fc@.edges,
            dfs_order(edges, strings_view(stack@), strings_view(order@)) == goal,
        decreases unvisited(sources(edges), strings_view(order@)), stack.len(),
    {
        let ghost sv = strings_view(stack@);
        let ghost ov = strings_view(order@);
        let curr = stack.pop().unwrap();
        proof {
            assert(strings_view(stack@) =~= sv.drop_last());
            assert(sv.last() == curr@);
        }
        if !contains_str(&order, &curr) {
            push_str_copy(&mut order, &curr);
            let out = edges_from_exec(&fc.edges, &curr);
            let ghost rest = strings_view(stack@);
            let ghost seen = strings_view(order@);
            let mut k: usize = 0;
            while k < out.len()
                invariant
                    k <= out.len(),
                    seen == strings_view(order@),
                    strings_view(stack@) == rest + fresh_targets(edges_view(out@).take(k as int), seen),
                decreases out.len() - k,
            {
                proof {
                    assert(edges_view(out@).take(k + 1).drop_last() =~= edges_view(out@).take(k as int));
                    assert(edges_view(out@).take(k + 1).last() == out@[k as int]@);
                }
                if !contains_str(&order, &out[k].to) {
                    let ghost before = strings_view(stack@);
                    push_str_copy(&mut stack, &out[k].to);
                    proof {
                        assert(strings_view(stack@) =~= rest + fresh_targets(edges_view(out@).take(k + 1), seen));
                    }
                }
                k = k + 1;
            }
            proof {
                assert(edges_view(out@).take(out.len() as int) =~= edges_view(out@));
                lemma_unvisited_push(sources(edges), ov, curr@);
                lemma_edges_from_sources(edges, curr@);
                lemma_fresh_len(edges_from(edges, curr@), seen);
            }
        }
    }
    let ghost d = strings_view(order@);
    let mut i: usize = 0;
    proof {
        assert(nodes.take(0) =~= Seq::<SpecNode>::empty());
    }
    while i < fc.nodes.len()
        invariant
            i <= fc.nodes.len(),
            nodes == fc@.nodes,
            edges == fc@.edges,
            d == goal,
            goal == dfs_order(edges, start_stack(nodes, edges), seq![]),
            strings_view(order@) == complete_order(nodes.take(i as int), d),
        decreases fc.nodes.len() - i,
    {
        proof {
            assert(nodes.take(i + 1).drop_last() =~= nodes.take(i as int));
            assert(nodes.take(i + 1).last() == fc.nodes@[i as int]@);
        }
        if !contains_str(&order, &fc.nodes[i].id) {
            push_str_copy(&mut order, &fc.nodes[i].id);
        }
        i = i + 1;
    }
    proof {
        assert(nodes.take(fc.nodes.len() as int) =~= nodes);
    }
    order
}


fn td_edge_lines_exec(e: &Edge) -> (s: String)
    ensures
        s@ == td_edge_lines(e@),
{
    proof {
        lemma_ansi_codes();
    }
    let mut s = String::new();
    match &e.label {
        Some(l) => {
            put(&mut s, Ansi::DIM);
            put(&mut s, "     │  ");
            put(&mut s, Ansi::YELLOW);
            put(&mut s, l.as_str());
            put(&mut s, Ansi::RESET);
            put(&mut s, "\n");
        },
        None => {},
    }
    let ghost head = s@;
    match e.edge_type {
        EdgeType::DottedArrow => {
            put(&mut s, Ansi::YELLOW);
            put(&mut s, "     :\n     ▼");
        },
        EdgeType::ThickArrow => {
            put(&mut s, Ansi::BRIGHT_GREEN);
            put(&mut s, "     ║\n     ▼");
        },
        EdgeType::SolidArrow => {
            put(&mut s, Ansi::BLUE);
            put(&mut s, "     │\n     ▼");
        },
        EdgeType::SolidLine => {
            put(&mut s, Ansi::DIM);
            put(&mut s, "     │\n     │");
        },
    }
    put(&mut s, Ansi::RESET);
    put(&mut s, "\n");
    assert(s@ =~= td_edge_lines(e@));
    s
}

fn has_adj_exec(fc: &Flowchart, id: &String) -> (b: bool)
    ensures
        b == has_adj(fc@.nodes, fc@.edges, id@),
{
    let n = lookup_index(&fc.nodes, id);
    if n.is_some() {
        return true;
    }
    let mut i: usize = 0;
    while i < fc.edges.len()
        invariant
            i <= fc.edges.len(),
            forall|j: int| 0 <= j < i ==> fc.edges@[j].from@ != id@,
        decreases fc.edges.len() - i,
    {
        if fc.edges[i].from == *id {
            proof {
                assert(sources(fc@.edges)[i as int] == id@);
            }
            return true;
        }
        i = i + 1;
    }
    proof {
        if sources(fc@.edges).contains(id@) {
            let j = choose|j: int| 0 <= j < sources(fc@.edges).len() && sources(fc@.edges)[j] == id@;
            assert(fc.edges@[j].from@ == id@);
        }
    }
    false
}

fn lookup_index(nodes: &Vec<Node>, id: &String) -> (r: Option<usize>)
    ensures
        r is Some <==> has_node(nodes_view(nodes@), id@),
{
    let mut i: usize = 0;
    while i < nodes.len()
        invariant
            i <= nodes.len(),
            forall|j: int| 0 <= j < i ==> nodes@[j].id@ != id@,
        decreases nodes.len() - i,
    {
        if nodes[i].id == *id {
            proof {
                assert(nodes_view(nodes@)[i as int].id == id@);
            }
            return Some(i);
        }
        i = i + 1;
    }
    proof {
        if has_node(nodes_view(nodes@), id@) {
            let j = choose|j: int| 0 <= j < nodes_view(nodes@).len() && (#[trigger] nodes_view(nodes@)[j]).id == id@;
            assert(nodes@[j].id@ == id@);
        }
    }
    None
}

/// What a box drawn for this id needs: readable colours and fitting widths.
proof fn lemma_td_box_ok(fc: SpecFlowchart, id: Seq<char>)
    requires
        flowchart_fits(fc),
        td_colors_ok(fc.nodes),
        has_node(fc.nodes, id) || targets(fc.edges).contains(id),
    ensures
        node_colors_ok(lookup_node(fc.nodes, id)),
        lookup_node(fc.nodes, id).label.len() + 2 <= usize::MAX,
{
    lemma_node_at(fc.nodes, id, 0);
    if has_node(fc.nodes, id) {
        let i = choose|i: int| 0 <= i < fc.nodes.len() && (#[trigger] fc.nodes[i]).id == id;
        assert(node_fits(fc.nodes[i]));
        lemma_lookup_fits(fc.nodes, id);
    } else {
        let j = choose|j: int| 0 <= j < targets(fc.edges).len() && targets(fc.edges)[j] == id;
        assert(fc.edges[j].to == id);
        if node_at(fc.nodes, id, 0) is Some {
            assert(fc.nodes[node_at(fc.nodes, id, 0)->0].id == id);
        }
    }
}

fn td_section_exec(fc: &Flowchart, order: &Vec<String>, idx: usize) -> (s: String)
    requires
        idx < order.len(),
        strings_view(order@) == td_order(fc@.nodes, fc@.edges),
        flowchart_fits(fc@),
        td_colors_ok(fc@.nodes),
    ensures
        s@ == td_section(fc@.nodes, fc@.edges, strings_view(order@), idx as int),
{
    proof {
        lemma_ansi_codes();
    }
    let ghost nodes = fc@.nodes;
    let ghost edges = fc@.edges;
    let ghost ov = strings_view(order@);
    let id = &order[idx];
    proof {
        assert(ov[idx as int] == id@);
        lemma_td_order_members(nodes, edges);
        assert(ov.contains(id@));
        lemma_td_box_ok(fc@, id@);
    }
    let node = lookup_node_exec(&fc.nodes, id);
    let b = format_node_box(&node);
    let mut s = String::new();
    put(&mut s, b[0].as_str());
    put(&mut s, "\n");
    put(&mut s, b[1].as_str());
    put(&mut s, "\n");
    put(&mut s, b[2].as_str());
    put(&mut s, "\n");
    proof {
        assert(strings_view(b@)[0] == b@[0]@);
        assert(strings_view(b@)[1] == b@[1]@);
        assert(strings_view(b@)[2] == b@[2]@);
        assert(s@ =~= box_rows(node_box(lookup_node(nodes, id@))));
    }
    let ghost head = s@;
    if has_adj_exec(fc, id) {
        let out = edges_from_exec(&fc.edges, id);
        let ghost es = edges_view(out@);
        let ghost f = |e: SpecEdge| td_edge_lines(e);
        let mut k: usize = 0;
        while k < out.len()
            invariant
                k <= out.len(),
                es == edges_view(out@),
                f == (|e: SpecEdge| td_edge_lines(e)),
                s@ == head + concat(es.take(k as int).map_values(f)),
            decreases out.len() - k,
        {
            let lines = td_edge_lines_exec(&out[k]);
            let ghost prev = s@;
            put(&mut s, lines.as_str());
            proof {
                assert(es[k as int] == out@[k as int]@);
                assert(f(out@[k as int]@) == lines@);
                assert(prev == head + concat(es.take(k as int).map_values(f)));
                assert(s@ == prev + lines@);
                assert(es.take(k + 1).map_values(f) =~= es.take(k as int).map_values(f).push(f(out@[k as int]@)));
                lemma_concat_push(es.take(k as int).map_values(f), f(out@[k as int]@));
                assert(s@ =~= head + concat(es.take(k + 1).map_values(f)));
            }
            k = k + 1;
        }
        proof {
            assert(es.take(out.len() as int) =~= es);
        }
    } else if idx < order.len() - 1 {
        put(&mut s, Ansi::BLUE);
        put(&mut s, "     │\n     ▼");
        put(&mut s, Ansi::RESET);
        put(&mut s, "\n");
        proof {
            assert(s@ =~= head + (blue() + "     │\n     ▼"@ + reset() + "\n"@));
        }
    } else {
        proof {
            assert(s@ =~= head + Seq::<char>::empty());
        }
    }
    s
}

fn render_td(fc: &Flowchart) -> (out: String)
    requires
        flowchart_fits(fc@),
        td_colors_ok(fc@.nodes),
    ensures
        out@ == td_output(fc@.nodes, fc@.edges),
{
    let ghost nodes = fc@.nodes;
    let ghost edges = fc@.edges;
    let order = td_order_exec(fc);
    let ghost ov = strings_view(order@);
    let mut out = String::new();
    let mut i: usize = 0;
    while i < order.len()
        invariant
            i <= order.len(),
            nodes == fc@.nodes,
            edges == fc@.edges,
            ov == strings_view(order@),
            ov == td_order(nodes, edges),
            flowchart_fits(fc@),
            td_colors_ok(fc@.nodes),
            out@ == concat(Seq::new(i as nat, |k: int| td_section(nodes, edges, ov, k))),
        decreases order.len() - i,
    {
        let sec = td_section_exec(fc, &order, i);
        put(&mut out, sec.as_str());
        proof {
            let f = |k: int| td_section(nodes, edges, ov, k);
            assert(Seq::new((i + 1) as nat, f).drop_last() =~= Seq::new(i as nat, f));
        }
        i = i + 1;
    }
    out
}

/// Draws a flowchart.
fn render_flowchart_ascii(fc: &Flowchart) -> (out: String)
    requires
        flowchart_fits(fc@),
        flowchart_colors_ok(fc@),
    ensures
        out@ == flowchart_text(fc@),
{
    if fc.nodes.len() == 0 {
        return "Empty diagram".to_owned();
    }
    match fc.direction {
        crate::parser::Direction::LeftToRight => render_lr(fc),
        _ => render_td(fc),
    }
}


// ---------------------------------------------------------------------------
// Sequence diagrams
// ---------------------------------------------------------------------------

/// The centre column of the `k`-th participant's lifeline.
pub open spec fn col_center(k: int) -> int {
    k * 19 + 9
}

/// The row of lifelines of `n` participants: a bar at the centre of each
/// 19-column slot, blanks elsewhere.
pub open spec fn lifeline_row(n: int) -> Seq<char> {
    Seq::new((n * 19) as nat, |x: int| if x % 19 == 9 { '│' } else { ' ' })
}

/// A participant's name as its header box shows it: at most 14 characters.
pub open spec fn header_label(p: Seq<char>) -> Seq<char> {
    if p.len() > 14 {
        p.take(14)
    } else {
        p
    }
}

pub open spec fn header_box(p: Seq<char>) -> Seq<char> {
    cyan() + "┌"@ + rep('─', 16) + "┐"@ + reset() + " "@
}

pub open spec fn header_line(p: Seq<char>) -> Seq<char> {
    let l = header_label(p);
    let pad = 16 - l.len();
    cyan() + "│"@ + rep(' ', pad / 2) + bold() + l + reset() + rep(' ', pad - pad / 2) + "│"@ + cyan()
        + " "@
}

pub open spec fn header_bottom(p: Seq<char>) -> Seq<char> {
    cyan() + "└"@ + rep('─', 16) + "┘"@ + reset() + " "@
}

/// The first index of `x` among the participants from `k` on.
pub open spec fn position_from(ps: Seq<Seq<char>>, x: Seq<char>, k: int) -> Option<int>
    decreases ps.len() - k,
{
    if k < 0 || k >= ps.len() {
        None
    } else if ps[k] == x {
        Some(k)
    } else {
        position_from(ps, x, k + 1)
    }
}

/// The row above a message arrow: the lifelines with the label written from
/// two columns right of the left end, cut before the right end.
pub open spec fn message_label_row(n: int, start: int, end: int, label: Seq<char>) -> Seq<char> {
    let line = lifeline_row(n);
    Seq::new(
        line.len(),
        |x: int|
            if start + 2 <= x < end && x - (start + 2) < label.len() {
                label[x - (start + 2)]
            } else {
                line[x]
            },
    )
}

/// The row of a message arrow between columns `start` and `end`, pointing
/// right when `rightwards`.
pub open spec fn message_arrow_row(n: int, start: int, end: int, rightwards: bool) -> Seq<char> {
    let line = lifeline_row(n);
    Seq::new(
        line.len(),
        |x: int|
            if start < x < end {
                '─'
            } else if rightwards && x == end {
                '▶'
            } else if !rightwards && x == start {
                '◀'
            } else {
                line[x]
            },
    )
}

/// The rows one sequence item draws.
pub open spec fn item_text(ps: Seq<Seq<char>>, it: SpecSequenceItem) -> Seq<char> {
    let n = ps.len() as int;
    let total = n * 19;
    match it {
        SpecSequenceItem::Message(m) => match (position_from(ps, m.from, 0), position_from(ps, m.to, 0)) {
            (Some(f), Some(t)) => {
                let start = col_center(if f <= t { f } else { t });
                let end = col_center(if f <= t { t } else { f });
                bright_yellow() + message_label_row(n, start, end, m.label) + reset() + "\n"@ + green()
                    + message_arrow_row(n, start, end, f < t) + reset() + "\n"@ + dim() + lifeline_row(n)
                    + reset() + "\n"@
            },
            _ => seq![],
        },
        SpecSequenceItem::LoopStart { label } => magenta() + " ╭── loop ["@ + white() + label + magenta()
            + "] "@ + rep('─', total - (label.len() + 16)) + "╮"@ + reset() + "\n"@,
        SpecSequenceItem::LoopEnd => magenta() + " ╰"@ + rep('─', total - 4) + "╯"@ + reset() + "\n"@,
        SpecSequenceItem::AltStart { label } => yellow() + " ╭── alt ["@ + white() + label + yellow()
            + "] "@ + rep('─', total - (label.len() + 15)) + "╮"@ + reset() + "\n"@,
        SpecSequenceItem::AltElse { label } => yellow() + " ├── else ["@ + white() + label + yellow()
            + "] "@ + rep('─', total - (label.len() + 16)) + "┤"@ + reset() + "\n"@,
        SpecSequenceItem::AltEnd => yellow() + " ╰"@ + rep('─', total - 4) + "╯"@ + reset() + "\n"@,
        SpecSequenceItem::Note { over, text } => bright_cyan() + " [Note: "@ + text + "]"@ + reset()
            + "\n"@,
    }
}

/// What a sequence diagram renders to.
pub open spec fn sequence_text(d: SpecSequenceDiagram) -> Seq<char> {
    let ps = d.participants;
    if ps.len() == 0 {
        "Empty sequence diagram"@
    } else {
        concat(ps.map_values(|p: Seq<char>| header_box(p))) + "\n"@ + concat(
            ps.map_values(|p: Seq<char>| header_line(p)),
        ) + "\n"@ + concat(ps.map_values(|p: Seq<char>| header_bottom(p))) + "\n"@ + dim()
            + lifeline_row(ps.len() as int) + reset() + "\n"@ + concat(
            d.items.map_values(|it: SpecSequenceItem| item_text(ps, it)),
        )
    }
}

/// The length of the label or text an item carries.
pub open spec fn item_label_len(it: SpecSequenceItem) -> int {
    match it {
        SpecSequenceItem::Message(m) => m.label.len() as int,
        SpecSequenceItem::LoopStart { label } => label.len() as int,
        SpecSequenceItem::AltStart { label } => label.len() as int,
        SpecSequenceItem::AltElse { label } => label.len() as int,
        _ => 0,
    }
}

/// Whether a sequence diagram's widths fit the machine's.
pub open spec fn sequence_fits(d: SpecSequenceDiagram) -> bool {
    &&& d.participants.len() * 19 + 16 <= usize::MAX
    &&& forall|i: int|
        0 <= i < d.items.len() ==> item_label_len(#[trigger] d.items[i]) + d.participants.len() * 19
            + 16 <= usize::MAX
}


fn lifeline_exec(n: usize) -> (row: Vec<char>)
    requires
        n * 19 <= usize::MAX,
    ensures
        row@ == lifeline_row(n as int),
{
    let total = n * 19;
    let mut row: Vec<char> = Vec::new();
    let mut k: usize = 0;
    while k < total
        invariant
            k <= total == n * 19,
            row@ == Seq::new(k as nat, |x: int| if x % 19 == 9 { '│' } else { ' ' }),
        decreases total - k,
    {
        if k % 19 == 9 {
            row.push('│');
        } else {
            row.push(' ');
        }
        k = k + 1;
        assert(row@ =~= Seq::new(k as nat, |x: int| if x % 19 == 9 { '│' } else { ' ' }));
    }
    row
}

fn header_label_exec(p: &String) -> (l: Vec<char>)
    ensures
        l@ == header_label(p@),
{
    let cs = to_chars(p.as_str());
    if cs.len() > 14 {
        let l = slice_of(&cs, 0, 14);
        assert(l@ =~= cs@.take(14));
        l
    } else {
        cs
    }
}

fn push_header(boxes: &mut String, lines: &mut String, bots: &mut String, p: &String)
    ensures
        final(boxes)@ == old(boxes)@ + header_box(p@),
        final(lines)@ == old(lines)@ + header_line(p@),
        final(bots)@ == old(bots)@ + header_bottom(p@),
{
    proof {
        lemma_ansi_codes();
    }
    let label = header_label_exec(p);
    let ll = label.len();
    let pad = 16 - ll;
    let pl = pad / 2;
    let pr = pad - pl;
    put(boxes, Ansi::CYAN);
    put(boxes, "┌");
    push_rep(boxes, '─', 16);
    put(boxes, "┐");
    put(boxes, Ansi::RESET);
    put(boxes, " ");
    put(lines, Ansi::CYAN);
    put(lines, "│");
    push_rep(lines, ' ', pl);
    put(lines, Ansi::BOLD);
    put(lines, from_chars(&label).as_str());
    put(lines, Ansi::RESET);
    push_rep(lines, ' ', pr);
    put(lines, "│");
    put(lines, Ansi::CYAN);
    put(lines, " ");
    put(bots, Ansi::CYAN);
    put(bots, "└");
    push_rep(bots, '─', 16);
    put(bots, "┘");
    put(bots, Ansi::RESET);
    put(bots, " ");
    assert(boxes@ =~= old(boxes)@ + header_box(p@));
    assert(lines@ =~= old(lines)@ + header_line(p@));
    assert(bots@ =~= old(bots)@ + header_bottom(p@));
}

fn position_exec(ps: &Vec<String>, x: &String) -> (r: Option<usize>)
    ensures
        r matches Some(i) ==> position_from(strings_view(ps@), x@, 0) == Some(i as int) && i < ps.len(),
        r is None ==> position_from(strings_view(ps@), x@, 0) is None,
{
    let ghost pv = strings_view(ps@);
    let mut i: usize = 0;
    while i < ps.len()
        invariant
            i <= ps.len(),
            pv == strings_view(ps@),
            position_from(pv, x@, 0) == position_from(pv, x@, i as int),
        decreases ps.len() - i,
    {
        proof {
            assert(pv[i as int] == ps@[i as int]@);
        }
        if ps[i] == *x {
            return Some(i);
        }
        i = i + 1;
    }
    None
}

fn label_row_exec(line: &Vec<char>, n: usize, start: usize, end: usize, label: &String) -> (row: Vec<char>)
    requires
        line@ == lifeline_row(n as int),
        start <= end < line.len(),
        line.len() + label@.len() + 16 <= usize::MAX,
    ensures
        row@ == message_label_row(n as int, start as int, end as int, label@),
{
    let mut row = slice_of(line, 0, line.len());
    let lab = to_chars(label.as_str());
    let ls = start + 2;
    let mut off: usize = 0;
    proof {
        assert(row@ =~= Seq::new(
            line@.len(),
            |x: int| if ls <= x < end && x - ls < 0 { lab@[x - ls] } else { line@[x] },
        ));
    }
    while off < lab.len()
        invariant
            off <= lab.len(),
            lab@ == label@,
            ls == start + 2,
            start <= end < line.len(),
            line.len() + label@.len() + 16 <= usize::MAX,
            row@ == Seq::new(
                line@.len(),
                |x: int| if ls <= x < end && x - ls < off { lab@[x - ls] } else { line@[x] },
            ),
        decreases lab.len() - off,
    {
        if ls + off < end {
            row.set(ls + off, lab[off]);
        }
        off = off + 1;
        assert(row@ =~= Seq::new(
            line@.len(),
            |x: int| if ls <= x < end && x - ls < off { lab@[x - ls] } else { line@[x] },
        ));
    }
    assert(row@ =~= message_label_row(n as int, start as int, end as int, label@));
    row
}

fn arrow_row_exec(line: &Vec<char>, n: usize, start: usize, end: usize, rightwards: bool) -> (row: Vec<char>)
    requires
        line@ == lifeline_row(n as int),
        start <= end < line.len(),
    ensures
        row@ == message_arrow_row(n as int, start as int, end as int, rightwards),
{
    let mut row = slice_of(line, 0, line.len());
    let mut x = start + 1;
    proof {
        assert(row@ =~= Seq::new(line@.len(), |y: int| if start < y < x { '─' } else { line@[y] }));
    }
    while x < end
        invariant
            start < x,
            start <= end < line.len(),
            x <= end || x == start + 1,
            row@ == Seq::new(line@.len(), |y: int| if start < y < x { '─' } else { line@[y] }),
        decreases end - x,
    {
        row.set(x, '─');
        x = x + 1;
        assert(row@ =~= Seq::new(line@.len(), |y: int| if start < y < x { '─' } else { line@[y] }));
    }
    if rightwards {
        row.set(end, '▶');
    } else {
        row.set(start, '◀');
    }
    assert(row@ =~= message_arrow_row(n as int, start as int, end as int, rightwards));
    row
}

fn put_chars(out: &mut String, cs: &Vec<char>)
    ensures
        final(out)@ == old(out)@ + cs@,
{
    let s = from_chars(cs);
    put(out, s.as_str());
}

fn item_text_exec(ps: &Vec<String>, line: &Vec<char>, it: &SequenceItem) -> (s: String)
    requires
        ps.len() > 0,
        line@ == lifeline_row(ps.len() as int),
        ps.len() * 19 + 16 <= usize::MAX,
        item_label_len(it@) + ps.len() * 19 + 16 <= usize::MAX,
    ensures
        s@ == item_text(strings_view(ps@), it@),
{
    proof {
        lemma_ansi_codes();
    }
    let n = ps.len();
    let total = n * 19;
    let mut s = String::new();
    match it {
        SequenceItem::Message(m) => {
            let fi = position_exec(ps, &m.from);
            let ti = position_exec(ps, &m.to);
            match (fi, ti) {
                (Some(f), Some(t)) => {
                    let lo = if f <= t { f } else { t };
                    let hi = if f <= t { t } else { f };
                    let start = lo * 19 + 9;
                    let end = hi * 19 + 9;
                    let label_row = label_row_exec(line, n, start, end, &m.label);
                    let arrow_row = arrow_row_exec(line, n, start, end, f < t);
                    put(&mut s, Ansi::BRIGHT_YELLOW);
                    put_chars(&mut s, &label_row);
                    put(&mut s, Ansi::RESET);
                    put(&mut s, "\n");
                    put(&mut s, Ansi::GREEN);
                    put_chars(&mut s, &arrow_row);
                    put(&mut s, Ansi::RESET);
                    put(&mut s, "\n");
                    put(&mut s, Ansi::DIM);
                    put_chars(&mut s, line);
                    put(&mut s, Ansi::RESET);
                    put(&mut s, "\n");
                },
                _ => {},
            }
        },
        SequenceItem::LoopStart { label } => {
            let ll = char_count(label);
            let w = if total >= ll + 16 { total - (ll + 16) } else { 0 };
            put(&mut s, Ansi::MAGENTA);
            put(&mut s, " ╭── loop [");
            put(&mut s, Ansi::WHITE);
            put(&mut s, label.as_str());
            put(&mut s, Ansi::MAGENTA);
            put(&mut s, "] ");
            push_rep(&mut s, '─', w);
            put(&mut s, "╮");
            put(&mut s, Ansi::RESET);
            put(&mut s, "\n");
        },
        SequenceItem::LoopEnd => {
            put(&mut s, Ansi::MAGENTA);
            put(&mut s, " ╰");
            push_rep(&mut s, '─', if total >= 4 { total - 4 } else { 0 });
            put(&mut s, "╯");
            put(&mut s, Ansi::RESET);
            put(&mut s, "\n");
        },
        SequenceItem::AltStart { label } => {
            let ll = char_count(label);
            let w = if total >= ll + 15 { total - (ll + 15) } else { 0 };
            put(&mut s, Ansi::YELLOW);
            put(&mut s, " ╭── alt [");
            put(&mut s, Ansi::WHITE);
            put(&mut s, label.as_str());
            put(&mut s, Ansi::YELLOW);
            put(&mut s, "] ");
            push_rep(&mut s, '─', w);
            put(&mut s, "╮");
            put(&mut s, Ansi::RESET);
            put(&mut s, "\n");
        },
        SequenceItem::AltElse { label } => {
            let ll = char_count(label);
            let w = if total >= ll + 16 { total - (ll + 16) } else { 0 };
            put(&mut s, Ansi::YELLOW);
            put(&mut s, " ├── else [");
            put(&mut s, Ansi::WHITE);
            put(&mut s, label.as_str());
            put(&mut s, Ansi::YELLOW);
            put(&mut s, "] ");
            push_rep(&mut s, '─', w);
            put(&mut s, "┤");
            put(&mut s, Ansi::RESET);
            put(&mut s, "\n");
        },
        SequenceItem::AltEnd => {
            put(&mut s, Ansi::YELLOW);
            put(&mut s, " ╰");
            push_rep(&mut s, '─', if total >= 4 { total - 4 } else { 0 });
            put(&mut s, "╯");
            put(&mut s, Ansi::RESET);
            put(&mut s, "\n");
        },
        SequenceItem::Note { text, .. } => {
            put(&mut s, Ansi::BRIGHT_CYAN);
            put(&mut s, " [Note: ");
            put(&mut s, text.as_str());
            put(&mut s, "]");
            put(&mut s, Ansi::RESET);
            put(&mut s, "\n");
        },
    }
    assert(s@ =~= item_text(strings_view(ps@), it@));
    s
}

/// Draws a sequence diagram.
fn render_sequence_ascii(d: &SequenceDiagram) -> (out: String)
    requires
        sequence_fits(d@),
    ensures
        out@ == sequence_text(d@),
{
    proof {
        lemma_ansi_codes();
    }
    if d.participants.len() == 0 {
        return "Empty sequence diagram".to_owned();
    }
    let ghost ps = strings_view(d.participants@);
    let mut boxes = String::new();
    let mut lines = String::new();
    let mut bots = String::new();
    let mut i: usize = 0;
    while i < d.participants.len()
        invariant
            i <= d.participants.len(),
            ps == strings_view(d.participants@),
            boxes@ == concat(ps.take(i as int).map_values(|p: Seq<char>| header_box(p))),
            lines@ == concat(ps.take(i as int).map_values(|p: Seq<char>| header_line(p))),
            bots@ == concat(ps.take(i as int).map_values(|p: Seq<char>| header_bottom(p))),
        decreases d.participants.len() - i,
    {
        let p = &d.participants[i];
        push_header(&mut boxes, &mut lines, &mut bots, p);
        proof {
            assert(ps[i as int] == p@);
            assert(ps.take(i + 1).map_values(|p: Seq<char>| header_box(p)) =~= ps.take(i as int).map_values(
                |p: Seq<char>| header_box(p),
            ).push(header_box(p@)));
            assert(ps.take(i + 1).map_values(|p: Seq<char>| header_line(p)) =~= ps.take(i as int).map_values(
                |p: Seq<char>| header_line(p),
            ).push(header_line(p@)));
            assert(ps.take(i + 1).map_values(|p: Seq<char>| header_bottom(p)) =~= ps.take(i as int).map_values(
                |p: Seq<char>| header_bottom(p),
            ).push(header_bottom(p@)));
            lemma_concat_push(ps.take(i as int).map_values(|p: Seq<char>| header_box(p)), header_box(p@));
            lemma_concat_push(ps.take(i as int).map_values(|p: Seq<char>| header_line(p)), header_line(p@));
            lemma_concat_push(ps.take(i as int).map_values(|p: Seq<char>| header_bottom(p)), header_bottom(p@));
        }
        i = i + 1;
    }
    proof {
        assert(ps.take(d.participants.len() as int) =~= ps);
    }
    let line = lifeline_exec(d.participants.len());
    let mut out = String::new();
    put(&mut out, boxes.as_str());
    put(&mut out, "\n");
    put(&mut out, lines.as_str());
    put(&mut out, "\n");
    put(&mut out, bots.as_str());
    put(&mut out, "\n");
    put(&mut out, Ansi::DIM);
    put_chars(&mut out, &line);
    put(&mut out, Ansi::RESET);
    put(&mut out, "\n");
    let ghost head = out@;
    let ghost items = items_view(d.items@);
    let mut k: usize = 0;
    while k < d.items.len()
        invariant
            k <= d.items.len(),
            ps == strings_view(d.participants@),
            items == items_view(d.items@),
            d.participants.len() > 0,
            line@ == lifeline_row(d.participants.len() as int),
            sequence_fits(d@),
            out@ == head + concat(items.take(k as int).map_values(|it: SpecSequenceItem| item_text(ps, it))),
        decreases d.items.len() - k,
    {
        proof {
            assert(items[k as int] == d.items@[k as int]@);
            assert(item_label_len(d@.items[k as int]) + d.participants.len() * 19 + 16 <= usize::MAX);
        }
        let t = item_text_exec(&d.participants, &line, &d.items[k]);
        let ghost prev = out@;
        put(&mut out, t.as_str());
        proof {
            let f = |it: SpecSequenceItem| item_text(ps, it);
            assert(items.take(k + 1).map_values(f) =~= items.take(k as int).map_values(f).push(f(items[k as int])));
            lemma_concat_push(items.take(k as int).map_values(f), f(items[k as int]));
            assert(out@ =~= head + concat(items.take(k + 1).map_values(f)));
        }
        k = k + 1;
    }
    proof {
        assert(items.take(d.items.len() as int) =~= items);
    }
    out
}


// ---------------------------------------------------------------------------
// Class diagrams
// ---------------------------------------------------------------------------

/// The width a member asks of its class box.
pub open spec fn member_width(m: SpecClassMember) -> int {
    (m.name.len() + m.member_type.len() + 4) as int
}

/// The largest width the members ask, 0 when there are none.
pub open spec fn members_width(ms: Seq<SpecClassMember>) -> int
    decreases ms.len(),
{
    if ms.len() == 0 {
        0
    } else {
        let w = members_width(ms.drop_last());
        if member_width(ms.last()) > w {
            member_width(ms.last())
        } else {
            w
        }
    }
}

/// The inner width of a class box: room for the widest member and for the
/// name with two blanks on each side.
pub open spec fn class_width(c: SpecClassItem) -> int {
    let w = members_width(c.members);
    if c.name.len() + 4 > w {
        (c.name.len() + 4) as int
    } else {
        w
    }
}

/// A member as its row shows it: green for a method, yellow for a field,
/// then the visibility mark, the name and, when there is one, the type.
pub open spec fn member_text(m: SpecClassMember) -> Seq<char> {
    let base = (if m.is_method {
        green()
    } else {
        yellow()
    }).push(m.visibility) + " "@ + white() + m.name;
    if m.member_type.len() == 0 {
        base
    } else {
        base + ": "@ + dim() + m.member_type
    }
}

pub open spec fn member_row(w: int, m: SpecClassMember) -> Seq<char> {
    cyan() + "│ "@ + member_text(m) + rep(' ', w - (m.name.len() + m.member_type.len() + 6)) + cyan()
        + " │"@ + reset() + "\n"@
}

/// A horizontal rule of a class box, `w` wide between its two corners.
pub open spec fn box_rule(left: Seq<char>, right: Seq<char>, w: int) -> Seq<char> {
    cyan() + left + rep('─', w) + right + reset() + "\n"@
}

/// The row of a class box that shows the class's name centred.
pub open spec fn name_row(name: Seq<char>, w: int) -> Seq<char> {
    let pad = w - 2 - name.len();
    cyan() + "│ "@ + bold() + rep(' ', pad / 2) + name + rep(' ', pad - pad / 2) + cyan() + " │"@ + reset()
        + "\n"@
}

/// The box of one class: a rule, the name centred, a rule, a row per member
/// and a closing rule, followed by a blank line.
pub open spec fn class_box(c: SpecClassItem) -> Seq<char> {
    let w = class_width(c);
    box_rule("┌"@, "┐"@, w) + name_row(c.name, w) + box_rule("├"@, "┤"@, w) + concat(
        c.members.map_values(|m: SpecClassMember| member_row(w, m)),
    ) + box_rule("└"@, "┘"@, w) + "\n"@
}

/// One relation line: `from relation to`, with ` : label` when labelled.
pub open spec fn relation_line(r: SpecClassRelation) -> Seq<char> {
    bold() + r.from + " "@ + bright_green() + r.relation_type + bold() + " "@ + r.to + dim() + (match r.label {
        Some(l) => " : "@ + l,
        None => seq![],
    }) + "\n"@
}

/// What a class diagram renders to: the boxes, then the relations.
pub open spec fn class_text(d: SpecClassDiagram) -> Seq<char> {
    concat(d.classes.map_values(|c: SpecClassItem| class_box(c))) + concat(
        d.relations.map_values(|r: SpecClassRelation| relation_line(r)),
    )
}

/// Whether a class's widths fit the machine's.
pub open spec fn class_fits(c: SpecClassItem) -> bool {
    &&& c.name.len() + 4 <= usize::MAX
    &&& forall|j: int| 0 <= j < c.members.len() ==> member_width(#[trigger] c.members[j]) + 2 <= usize::MAX
}

pub open spec fn class_diagram_fits(d: SpecClassDiagram) -> bool {
    forall|i: int| 0 <= i < d.classes.len() ==> class_fits(#[trigger] d.classes[i])
}

fn class_width_exec(c: &ClassItem) -> (w: usize)
    requires
        class_fits(c@),
    ensures
        w == class_width(c@),
        w >= c@.name.len() + 4,
{
    let ghost ms = c@.members;
    let mut best: usize = 0;
    let mut j: usize = 0;
    while j < c.members.len()
        invariant
            j <= c.members.len(),
            ms == members_view(c.members@),
            class_fits(c@),
            best == members_width(ms.take(j as int)),
        decreases c.members.len() - j,
    {
        let m = &c.members[j];
        proof {
            assert(ms[j as int] == m@);
            assert(member_width(c@.members[j as int]) + 2 <= usize::MAX);
            assert(ms.take(j + 1).drop_last() =~= ms.take(j as int));
        }
        let mw = char_count(&m.name) + char_count(&m.member_type) + 4;
        if mw > best {
            best = mw;
        }
        j = j + 1;
    }
    proof {
        assert(ms.take(c.members.len() as int) =~= ms);
    }
    let nw = char_count(&c.name) + 4;
    if nw > best {
        nw
    } else {
        best
    }
}

fn member_text_exec(m: &ClassMember) -> (t: String)
    ensures
        t@ == member_text(m@),
{
    proof {
        lemma_ansi_codes();
    }
    let mut t = String::new();
    if m.is_method {
        put(&mut t, Ansi::GREEN);
    } else {
        put(&mut t, Ansi::YELLOW);
    }
    assert(t@ =~= (if m.is_method {
        green()
    } else {
        yellow()
    }));
    push_char(&mut t, m.visibility);
    put(&mut t, " ");
    put(&mut t, Ansi::WHITE);
    put(&mut t, m.name.as_str());
    if char_count(&m.member_type) != 0 {
        put(&mut t, ": ");
        put(&mut t, Ansi::DIM);
        put(&mut t, m.member_type.as_str());
    }
    t
}

fn member_row_exec(out: &mut String, w: usize, m: &ClassMember)
    requires
        member_width(m@) + 2 <= usize::MAX,
    ensures
        final(out)@ == old(out)@ + member_row(w as int, m@),
{
    proof {
        lemma_ansi_codes();
    }
    let t = member_text_exec(m);
    let used = char_count(&m.name) + char_count(&m.member_type) + 6;
    let pad: usize = if w > used {
        w - used
    } else {
        0
    };
    let mut r = String::new();
    put(&mut r, Ansi::CYAN);
    put(&mut r, "│ ");
    put(&mut r, t.as_str());
    push_rep(&mut r, ' ', pad);
    put(&mut r, Ansi::CYAN);
    put(&mut r, " │");
    put(&mut r, Ansi::RESET);
    put(&mut r, "\n");
    proof {
        assert(rep(' ', pad as int) =~= rep(' ', w - (m@.name.len() + m@.member_type.len() + 6)));
        assert(r@ =~= member_row(w as int, m@));
    }
    put(out, r.as_str());
}

fn box_rule_exec(out: &mut String, left: &str, right: &str, w: usize)
    ensures
        final(out)@ == old(out)@ + box_rule(left@, right@, w as int),
{
    proof {
        lemma_ansi_codes();
    }
    let mut r = String::new();
    put(&mut r, Ansi::CYAN);
    put(&mut r, left);
    push_rep(&mut r, '─', w);
    put(&mut r, right);
    put(&mut r, Ansi::RESET);
    put(&mut r, "\n");
    assert(r@ =~= box_rule(left@, right@, w as int));
    put(out, r.as_str());
}

fn name_row_exec(out: &mut String, name: &String, w: usize)
    requires
        w >= name@.len() + 2,
    ensures
        final(out)@ == old(out)@ + name_row(name@, w as int),
{
    proof {
        lemma_ansi_codes();
    }
    let pad = w - 2 - char_count(name);
    let mut r = String::new();
    put(&mut r, Ansi::CYAN);
    put(&mut r, "│ ");
    put(&mut r, Ansi::BOLD);
    push_rep(&mut r, ' ', pad / 2);
    put(&mut r, name.as_str());
    push_rep(&mut r, ' ', pad - pad / 2);
    put(&mut r, Ansi::CYAN);
    put(&mut r, " │");
    put(&mut r, Ansi::RESET);
    put(&mut r, "\n");
    assert(r@ =~= name_row(name@, w as int));
    put(out, r.as_str());
}

fn class_box_exec(out: &mut String, c: &ClassItem)
    requires
        class_fits(c@),
    ensures
        final(out)@ == old(out)@ + class_box(c@),
{
    let w = class_width_exec(c);
    let mut b = String::new();
    box_rule_exec(&mut b, "┌", "┐", w);
    name_row_exec(&mut b, &c.name, w);
    box_rule_exec(&mut b, "├", "┤", w);
    let ghost head = b@;
    proof {
        assert(head =~= box_rule("┌"@, "┐"@, w as int) + name_row(c@.name, w as int) + box_rule("├"@, "┤"@, w as int));
    }
    let ghost ms = c@.members;
    let ghost f = |m: SpecClassMember| member_row(w as int, m);
    let mut j: usize = 0;
    while j < c.members.len()
        invariant
            j <= c.members.len(),
            ms == members_view(c.members@),
            class_fits(c@),
            f == (|m: SpecClassMember| member_row(w as int, m)),
            b@ == head + concat(ms.take(j as int).map_values(f)),
        decreases c.members.len() - j,
    {
        let m = &c.members[j];
        proof {
            assert(ms[j as int] == m@);
            assert(member_width(c@.members[j as int]) + 2 <= usize::MAX);
        }
        member_row_exec(&mut b, w, m);
        proof {
            assert(ms.take(j + 1).map_values(f) =~= ms.take(j as int).map_values(f).push(f(ms[j as int])));
            lemma_concat_push(ms.take(j as int).map_values(f), f(ms[j as int]));
        }
        j = j + 1;
    }
    proof {
        assert(ms.take(c.members.len() as int) =~= ms);
    }
    box_rule_exec(&mut b, "└", "┘", w);
    put(&mut b, "\n");
    proof {
        assert(b@ =~= class_box(c@));
    }
    put(out, b.as_str());
}

fn relation_line_exec(out: &mut String, r: &ClassRelation)
    ensures
        final(out)@ == old(out)@ + relation_line(r@),
{
    proof {
        lemma_ansi_codes();
    }
    let mut h = String::new();
    put(&mut h, Ansi::BOLD);
    put(&mut h, r.from.as_str());
    put(&mut h, " ");
    put(&mut h, Ansi::BRIGHT_GREEN);
    put(&mut h, r.relation_type.as_str());
    put(&mut h, Ansi::BOLD);
    put(&mut h, " ");
    put(&mut h, r.to.as_str());
    put(&mut h, Ansi::DIM);
    let ghost head = bold() + r@.from + " "@ + bright_green() + r@.relation_type + bold() + " "@ + r@.to + dim();
    assert(h@ =~= head);
    let mut tail = String::new();
    match &r.label {
        Some(l) => {
            put(&mut tail, " : ");
            put(&mut tail, l.as_str());
        },
        None => {},
    }
    assert(tail@ =~= (match r@.label {
        Some(l) => " : "@ + l,
        None => seq![],
    }));
    put(out, h.as_str());
    put(out, tail.as_str());
    put(out, "\n");
    proof {
        assert(final(out)@ =~= old(out)@ + relation_line(r@));
    }
}

fn render_class_ascii(d: &ClassDiagram) -> (out: String)
    requires
        class_diagram_fits(d@),
    ensures
        out@ == class_text(d@),
{
    let ghost cs = classes_view(d.classes@);
    let ghost rs = relations_view(d.relations@);
    let ghost fc = |c: SpecClassItem| class_box(c);
    let ghost fr = |r: SpecClassRelation| relation_line(r);
    let mut out = String::new();
    let mut i: usize = 0;
    while i < d.classes.len()
        invariant
            i <= d.classes.len(),
            cs == classes_view(d.classes@),
            class_diagram_fits(d@),
            fc == (|c: SpecClassItem| class_box(c)),
            out@ == concat(cs.take(i as int).map_values(fc)),
        decreases d.classes.len() - i,
    {
        proof {
            assert(cs[i as int] == d.classes@[i as int]@);
            assert(class_fits(d@.classes[i as int]));
        }
        class_box_exec(&mut out, &d.classes[i]);
        proof {
            assert(cs.take(i + 1).map_values(fc) =~= cs.take(i as int).map_values(fc).push(fc(cs[i as int])));
            lemma_concat_push(cs.take(i as int).map_values(fc), fc(cs[i as int]));
        }
        i = i + 1;
    }
    proof {
        assert(cs.take(d.classes.len() as int) =~= cs);
    }
    let ghost head = out@;
    let mut k: usize = 0;
    while k < d.relations.len()
        invariant
            k <= d.relations.len(),
            rs == relations_view(d.relations@),
            fr == (|r: SpecClassRelation| relation_line(r)),
            out@ == head + concat(rs.take(k as int).map_values(fr)),
        decreases d.relations.len() - k,
    {
        proof {
            assert(rs[k as int] == d.relations@[k as int]@);
        }
        relation_line_exec(&mut out, &d.relations[k]);
        proof {
            assert(rs.take(k + 1).map_values(fr) =~= rs.take(k as int).map_values(fr).push(fr(rs[k as int])));
            lemma_concat_push(rs.take(k as int).map_values(fr), fr(rs[k as int]));
        }
        k = k + 1;
    }
    proof {
        assert(rs.take(d.relations.len() as int) =~= rs);
    }
    out
}

// ---------------------------------------------------------------------------
// Any diagram
// ---------------------------------------------------------------------------

/// What a parsed diagram renders to.
pub open spec fn diagram_text(d: SpecDiagram) -> Seq<char> {
    match d {
        SpecDiagram::Flowchart(fc) => flowchart_text(fc),
        SpecDiagram::Sequence(sd) => sequence_text(sd),
        SpecDiagram::Class(cd) => class_text(cd),
    }
}

/// Whether the widths a diagram's rendering computes fit the machine's.
pub open spec fn diagram_fits(d: SpecDiagram) -> bool {
    match d {
        SpecDiagram::Flowchart(fc) => flowchart_fits(fc),
        SpecDiagram::Sequence(sd) => sequence_fits(sd),
        SpecDiagram::Class(cd) => class_diagram_fits(cd),
    }
}

/// Whether every colour word that rendering the diagram reads can be read
/// (a malformed `#` colour that cuts a character aborts the rendering).
pub open spec fn diagram_colors_ok(d: SpecDiagram) -> bool {
    match d {
        SpecDiagram::Flowchart(fc) => flowchart_colors_ok(fc),
        _ => true,
    }
}

/// Renders a diagram as coloured text.
pub fn render_ascii(diagram: &ParsedDiagram) -> (out: String)
    requires
        diagram_fits(diagram@),
        diagram_colors_ok(diagram@),
    ensures
        out@ == diagram_text(diagram@),
{
    match diagram {
        ParsedDiagram::Flowchart(fc) => render_flowchart_ascii(fc),
        ParsedDiagram::Sequence(sd) => render_sequence_ascii(sd),
        ParsedDiagram::Class(cd) => render_class_ascii(cd),
    }
}

/// Whether the colour words a flowchart's rendering reads can be read,
/// found at run time.
pub fn flowchart_colors_ok_exec(fc: &Flowchart) -> (b: bool)
    ensures
        b == flowchart_colors_ok(fc@),
{
    let ghost nv = nodes_view(fc.nodes@);
    let ghost ev = edges_view(fc.edges@);
    let lr = match fc.direction {
        Direction::LeftToRight => true,
        _ => false,
    };
    if lr {
        let mut i: usize = 0;
        while i < fc.edges.len()
            invariant
                i <= fc.edges.len(),
                nv == nodes_view(fc.nodes@),
                ev == edges_view(fc.edges@),
                fc.direction == Direction::LeftToRight,
                forall|j: int|
                    0 <= j < i ==> node_colors_ok(lookup_node(nv, (#[trigger] ev[j]).from))
                        && node_colors_ok(lookup_node(nv, ev[j].to)),
            decreases fc.edges.len() - i,
        {
            proof {
                assert(ev[i as int] == fc.edges@[i as int]@);
            }
            let a = lookup_node_exec(&fc.nodes, &fc.edges[i].from);
            let b = lookup_node_exec(&fc.nodes, &fc.edges[i].to);
            if !node_colors_ok_exec(&a) || !node_colors_ok_exec(&b) {
                proof {
                    assert(!(node_colors_ok(lookup_node(nv, ev[i as int].from)) && node_colors_ok(
                        lookup_node(nv, ev[i as int].to),
                    )));
                }
                return false;
            }
            i = i + 1;
        }
        true
    } else {
        let mut i: usize = 0;
        while i < fc.nodes.len()
            invariant
                i <= fc.nodes.len(),
                nv == nodes_view(fc.nodes@),
                fc.direction != Direction::LeftToRight,
                forall|j: int| 0 <= j < i ==> node_colors_ok(lookup_node(nv, (#[trigger] nv[j]).id)),
            decreases fc.nodes.len() - i,
        {
            proof {
                assert(nv[i as int] == fc.nodes@[i as int]@);
            }
            let a = lookup_node_exec(&fc.nodes, &fc.nodes[i].id);
            if !node_colors_ok_exec(&a) {
                proof {
                    assert(!node_colors_ok(lookup_node(nv, nv[i as int].id)));
                }
                return false;
            }
            i = i + 1;
        }
        true
    }
}

/// Renders a diagram, or gives `None` where rendering it would abort: where a
/// colour word of a style cannot be read, or a width overflows a `usize`.
pub fn try_render_ascii(diagram: &ParsedDiagram) -> (out: Option<String>)
    ensures
        out is None <==> !(diagram_fits(diagram@) && diagram_colors_ok(diagram@)),
        out matches Some(s) ==> s@ == diagram_text(diagram@),
{
    if !diagram_fits_exec(diagram) {
        return None;
    }
    let ok = match diagram {
        ParsedDiagram::Flowchart(fc) => flowchart_colors_ok_exec(fc),
        _ => true,
    };
    if ok {
        Some(render_ascii(diagram))
    } else {
        None
    }
}

/// Whether a length plus a margin fits a `usize`.
fn fits_with(len: usize, margin: usize) -> (b: bool)
    ensures
        b == (len + margin <= usize::MAX),
{
    len <= usize::MAX - margin
}

/// Whether a flowchart's widths fit the machine's, found at run time.
fn flowchart_fits_exec(fc: &Flowchart) -> (b: bool)
    ensures
        b == flowchart_fits(fc@),
{
    let ghost nv = nodes_view(fc.nodes@);
    let ghost ev = edges_view(fc.edges@);
    let mut i: usize = 0;
    while i < fc.nodes.len()
        invariant
            i <= fc.nodes.len(),
            nv == nodes_view(fc.nodes@),
            forall|j: int| 0 <= j < i ==> node_fits(#[trigger] nv[j]),
        decreases fc.nodes.len() - i,
    {
        proof {
            assert(nv[i as int] == fc.nodes@[i as int]@);
        }
        if !fits_with(char_count(&fc.nodes[i].label), 2) || !fits_with(char_count(&fc.nodes[i].id), 2) {
            proof {
                assert(!node_fits(nv[i as int]));
                assert(fc@.nodes == nv);
            }
            return false;
        }
        i = i + 1;
    }
    let mut k: usize = 0;
    while k < fc.edges.len()
        invariant
            k <= fc.edges.len(),
            nv == nodes_view(fc.nodes@),
            ev == edges_view(fc.edges@),
            forall|j: int| 0 <= j < fc.nodes.len() ==> node_fits(#[trigger] nv[j]),
            forall|j: int|
                0 <= j < k ==> (#[trigger] ev[j]).from.len() + 2 <= usize::MAX && ev[j].to.len() + 2
                    <= usize::MAX,
        decreases fc.edges.len() - k,
    {
        proof {
            assert(ev[k as int] == fc.edges@[k as int]@);
        }
        if !fits_with(char_count(&fc.edges[k].from), 2) || !fits_with(char_count(&fc.edges[k].to), 2) {
            proof {
                assert(!(ev[k as int].from.len() + 2 <= usize::MAX && ev[k as int].to.len() + 2
                    <= usize::MAX));
                assert(fc@.edges == ev);
            }
            return false;
        }
        k = k + 1;
    }
    true
}

fn item_label_len_exec(it: &SequenceItem) -> (n: usize)
    ensures
        n == item_label_len(it@),
{
    match it {
        SequenceItem::Message(m) => char_count(&m.label),
        SequenceItem::LoopStart { label } => char_count(label),
        SequenceItem::AltStart { label } => char_count(label),
        SequenceItem::AltElse { label } => char_count(label),
        _ => 0,
    }
}

/// Whether a sequence diagram's widths fit the machine's, found at run time.
fn sequence_fits_exec(d: &SequenceDiagram) -> (b: bool)
    ensures
        b == sequence_fits(d@),
{
    let n = d.participants.len();
    proof {
        assert(d@.participants.len() == n);
    }
    if n > (usize::MAX - 16) / 19 {
        proof {
            assert(n * 19 + 16 > usize::MAX) by (nonlinear_arith)
                requires
                    n > (usize::MAX - 16) / 19,
            ;
        }
        return false;
    }
    proof {
        assert(n * 19 + 16 <= usize::MAX) by (nonlinear_arith)
            requires
                n <= (usize::MAX - 16) / 19,
        ;
    }
    let base = n * 19 + 16;
    let ghost iv = items_view(d.items@);
    let mut i: usize = 0;
    while i < d.items.len()
        invariant
            i <= d.items.len(),
            n == d.participants.len(),
            base == n * 19 + 16,
            iv == items_view(d.items@),
            forall|j: int| 0 <= j < i ==> item_label_len(#[trigger] iv[j]) + n * 19 + 16 <= usize::MAX,
        decreases d.items.len() - i,
    {
        proof {
            assert(iv[i as int] == d.items@[i as int]@);
        }
        if !fits_with(item_label_len_exec(&d.items[i]), base) {
            proof {
                assert(!(item_label_len(iv[i as int]) + n * 19 + 16 <= usize::MAX));
                assert(d@.items == iv);
            }
            return false;
        }
        i = i + 1;
    }
    true
}

/// Whether a class diagram's widths fit the machine's, found at run time.
fn class_diagram_fits_exec(d: &ClassDiagram) -> (b: bool)
    ensures
        b == class_diagram_fits(d@),
{
    let ghost cs = classes_view(d.classes@);
    let mut i: usize = 0;
    while i < d.classes.len()
        invariant
            i <= d.classes.len(),
            cs == classes_view(d.classes@),
            forall|j: int| 0 <= j < i ==> class_fits(#[trigger] cs[j]),
        decreases d.classes.len() - i,
    {
        let c = &d.classes[i];
        proof {
            assert(cs[i as int] == c@);
        }
        if !fits_with(char_count(&c.name), 4) {
            proof {
                assert(!class_fits(cs[i as int]));
                assert(d@.classes == cs);
            }
            return false;
        }
        let ghost ms = members_view(c.members@);
        let mut k: usize = 0;
        while k < c.members.len()
            invariant
                k <= c.members.len(),
                ms == members_view(c.members@),
                i < d.classes.len(),
                cs == classes_view(d.classes@),
                cs[i as int] == c@,
                forall|j: int| 0 <= j < k ==> member_width(#[trigger] ms[j]) + 2 <= usize::MAX,
            decreases c.members.len() - k,
        {
            let m = &c.members[k];
            proof {
                assert(ms[k as int] == m@);
            }
            let nl = char_count(&m.name);
            let tl = char_count(&m.member_type);
            if !fits_with(nl, 6) || !fits_with(tl, 6 + nl) {
                proof {
                    assert(!(member_width(ms[k as int]) + 2 <= usize::MAX));
                    assert(c@.members == ms);
                    assert(!class_fits(cs[i as int]));
                    assert(d@.classes == cs);
                }
                return false;
            }
            k = k + 1;
        }
        proof {
            assert(c@.members == ms);
            assert(class_fits(cs[i as int]));
        }
        i = i + 1;
    }
    true
}

/// Whether a diagram's widths fit the machine's, found at run time.
pub fn diagram_fits_exec(d: &ParsedDiagram) -> (b: bool)
    ensures
        b == diagram_fits(d@),
{
    match d {
        ParsedDiagram::Flowchart(fc) => flowchart_fits_exec(fc),
        ParsedDiagram::Sequence(sd) => sequence_fits_exec(sd),
        ParsedDiagram::Class(cd) => class_diagram_fits_exec(cd),
    }
}

// ---------------------------------------------------------------------------
// Laws of the drawings
// ---------------------------------------------------------------------------

/// A cylinder (database) node is drawn with `⌠ ⌡` corners: its top rule
/// is ` ⌠─`, one `─` per label character, `─⌡`; its bottom rule ` ⌡─`, the
/// same rule, `─⌠`; between them the label, all in the node's colours.
pub proof fn lemma_cylinder_box(n: SpecNode)
    requires
        n.shape == NodeShape::Cylinder,
    ensures
        node_box(n).len() == 3,
        node_box(n)[0] == border_color(n) + " ⌠─"@ + Seq::new(n.label.len(), |i: int| '─') + "─⌡"@ + reset(),
        node_box(n)[1] == border_color(n) + " │ "@ + text_color(n) + n.label + border_color(n) + " │"@ + reset(),
        node_box(n)[2] == border_color(n) + " ⌡─"@ + Seq::new(n.label.len(), |i: int| '─') + "─⌠"@ + reset(),
{
    assert(rep('─', n.label.len() as int) =~= Seq::new(n.label.len(), |i: int| '─'));
}

/// Two nodes that differ only in shape are drawn differently: the top row of
/// a box tells its shape right after the border colour (a blank for a
/// diamond, `╭` rounded, `⌠` cylinder, `(` circle, `─` rectangle).
pub proof fn lemma_shapes_drawn_apart(n: SpecNode, m: SpecNode)
    requires
        n.label == m.label,
        n.style == m.style,
        n.shape != m.shape,
    ensures
        node_box(n)[0] != node_box(m)[0],
{
    let b = border_color(n);
    assert(border_color(m) == b);
    reveal_strlit("  ╱");
    reveal_strlit(" ╭─");
    reveal_strlit(" ⌠─");
    reveal_strlit(" (( ");
    reveal_strlit("┌─");
    let k = b.len() as int + 1;
    assert(node_box(n)[0][k] == shape_mark(n.shape));
    assert(node_box(m)[0][k] == shape_mark(m.shape));
}

/// The character right after the border colour in the top row of a box.
pub open spec fn shape_mark(s: NodeShape) -> char {
    match s {
        NodeShape::Diamond => ' ',
        NodeShape::Rounded => '╭',
        NodeShape::Cylinder => '⌠',
        NodeShape::Circle => '(',
        NodeShape::Rectangle => '─',
    }
}

/// A block row shows its label, and a note row its text, in white right
/// after the opening bracket: `loop [`, `alt [`, `else [`, or `[Note: `.
pub proof fn lemma_block_rows_show_labels(ps: Seq<Seq<char>>, label: Seq<char>)
    ensures
        ({
            let t = item_text(ps, SpecSequenceItem::AltStart { label });
            let a: int = (yellow().len() + 10 + white().len()) as int;
            a + label.len() as int <= t.len() && t.subrange(a, a + label.len() as int) == label
        }),
        ({
            let t = item_text(ps, SpecSequenceItem::LoopStart { label });
            let a: int = (magenta().len() + 11 + white().len()) as int;
            a + label.len() as int <= t.len() && t.subrange(a, a + label.len() as int) == label
        }),
        ({
            let t = item_text(ps, SpecSequenceItem::AltElse { label });
            let a: int = (yellow().len() + 11 + white().len()) as int;
            a + label.len() as int <= t.len() && t.subrange(a, a + label.len() as int) == label
        }),
        ({
            let t = item_text(ps, SpecSequenceItem::Note { over: seq![], text: label });
            let a: int = (bright_cyan().len() + 8) as int;
            a + label.len() as int <= t.len() && t.subrange(a, a + label.len() as int) == label
        }),
{
    reveal_strlit(" ╭── alt [");
    reveal_strlit(" ╭── loop [");
    reveal_strlit(" ├── else [");
    reveal_strlit(" [Note: ");
    let t1 = item_text(ps, SpecSequenceItem::AltStart { label });
    let a1: int = (yellow().len() + 10 + white().len()) as int;
    assert(t1.subrange(a1, a1 + label.len() as int) =~= label);
    let t2 = item_text(ps, SpecSequenceItem::LoopStart { label });
    let a2: int = (magenta().len() + 11 + white().len()) as int;
    assert(t2.subrange(a2, a2 + label.len() as int) =~= label);
    let t3 = item_text(ps, SpecSequenceItem::AltElse { label });
    let a3: int = (yellow().len() + 11 + white().len()) as int;
    assert(t3.subrange(a3, a3 + label.len() as int) =~= label);
    let t4 = item_text(ps, SpecSequenceItem::Note { over: seq![], text: label });
    let a4: int = (bright_cyan().len() + 8) as int;
    assert(t4.subrange(a4, a4 + label.len() as int) =~= label);
}

proof fn lemma_members_width_bounds(ms: Seq<SpecClassMember>)
    ensures
        members_width(ms) >= 0,
        forall|j: int|
            0 <= j < ms.len() ==> members_width(ms) >= (#[trigger] ms[j]).name.len() + ms[j].member_type.len() + 4,
        members_width(ms) == 0 || exists|j: int|
            0 <= j < ms.len() && members_width(ms) == (#[trigger] ms[j]).name.len() + ms[j].member_type.len() + 4,
    decreases ms.len(),
{
    if ms.len() > 0 {
        let prev = ms.drop_last();
        lemma_members_width_bounds(prev);
        assert forall|j: int| 0 <= j < ms.len() implies members_width(ms) >= (#[trigger] ms[j]).name.len()
            + ms[j].member_type.len() + 4 by {
            if j < ms.len() - 1 {
                assert(ms[j] == prev[j]);
            }
        }
        if members_width(ms) != 0 {
            if members_width(ms) == member_width(ms.last()) {
                assert(members_width(ms) == ms[ms.len() - 1].name.len() + ms[ms.len() - 1].member_type.len() + 4);
            } else {
                let j = choose|j: int|
                    0 <= j < prev.len() && members_width(prev) == (#[trigger] prev[j]).name.len()
                        + prev[j].member_type.len() + 4;
                assert(ms[j] == prev[j]);
            }
        }
    }
}

/// A class box is as wide inside as the widest thing it holds: the name with
/// two columns on each side, or a member's name and type with four columns
/// more; it is no wider than the widest of these.
pub proof fn lemma_class_width_is_widest(c: SpecClassItem)
    ensures
        class_width(c) >= c.name.len() + 4,
        forall|j: int|
            0 <= j < c.members.len() ==> class_width(c) >= (#[trigger] c.members[j]).name.len()
                + c.members[j].member_type.len() + 4,
        class_width(c) == c.name.len() + 4 || exists|j: int|
            0 <= j < c.members.len() && class_width(c) == (#[trigger] c.members[j]).name.len()
                + c.members[j].member_type.len() + 4,
{
    lemma_members_width_bounds(c.members);
}

} // verus!
