//! What every parsed diagram satisfies: names are unique, every name a
//! diagram refers to is one it declares, and its parts come in line order.
use vstd::prelude::*;
use crate::parser::{
    add_link, add_links, class_line, class_lines, empty_flow, flow_line, flow_lines, flowchart_of,
    has_class, has_node, rel_aggregate, rel_associate, rel_compose, rel_inherit, relation_symbol,
    seq_line, seq_lines, spec_parse, spec_class_diagram, spec_sequence, with_class, with_member,
    with_node, with_participant, with_participants, ChainLink, ClassState, Direction, FlowState,
    NodeRef, SeqState, SpecClassDiagram, SpecClassItem, SpecClassMember, SpecDiagram, SpecFlowchart,
    SpecNode, SpecSequenceDiagram, SpecSequenceItem, SpecEdge, SpecClassRelation,
};
use crate::renderer::{lemma_push_contains, lemma_push_distinct};

verus! {

// ---------------------------------------------------------------------------
// Flowcharts
// ---------------------------------------------------------------------------

/// No two nodes share an id.
pub open spec fn distinct_ids(nodes: Seq<SpecNode>) -> bool {
    forall|i: int, j: int| 0 <= i < j < nodes.len() ==> (#[trigger] nodes[i]).id != (#[trigger] nodes[j]).id
}

/// Node ids are unique and every edge joins two nodes of the chart.
pub open spec fn flowchart_consistent(fc: SpecFlowchart) -> bool {
    &&& distinct_ids(fc.nodes)
    &&& forall|k: int|
        0 <= k < fc.edges.len() ==> has_node(fc.nodes, (#[trigger] fc.edges[k]).from) && has_node(
            fc.nodes,
            fc.edges[k].to,
        )
}

pub open spec fn flow_state_consistent(st: FlowState) -> bool {
    flowchart_consistent(SpecFlowchart { direction: Direction::TopToBottom, nodes: st.nodes, edges: st.edges })
}

proof fn lemma_with_node(nodes: Seq<SpecNode>, r: NodeRef)
    ensures
        distinct_ids(nodes) ==> distinct_ids(with_node(nodes, r)),
        has_node(with_node(nodes, r), r.id),
        forall|x: Seq<char>| has_node(nodes, x) ==> has_node(with_node(nodes, r), x),
{
    let w = with_node(nodes, r);
    if !has_node(nodes, r.id) {
        assert(w[nodes.len() as int].id == r.id);
        assert forall|x: Seq<char>| has_node(nodes, x) implies has_node(w, x) by {
            let i = choose|i: int| 0 <= i < nodes.len() && (#[trigger] nodes[i]).id == x;
            assert(w[i] == nodes[i]);
        }
        if distinct_ids(nodes) {
            assert forall|i: int, j: int| 0 <= i < j < w.len() implies (#[trigger] w[i]).id != (
            #[trigger] w[j]).id by {
                assert(w[i] == nodes[i]);
                if j < nodes.len() {
                    assert(w[j] == nodes[j]);
                } else {
                    assert(nodes[i].id != r.id);
                }
            }
        }
    }
}

proof fn lemma_add_link(st: FlowState, l: ChainLink)
    requires
        flow_state_consistent(st),
    ensures
        flow_state_consistent(add_link(st, l)),
        forall|x: Seq<char>| has_node(st.nodes, x) ==> has_node(add_link(st, l).nodes, x),
{
    let f = crate::parser::node_ref(l.from);
    let t = crate::parser::node_ref(l.to);
    let n1 = with_node(st.nodes, f);
    lemma_with_node(st.nodes, f);
    lemma_with_node(n1, t);
    let st2 = add_link(st, l);
    assert forall|k: int| 0 <= k < st2.edges.len() implies has_node(st2.nodes, (#[trigger] st2.edges[k]).from)
        && has_node(st2.nodes, st2.edges[k].to) by {
        if k < st.edges.len() {
            assert(st2.edges[k] == st.edges[k]);
        }
    }
}

proof fn lemma_add_links(st: FlowState, links: Seq<ChainLink>)
    requires
        flow_state_consistent(st),
    ensures
        flow_state_consistent(add_links(st, links)),
    decreases links.len(),
{
    if links.len() > 0 {
        lemma_add_links(st, links.drop_last());
        lemma_add_link(add_links(st, links.drop_last()), links.last());
    }
}

proof fn lemma_flow_line(st: FlowState, line: Seq<char>)
    requires
        flow_state_consistent(st),
    ensures
        flow_state_consistent(flow_line(st, line)),
{
    let st2 = flow_line(st, line);
    let t = crate::text::trim(line);
    if !crate::text::starts_with(t, crate::parser::style_kw()) {
        let links = crate::parser::edge_chain(t);
        if links.len() > 0 {
            lemma_add_links(st, links);
        } else {
            let r = crate::parser::node_ref(t);
            lemma_with_node(st.nodes, r);
            assert forall|k: int| 0 <= k < st2.edges.len() implies has_node(
                st2.nodes,
                (#[trigger] st2.edges[k]).from,
            ) && has_node(st2.nodes, st2.edges[k].to) by {
                assert(st2.edges[k] == st.edges[k]);
            }
        }
    }
}

proof fn lemma_flow_lines(lines: Seq<Seq<char>>)
    ensures
        flow_state_consistent(flow_lines(empty_flow(), lines)),
    decreases lines.len(),
{
    if lines.len() > 0 {
        lemma_flow_lines(lines.drop_last());
        lemma_flow_line(flow_lines(empty_flow(), lines.drop_last()), lines.last());
    }
}

/// Every flowchart read from body lines has unique node ids, and every edge
/// joins two of its nodes.
pub proof fn lemma_flowchart_consistent(body: Seq<Seq<char>>, direction: Direction)
    ensures
        flowchart_consistent(flowchart_of(body, direction)),
{
    lemma_flow_lines(body);
    let st = flow_lines(empty_flow(), body);
    let fc = flowchart_of(body, direction);
    assert forall|i: int| 0 <= i < fc.nodes.len() implies (#[trigger] fc.nodes[i]).id == st.nodes[i].id by {}
    assert forall|x: Seq<char>| has_node(st.nodes, x) implies has_node(fc.nodes, x) by {
        let i = choose|i: int| 0 <= i < st.nodes.len() && (#[trigger] st.nodes[i]).id == x;
        assert(fc.nodes[i].id == x);
    }
    assert forall|i: int, j: int| 0 <= i < j < fc.nodes.len() implies (#[trigger] fc.nodes[i]).id != (
    #[trigger] fc.nodes[j]).id by {
        assert(st.nodes[i].id != st.nodes[j].id);
    }
    assert forall|k: int| 0 <= k < fc.edges.len() implies has_node(fc.nodes, (#[trigger] fc.edges[k]).from)
        && has_node(fc.nodes, fc.edges[k].to) by {
        assert(fc.edges[k] == st.edges[k]);
    }
}

/// The edge one link of a chain gives.
pub open spec fn link_edge(l: ChainLink) -> SpecEdge {
    SpecEdge {
        from: crate::parser::node_ref(l.from).id,
        to: crate::parser::node_ref(l.to).id,
        label: l.label,
        edge_type: l.edge_type,
    }
}

/// The edges a flowchart line gives: one per link of its chain, left to
/// right; none for a style directive or a lone node.
pub open spec fn line_edges(line: Seq<char>) -> Seq<SpecEdge> {
    let t = crate::text::trim(line);
    if crate::text::starts_with(t, crate::parser::style_kw()) {
        seq![]
    } else {
        crate::parser::edge_chain(t).map_values(|l: ChainLink| link_edge(l))
    }
}

/// The edges of the body lines, line after line.
pub open spec fn body_edges(body: Seq<Seq<char>>) -> Seq<SpecEdge>
    decreases body.len(),
{
    if body.len() == 0 {
        seq![]
    } else {
        body_edges(body.drop_last()) + line_edges(body.last())
    }
}

proof fn lemma_add_links_edges(st: FlowState, links: Seq<ChainLink>)
    ensures
        add_links(st, links).edges == st.edges + links.map_values(|l: ChainLink| link_edge(l)),
    decreases links.len(),
{
    let f = |l: ChainLink| link_edge(l);
    if links.len() == 0 {
        assert(st.edges + links.map_values(f) =~= st.edges);
    } else {
        lemma_add_links_edges(st, links.drop_last());
        assert(links.map_values(f) =~= links.drop_last().map_values(f).push(f(links.last())));
        assert(add_links(st, links).edges =~= st.edges + links.map_values(f));
    }
}

proof fn lemma_flow_lines_edges(body: Seq<Seq<char>>)
    ensures
        flow_lines(empty_flow(), body).edges == body_edges(body),
    decreases body.len(),
{
    if body.len() > 0 {
        lemma_flow_lines_edges(body.drop_last());
        let st = flow_lines(empty_flow(), body.drop_last());
        let line = body.last();
        let t = crate::text::trim(line);
        if !crate::text::starts_with(t, crate::parser::style_kw()) {
            let links = crate::parser::edge_chain(t);
            if links.len() > 0 {
                lemma_add_links_edges(st, links);
            } else {
                assert(links.map_values(|l: ChainLink| link_edge(l)) =~= seq![]);
                assert(st.edges + line_edges(line) =~= st.edges);
            }
        } else {
            assert(st.edges + line_edges(line) =~= st.edges);
        }
    }
}

/// A flowchart's edges are those of its lines, in line order, and within a
/// chained line left to right: one edge per link of each chain.
pub proof fn lemma_flowchart_edge_order(body: Seq<Seq<char>>, direction: Direction)
    ensures
        flowchart_of(body, direction).edges == body_edges(body),
{
    lemma_flow_lines_edges(body);
}

// ---------------------------------------------------------------------------
// Sequence diagrams
// ---------------------------------------------------------------------------

/// Every participant an item names is in `ps`.
pub open spec fn item_refs_in(it: SpecSequenceItem, ps: Seq<Seq<char>>) -> bool {
    match it {
        SpecSequenceItem::Message(m) => ps.contains(m.from) && ps.contains(m.to),
        SpecSequenceItem::Note { over, text } => forall|j: int| 0 <= j < over.len() ==> ps.contains(
            #[trigger] over[j],
        ),
        _ => true,
    }
}

/// Participants are unique and every message and note names participants.
pub open spec fn sequence_consistent(d: SpecSequenceDiagram) -> bool {
    &&& d.participants.no_duplicates()
    &&& forall|k: int| 0 <= k < d.items.len() ==> item_refs_in(#[trigger] d.items[k], d.participants)
}

pub open spec fn seq_state_consistent(st: SeqState) -> bool {
    sequence_consistent(SpecSequenceDiagram { participants: st.participants, items: st.items })
}

proof fn lemma_with_participant(ps: Seq<Seq<char>>, name: Seq<char>)
    ensures
        ps.no_duplicates() ==> with_participant(ps, name).no_duplicates(),
        with_participant(ps, name).contains(name),
        forall|x: Seq<char>| ps.contains(x) ==> with_participant(ps, name).contains(x),
{
    if !ps.contains(name) {
        if ps.no_duplicates() {
            lemma_push_distinct(ps, name);
        }
        assert forall|x: Seq<char>| ps.contains(x) implies with_participant(ps, name).contains(x) by {
            lemma_push_contains(ps, name, x);
        }
        lemma_push_contains(ps, name, name);
    }
}

proof fn lemma_with_participants(ps: Seq<Seq<char>>, names: Seq<Seq<char>>)
    ensures
        ps.no_duplicates() ==> with_participants(ps, names).no_duplicates(),
        forall|j: int| 0 <= j < names.len() ==> with_participants(ps, names).contains(#[trigger] names[j]),
        forall|x: Seq<char>| ps.contains(x) ==> with_participants(ps, names).contains(x),
    decreases names.len(),
{
    if names.len() > 0 {
        let prev = with_participants(ps, names.drop_last());
        lemma_with_participants(ps, names.drop_last());
        lemma_with_participant(prev, names.last());
        assert forall|j: int| 0 <= j < names.len() implies with_participants(ps, names).contains(
            #[trigger] names[j],
        ) by {
            if j < names.len() - 1 {
                assert(names.drop_last()[j] == names[j]);
            }
        }
    }
}

proof fn lemma_refs_grow(it: SpecSequenceItem, ps: Seq<Seq<char>>, qs: Seq<Seq<char>>)
    requires
        item_refs_in(it, ps),
        forall|x: Seq<char>| ps.contains(x) ==> qs.contains(x),
    ensures
        item_refs_in(it, qs),
{
    match it {
        SpecSequenceItem::Note { over, text } => {
            assert forall|j: int| 0 <= j < over.len() implies qs.contains(#[trigger] over[j]) by {
                assert(ps.contains(over[j]));
            }
        },
        _ => {},
    }
}

proof fn lemma_seq_items_grow(st: SeqState, ps: Seq<Seq<char>>, it: Option<SpecSequenceItem>)
    requires
        seq_state_consistent(st),
        ps.no_duplicates(),
        forall|x: Seq<char>| st.participants.contains(x) ==> ps.contains(x),
        it matches Some(i) ==> item_refs_in(i, ps),
    ensures
        seq_state_consistent(
            SeqState {
                participants: ps,
                items: match it {
                    Some(i) => st.items.push(i),
                    None => st.items,
                },
            },
        ),
{
    let items = match it {
        Some(i) => st.items.push(i),
        None => st.items,
    };
    assert forall|k: int| 0 <= k < items.len() implies item_refs_in(#[trigger] items[k], ps) by {
        if k < st.items.len() {
            assert(items[k] == st.items[k]);
            let d = SpecSequenceDiagram { participants: st.participants, items: st.items };
            assert(sequence_consistent(d));
            assert(item_refs_in(d.items[k], d.participants));
            lemma_refs_grow(st.items[k], st.participants, ps);
        }
    }
}

proof fn lemma_seq_line(st: SeqState, line: Seq<char>)
    requires
        seq_state_consistent(st),
    ensures
        seq_state_consistent(seq_line(st, line)),
{
    let st2 = seq_line(st, line);
    let ps = st.participants;
    let t = crate::text::trim(line);
    if crate::text::starts_with(t, crate::parser::kw_participant().push(' ')) {
        let name = crate::text::trim(crate::text::strip_prefixes(t, crate::parser::kw_participant()));
        lemma_with_participant(ps, name);
        lemma_seq_items_grow(st, st2.participants, None);
    } else if crate::text::starts_with(t, crate::parser::kw_note().push(' ')) {
        let (head, text) = crate::parser::colon_split(t);
        let over = crate::parser::note_targets(
            crate::text::trim(crate::text::strip_prefixes(head, crate::parser::kw_note())),
        );
        lemma_with_participants(ps, over);
        lemma_seq_items_grow(st, st2.participants, Some(SpecSequenceItem::Note { over, text }));
    } else if st2.participants == ps {
        if st2.items.len() > st.items.len() {
            assert(st2.items == st.items.push(st2.items.last()));
            lemma_seq_items_grow(st, ps, Some(st2.items.last()));
        }
    } else {
        let arrow = crate::parser::message_arrow(t);
        let (a, b) = crate::text::split_once_only(t, arrow)->0;
        let from = crate::text::trim(a);
        let right = crate::text::trim(b);
        let (to0, label) = crate::parser::colon_split(right);
        let to = if crate::text::find_char(right, ':') is Some {
            crate::text::trim(to0)
        } else {
            to0
        };
        let p1 = with_participant(ps, from);
        lemma_with_participant(ps, from);
        lemma_with_participant(p1, to);
        lemma_seq_items_grow(
            st,
            st2.participants,
            Some(SpecSequenceItem::Message(crate::parser::SpecMessage { from, to, label, arrow })),
        );
    }
}

proof fn lemma_seq_lines(lines: Seq<Seq<char>>)
    ensures
        seq_state_consistent(seq_lines(SeqState { participants: seq![], items: seq![] }, lines)),
    decreases lines.len(),
{
    let st0 = SeqState { participants: seq![], items: seq![] };
    if lines.len() == 0 {
        assert(st0.participants.no_duplicates());
    } else {
        lemma_seq_lines(lines.drop_last());
        lemma_seq_line(seq_lines(st0, lines.drop_last()), lines.last());
    }
}

/// Every sequence diagram read from diagram lines has unique participants,
/// and every message and note names participants.
pub proof fn lemma_sequence_consistent(lines: Seq<Seq<char>>)
    ensures
        sequence_consistent(spec_sequence(lines)),
{
    lemma_seq_lines(lines.skip(1));
}

/// The item a sequence-diagram line gives, read on its own (none or one).
pub open spec fn line_items(line: Seq<char>) -> Seq<SpecSequenceItem> {
    seq_line(SeqState { participants: seq![], items: seq![] }, line).items
}

/// The participant names a line mentions, in the order it mentions them: a
/// declared participant, the targets of a note, or a message's two ends.
pub open spec fn line_names(line: Seq<char>) -> Seq<Seq<char>> {
    let t = crate::text::trim(line);
    if crate::text::starts_with(t, crate::parser::kw_participant().push(' ')) {
        seq![crate::text::trim(crate::text::strip_prefixes(t, crate::parser::kw_participant()))]
    } else if line_items(line).len() == 1 {
        match line_items(line)[0] {
            SpecSequenceItem::Note { over, text } => over,
            SpecSequenceItem::Message(m) => seq![m.from, m.to],
            _ => seq![],
        }
    } else {
        seq![]
    }
}

pub open spec fn body_items(body: Seq<Seq<char>>) -> Seq<SpecSequenceItem>
    decreases body.len(),
{
    if body.len() == 0 {
        seq![]
    } else {
        body_items(body.drop_last()) + line_items(body.last())
    }
}

pub open spec fn body_names(body: Seq<Seq<char>>) -> Seq<Seq<char>>
    decreases body.len(),
{
    if body.len() == 0 {
        seq![]
    } else {
        body_names(body.drop_last()) + line_names(body.last())
    }
}

proof fn lemma_with_participants_append(ps: Seq<Seq<char>>, xs: Seq<Seq<char>>, ys: Seq<Seq<char>>)
    ensures
        with_participants(ps, xs + ys) == with_participants(with_participants(ps, xs), ys),
    decreases ys.len(),
{
    if ys.len() == 0 {
        assert(xs + ys =~= xs);
    } else {
        lemma_with_participants_append(ps, xs, ys.drop_last());
        assert((xs + ys).drop_last() =~= xs + ys.drop_last());
        assert((xs + ys).last() == ys.last());
    }
}

proof fn lemma_seq_line_order(st: SeqState, line: Seq<char>)
    ensures
        seq_line(st, line).items == st.items + line_items(line),
        seq_line(st, line).participants == with_participants(st.participants, line_names(line)),
{
    let e = SeqState { participants: seq![], items: seq![] };
    let a = seq_line(st, line);
    let b = seq_line(e, line);
    let t = crate::text::trim(line);
    if crate::text::starts_with(t, crate::parser::kw_participant().push(' ')) {
        assert(b.items =~= seq![]);
        assert(st.items + line_items(line) =~= st.items);
        let n = crate::text::trim(crate::text::strip_prefixes(t, crate::parser::kw_participant()));
        let one = seq![n];
        assert(line_names(line) == one);
        assert(one.drop_last() =~= Seq::<Seq<char>>::empty());
        assert(one.last() == n);
        assert(with_participants(st.participants, one.drop_last()) == st.participants);
        assert(a.participants == with_participant(st.participants, n));
        assert(a.participants == with_participants(st.participants, line_names(line)));
    } else if b.items.len() == 0 {
        assert(st.items + line_items(line) =~= st.items);
        assert(a.participants == st.participants);
        assert(a.participants == with_participants(st.participants, line_names(line)));
    } else {
        assert(a.items =~= st.items + b.items);
        if crate::text::starts_with(t, crate::parser::kw_note().push(' ')) {
            assert(a.participants == with_participants(st.participants, line_names(line)));
        } else {
            match b.items[0] {
                SpecSequenceItem::Message(m) => {
                    let two = seq![m.from, m.to];
                    let one = seq![m.from];
                    assert(two.drop_last() =~= one);
                    assert(two.last() == m.to);
                    assert(one.drop_last() =~= Seq::<Seq<char>>::empty());
                    assert(one.last() == m.from);
                    assert(with_participants(st.participants, one.drop_last()) == st.participants);
                    assert(with_participants(st.participants, seq![m.from]) == with_participant(st.participants, m.from));
                    assert(with_participants(st.participants, two) == with_participant(with_participant(st.participants, m.from), m.to));
                    assert(a.participants == with_participants(st.participants, line_names(line)));
                },
                _ => {
                    assert(a.participants == with_participants(st.participants, line_names(line)));
                },
            }
        }
    }
}

proof fn lemma_seq_lines_order(body: Seq<Seq<char>>)
    ensures
        seq_lines(SeqState { participants: seq![], items: seq![] }, body).items == body_items(body),
        seq_lines(SeqState { participants: seq![], items: seq![] }, body).participants == with_participants(
            seq![],
            body_names(body),
        ),
    decreases body.len(),
{
    let e = SeqState { participants: seq![], items: seq![] };
    if body.len() == 0 {
        assert(with_participants(seq![], body_names(body)) == Seq::<Seq<char>>::empty());
    } else {
        lemma_seq_lines_order(body.drop_last());
        lemma_seq_line_order(seq_lines(e, body.drop_last()), body.last());
        lemma_with_participants_append(seq![], body_names(body.drop_last()), line_names(body.last()));
    }
}

/// A sequence diagram's items are those of its lines in line order, and its
/// participants are the names its lines mention, each once, in order of
/// first mention.
pub proof fn lemma_sequence_order(lines: Seq<Seq<char>>)
    ensures
        spec_sequence(lines).items == body_items(lines.skip(1)),
        spec_sequence(lines).participants == with_participants(seq![], body_names(lines.skip(1))),
{
    lemma_seq_lines_order(lines.skip(1));
}

/// A name with no blanks around it.
pub open spec fn is_trimmed(s: Seq<char>) -> bool {
    crate::text::trim(s) == s
}

/// Every name an item holds is trimmed: a message's two ends, a note's
/// targets.
pub open spec fn item_names_trimmed(it: SpecSequenceItem) -> bool {
    match it {
        SpecSequenceItem::Message(m) => is_trimmed(m.from) && is_trimmed(m.to),
        SpecSequenceItem::Note { over, text } => forall|j: int| 0 <= j < over.len() ==> is_trimmed(#[trigger] over[j]),
        _ => true,
    }
}

pub open spec fn seq_names_trimmed(st: SeqState) -> bool {
    &&& forall|i: int| 0 <= i < st.participants.len() ==> is_trimmed(#[trigger] st.participants[i])
    &&& forall|k: int| 0 <= k < st.items.len() ==> item_names_trimmed(#[trigger] st.items[k])
}

proof fn lemma_trimmed_trim(x: Seq<char>)
    ensures
        is_trimmed(crate::text::trim(x)),
{
    crate::text::lemma_trim_idempotent(x);
}

proof fn lemma_with_participants_trimmed(ps: Seq<Seq<char>>, names: Seq<Seq<char>>)
    requires
        forall|i: int| 0 <= i < ps.len() ==> is_trimmed(#[trigger] ps[i]),
        forall|i: int| 0 <= i < names.len() ==> is_trimmed(#[trigger] names[i]),
    ensures
        forall|i: int| 0 <= i < with_participants(ps, names).len() ==> is_trimmed(
            #[trigger] with_participants(ps, names)[i],
        ),
    decreases names.len(),
{
    if names.len() > 0 {
        let prev = with_participants(ps, names.drop_last());
        assert forall|i: int| 0 <= i < names.drop_last().len() implies is_trimmed(#[trigger] names.drop_last()[i]) by {
            assert(names.drop_last()[i] == names[i]);
        }
        lemma_with_participants_trimmed(ps, names.drop_last());
        assert(is_trimmed(names[names.len() - 1]));
        let w = with_participants(ps, names);
        assert forall|i: int| 0 <= i < w.len() implies is_trimmed(#[trigger] w[i]) by {
            if i < prev.len() {
                assert(w[i] == prev[i]);
            }
        }
    }
}

proof fn lemma_seq_line_trimmed(st: SeqState, line: Seq<char>)
    requires
        seq_names_trimmed(st),
    ensures
        seq_names_trimmed(seq_line(st, line)),
{
    let st2 = seq_line(st, line);
    let e = SeqState { participants: seq![], items: seq![] };
    lemma_seq_line_order(st, line);
    let names = line_names(line);
    let t = crate::text::trim(line);
    let items = line_items(line);
    // The names and the item a line gives are trimmed.
    if crate::text::starts_with(t, crate::parser::kw_participant().push(' ')) {
        lemma_trimmed_trim(crate::text::strip_prefixes(t, crate::parser::kw_participant()));
        assert(items =~= seq![]);
    } else if items.len() == 1 {
        if crate::text::starts_with(t, crate::parser::kw_note().push(' ')) {
            let (head, text) = crate::parser::colon_split(t);
            let prefix = crate::text::trim(crate::text::strip_prefixes(head, crate::parser::kw_note()));
            let over = crate::parser::note_targets(prefix);
            assert forall|j: int| 0 <= j < over.len() implies is_trimmed(#[trigger] over[j]) by {
                if crate::text::starts_with(prefix, crate::parser::kw_over()) {
                    let pieces = crate::text::split_char(
                        crate::text::trim(crate::text::strip_prefixes(prefix, crate::parser::kw_over())),
                        ',',
                    );
                    lemma_trimmed_trim(pieces[j]);
                } else {
                    lemma_trimmed_trim(crate::text::strip_prefixes(prefix, crate::parser::kw_right_of()));
                }
            }
        } else {
            match items[0] {
                SpecSequenceItem::Message(m) => {
                    let arrow = crate::parser::message_arrow(t);
                    let (a, b) = crate::text::split_once_only(t, arrow)->0;
                    let right = crate::text::trim(b);
                    lemma_trimmed_trim(a);
                    lemma_trimmed_trim(b);
                    let (to0, label) = crate::parser::colon_split(right);
                    lemma_trimmed_trim(to0);
                },
                _ => {},
            }
        }
    }
    assert forall|i: int| 0 <= i < names.len() implies is_trimmed(#[trigger] names[i]) by {}
    lemma_with_participants_trimmed(st.participants, names);
    assert forall|k: int| 0 <= k < st2.items.len() implies item_names_trimmed(#[trigger] st2.items[k]) by {
        if k < st.items.len() {
            assert(st2.items[k] == st.items[k]);
        } else {
            assert(st2.items[k] == items[k - st.items.len()]);
        }
    }
}

proof fn lemma_seq_lines_trimmed(body: Seq<Seq<char>>)
    ensures
        seq_names_trimmed(seq_lines(SeqState { participants: seq![], items: seq![] }, body)),
    decreases body.len(),
{
    if body.len() > 0 {
        lemma_seq_lines_trimmed(body.drop_last());
        lemma_seq_line_trimmed(seq_lines(SeqState { participants: seq![], items: seq![] }, body.drop_last()), body.last());
    }
}

/// Every name of a sequence diagram is trimmed: its participants, the ends
/// of its messages and the targets of its notes; so blanks after a comma in
/// `Note over A, B` make no other participant.
pub proof fn lemma_sequence_names_trimmed(lines: Seq<Seq<char>>)
    ensures
        forall|i: int|
            0 <= i < spec_sequence(lines).participants.len() ==> is_trimmed(
                #[trigger] spec_sequence(lines).participants[i],
            ),
        forall|k: int|
            0 <= k < spec_sequence(lines).items.len() ==> item_names_trimmed(#[trigger] spec_sequence(lines).items[k]),
{
    lemma_seq_lines_trimmed(lines.skip(1));
}

// ---------------------------------------------------------------------------
// Class diagrams
// ---------------------------------------------------------------------------

/// No two classes share a name.
pub open spec fn distinct_names(cs: Seq<SpecClassItem>) -> bool {
    forall|i: int, j: int| 0 <= i < j < cs.len() ==> (#[trigger] cs[i]).name != (#[trigger] cs[j]).name
}

/// One of the four relation symbols: `<|--`, `*--`, `o--`, `-->`.
pub open spec fn is_relation_symbol(s: Seq<char>) -> bool {
    s == rel_inherit() || s == rel_compose() || s == rel_aggregate() || s == rel_associate()
}

/// Class names are unique, every relation joins two classes of the diagram,
/// and its type is one of the four relation symbols.
pub open spec fn class_consistent(d: SpecClassDiagram) -> bool {
    &&& distinct_names(d.classes)
    &&& forall|k: int|
        0 <= k < d.relations.len() ==> {
            &&& has_class(d.classes, (#[trigger] d.relations[k]).from)
            &&& has_class(d.classes, d.relations[k].to)
            &&& is_relation_symbol(d.relations[k].relation_type)
        }
}

pub open spec fn class_state_consistent(st: ClassState) -> bool {
    class_consistent(SpecClassDiagram { classes: st.classes, relations: st.relations })
}

proof fn lemma_with_class(cs: Seq<SpecClassItem>, name: Seq<char>)
    ensures
        distinct_names(cs) ==> distinct_names(with_class(cs, name)),
        has_class(with_class(cs, name), name),
        forall|x: Seq<char>| has_class(cs, x) ==> has_class(with_class(cs, name), x),
{
    let w = with_class(cs, name);
    if !has_class(cs, name) {
        assert(w[cs.len() as int].name == name);
        assert forall|x: Seq<char>| has_class(cs, x) implies has_class(w, x) by {
            let i = choose|i: int| 0 <= i < cs.len() && (#[trigger] cs[i]).name == x;
            assert(w[i] == cs[i]);
        }
        if distinct_names(cs) {
            assert forall|i: int, j: int| 0 <= i < j < w.len() implies (#[trigger] w[i]).name != (
            #[trigger] w[j]).name by {
                assert(w[i] == cs[i]);
                if j < cs.len() {
                    assert(w[j] == cs[j]);
                } else {
                    assert(cs[i].name != name);
                }
            }
        }
    }
}

proof fn lemma_class_index_from(cs: Seq<SpecClassItem>, name: Seq<char>, k: int)
    requires
        0 <= k,
    ensures
        crate::parser::class_index_from(cs, name, k) matches Some(i) ==> k <= i < cs.len() && cs[i].name
            == name && forall|j: int| k <= j < i ==> cs[j].name != name,
        crate::parser::class_index_from(cs, name, k) is None ==> forall|j: int|
            k <= j < cs.len() ==> cs[j].name != name,
    decreases cs.len() - k,
{
    if k < cs.len() && cs[k].name != name {
        lemma_class_index_from(cs, name, k + 1);
    }
}

proof fn lemma_with_member(cs: Seq<SpecClassItem>, name: Seq<char>, m: SpecClassMember)
    ensures
        with_member(cs, name, m).len() == cs.len(),
        forall|i: int| 0 <= i < cs.len() ==> (#[trigger] with_member(cs, name, m)[i]).name == cs[i].name,
        distinct_names(cs) ==> distinct_names(with_member(cs, name, m)),
        forall|x: Seq<char>| has_class(cs, x) ==> has_class(with_member(cs, name, m), x),
{
    let w = with_member(cs, name, m);
    lemma_class_index_from(cs, name, 0);
    assert forall|x: Seq<char>| has_class(cs, x) implies has_class(w, x) by {
        let i = choose|i: int| 0 <= i < cs.len() && (#[trigger] cs[i]).name == x;
        assert(w[i].name == x);
    }
    if distinct_names(cs) {
        assert forall|i: int, j: int| 0 <= i < j < w.len() implies (#[trigger] w[i]).name != (
        #[trigger] w[j]).name by {
            assert(w[i].name == cs[i].name);
            assert(w[j].name == cs[j].name);
        }
    }
}

proof fn lemma_class_relations_kept(st: ClassState, cs: Seq<SpecClassItem>)
    requires
        class_state_consistent(st),
        distinct_names(cs),
        forall|x: Seq<char>| has_class(st.classes, x) ==> has_class(cs, x),
    ensures
        class_state_consistent(ClassState { classes: cs, relations: st.relations, current: None }),
{
    let d = SpecClassDiagram { classes: st.classes, relations: st.relations };
    assert(class_consistent(d));
    assert forall|k: int| 0 <= k < st.relations.len() implies {
        &&& has_class(cs, (#[trigger] st.relations[k]).from)
        &&& has_class(cs, st.relations[k].to)
        &&& is_relation_symbol(st.relations[k].relation_type)
    } by {
        assert(has_class(d.classes, d.relations[k].from));
    }
}

proof fn lemma_relation_symbol(t: Seq<char>)
    ensures
        is_relation_symbol(relation_symbol(t)),
{
}

proof fn lemma_class_line(st: ClassState, line: Seq<char>)
    requires
        class_state_consistent(st),
    ensures
        class_state_consistent(class_line(st, line)),
{
    let st2 = class_line(st, line);
    let t = crate::text::trim(line);
    if crate::text::starts_with(t, crate::parser::kw_class()) {
        if crate::text::find_char(t, '{') is Some {
            let name = crate::text::trim(
                crate::text::strip_suffix_chars(crate::text::strip_prefixes(t, crate::parser::kw_class()), '{'),
            );
            lemma_with_class(st.classes, name);
        } else {
            let name = crate::text::trim(crate::text::strip_prefixes(t, crate::parser::kw_class()));
            lemma_with_class(st.classes, name);
        }
        lemma_class_relations_kept(st, st2.classes);
    } else if t == seq!['}'] {
        lemma_class_relations_kept(st, st2.classes);
    } else if st.current is Some {
        lemma_with_member(st.classes, st.current->0, crate::parser::member_of(t));
        lemma_class_relations_kept(st, st2.classes);
    } else if st2.relations.len() > st.relations.len() {
        let sym = relation_symbol(t);
        let (a, b) = crate::text::split_once_only(t, sym)->0;
        let from = crate::text::trim(a);
        let right = crate::text::trim(b);
        let to = match crate::text::find_char(right, ':') {
            Some(i) => crate::text::trim(right.take(i)),
            None => right,
        };
        let c1 = with_class(st.classes, from);
        lemma_with_class(st.classes, from);
        lemma_with_class(c1, to);
        lemma_relation_symbol(t);
        lemma_class_relations_kept(st, st2.classes);
        let d2 = SpecClassDiagram { classes: st2.classes, relations: st2.relations };
        assert forall|k: int| 0 <= k < d2.relations.len() implies {
            &&& has_class(d2.classes, (#[trigger] d2.relations[k]).from)
            &&& has_class(d2.classes, d2.relations[k].to)
            &&& is_relation_symbol(d2.relations[k].relation_type)
        } by {
            if k < st.relations.len() {
                assert(d2.relations[k] == st.relations[k]);
                let d1 = SpecClassDiagram { classes: st2.classes, relations: st.relations };
                assert(class_consistent(d1));
                assert(has_class(d1.classes, d1.relations[k].from));
            }
        }
    }
}

proof fn lemma_class_lines(lines: Seq<Seq<char>>)
    ensures
        class_state_consistent(
            class_lines(ClassState { classes: seq![], relations: seq![], current: None }, lines),
        ),
    decreases lines.len(),
{
    let st0 = ClassState { classes: seq![], relations: seq![], current: None };
    if lines.len() > 0 {
        lemma_class_lines(lines.drop_last());
        lemma_class_line(class_lines(st0, lines.drop_last()), lines.last());
    }
}

/// Every class diagram read from diagram lines has unique class names, and
/// every relation joins two of its classes with one of the four symbols.
pub proof fn lemma_class_consistent(lines: Seq<Seq<char>>)
    ensures
        class_consistent(spec_class_diagram(lines)),
{
    lemma_class_lines(lines.skip(1));
}

/// The members of the class called `n`, none when there is no such class.
pub open spec fn class_members(cs: Seq<SpecClassItem>, n: Seq<char>) -> Seq<SpecClassMember> {
    match crate::parser::class_index_from(cs, n, 0) {
        Some(i) => cs[i].members,
        None => seq![],
    }
}

pub open spec fn empty_class_state() -> ClassState {
    ClassState { classes: seq![], relations: seq![], current: None }
}

/// The relation a line gives outside a class body: the relation it gives
/// read on its own; none inside a class body, where lines are members.
pub open spec fn line_relations(st: ClassState, line: Seq<char>) -> Seq<SpecClassRelation> {
    if st.current is None {
        class_line(empty_class_state(), line).relations
    } else {
        seq![]
    }
}

/// The member a line adds to the class called `n`: one when the line stands
/// in a body of that class and neither declares a class nor closes the body.
pub open spec fn line_members(st: ClassState, line: Seq<char>, n: Seq<char>) -> Seq<SpecClassMember> {
    let t = crate::text::trim(line);
    if st.current == Some(n) && !crate::text::starts_with(t, crate::parser::kw_class()) && t != seq!['}'] {
        seq![crate::parser::member_of(t)]
    } else {
        seq![]
    }
}

/// The relations of the body lines, line after line.
pub open spec fn body_relations(body: Seq<Seq<char>>) -> Seq<SpecClassRelation>
    decreases body.len(),
{
    if body.len() == 0 {
        seq![]
    } else {
        body_relations(body.drop_last()) + line_relations(
            class_lines(empty_class_state(), body.drop_last()),
            body.last(),
        )
    }
}

/// The members of the class called `n` that the body lines add, line after
/// line, over every body of that class.
pub open spec fn body_members(body: Seq<Seq<char>>, n: Seq<char>) -> Seq<SpecClassMember>
    decreases body.len(),
{
    if body.len() == 0 {
        seq![]
    } else {
        body_members(body.drop_last(), n) + line_members(
            class_lines(empty_class_state(), body.drop_last()),
            body.last(),
            n,
        )
    }
}

proof fn lemma_index_push(cs: Seq<SpecClassItem>, c: SpecClassItem, n: Seq<char>, k: int)
    requires
        0 <= k <= cs.len(),
    ensures
        crate::parser::class_index_from(cs.push(c), n, k) == (match crate::parser::class_index_from(cs, n, k) {
            Some(i) => Some(i),
            None => if c.name == n {
                Some(cs.len() as int)
            } else {
                None
            },
        }),
    decreases cs.len() - k,
{
    if k < cs.len() {
        assert(cs.push(c)[k] == cs[k]);
        lemma_index_push(cs, c, n, k + 1);
    } else {
        assert(cs.push(c)[k] == c);
        assert(crate::parser::class_index_from(cs, n, k) is None);
        assert(crate::parser::class_index_from(cs.push(c), n, k + 1) is None);
    }
}

proof fn lemma_index_same_names(cs: Seq<SpecClassItem>, ds: Seq<SpecClassItem>, n: Seq<char>, k: int)
    requires
        0 <= k,
        cs.len() == ds.len(),
        forall|i: int| 0 <= i < cs.len() ==> cs[i].name == ds[i].name,
    ensures
        crate::parser::class_index_from(cs, n, k) == crate::parser::class_index_from(ds, n, k),
    decreases cs.len() - k,
{
    if k < cs.len() {
        assert(cs[k].name == ds[k].name);
        lemma_index_same_names(cs, ds, n, k + 1);
    }
}

proof fn lemma_members_with_class(cs: Seq<SpecClassItem>, x: Seq<char>, n: Seq<char>)
    ensures
        class_members(with_class(cs, x), n) == class_members(cs, n),
{
    if !has_class(cs, x) {
        let c = SpecClassItem { name: x, members: seq![] };
        lemma_index_push(cs, c, n, 0);
        if let Some(i) = crate::parser::class_index_from(cs, n, 0) {
            lemma_class_index_from(cs, n, 0);
            assert(cs.push(c)[i] == cs[i]);
        } else if x == n {
            assert(cs.push(c)[cs.len() as int] == c);
        }
    }
}

proof fn lemma_members_with_member(cs: Seq<SpecClassItem>, c: Seq<char>, m: SpecClassMember, n: Seq<char>)
    requires
        has_class(cs, c),
    ensures
        class_members(with_member(cs, c, m), n) == class_members(cs, n) + (if n == c {
            seq![m]
        } else {
            seq![]
        }),
{
    let w = with_member(cs, c, m);
    lemma_class_index_from(cs, c, 0);
    lemma_class_index_from(cs, n, 0);
    let i = crate::parser::class_index_from(cs, c, 0)->0;
    lemma_with_member(cs, c, m);
    lemma_index_same_names(cs, w, n, 0);
    if n == c {
        assert(cs[i].members.push(m) =~= cs[i].members + seq![m]);
    } else {
        if let Some(j) = crate::parser::class_index_from(cs, n, 0) {
            assert(j != i);
            assert(w[j] == cs[j]);
        }
        assert(class_members(cs, n) + seq![] =~= class_members(cs, n));
    }
}

/// Every class a body is open for has been declared.
pub open spec fn current_declared(st: ClassState) -> bool {
    st.current matches Some(c) ==> has_class(st.classes, c)
}

proof fn lemma_class_line_order(st: ClassState, line: Seq<char>, n: Seq<char>)
    requires
        current_declared(st),
    ensures
        current_declared(class_line(st, line)),
        class_line(st, line).relations == st.relations + line_relations(st, line),
        class_members(class_line(st, line).classes, n) == class_members(st.classes, n) + line_members(st, line, n),
{
    let st2 = class_line(st, line);
    let e = class_line(empty_class_state(), line);
    let t = crate::text::trim(line);
    if crate::text::starts_with(t, crate::parser::kw_class()) {
        if crate::text::find_char(t, '{') is Some {
            let name = crate::text::trim(
                crate::text::strip_suffix_chars(crate::text::strip_prefixes(t, crate::parser::kw_class()), '{'),
            );
            lemma_with_class(st.classes, name);
            lemma_members_with_class(st.classes, name, n);
        } else {
            let name = crate::text::trim(crate::text::strip_prefixes(t, crate::parser::kw_class()));
            lemma_with_class(st.classes, name);
            lemma_members_with_class(st.classes, name, n);
        }
        assert(st.relations + line_relations(st, line) =~= st.relations);
        assert(class_members(st.classes, n) + line_members(st, line, n) =~= class_members(st.classes, n));
    } else if t == seq!['}'] {
        assert(st.relations + line_relations(st, line) =~= st.relations);
        assert(class_members(st.classes, n) + line_members(st, line, n) =~= class_members(st.classes, n));
    } else if st.current is Some {
        let c = st.current->0;
        lemma_members_with_member(st.classes, c, crate::parser::member_of(t), n);
        lemma_with_member(st.classes, c, crate::parser::member_of(t));
        assert(st.relations + line_relations(st, line) =~= st.relations);
    } else {
        assert(class_members(st.classes, n) + line_members(st, line, n) =~= class_members(st.classes, n));
        if st2.relations.len() > st.relations.len() {
            let sym = relation_symbol(t);
            let (a, b) = crate::text::split_once_only(t, sym)->0;
            let from = crate::text::trim(a);
            let right = crate::text::trim(b);
            let to = match crate::text::find_char(right, ':') {
                Some(i) => crate::text::trim(right.take(i)),
                None => right,
            };
            lemma_with_class(st.classes, from);
            lemma_with_class(with_class(st.classes, from), to);
            lemma_members_with_class(st.classes, from, n);
            lemma_members_with_class(with_class(st.classes, from), to, n);
            assert(st2.relations =~= st.relations + e.relations);
        } else {
            assert(st.relations + line_relations(st, line) =~= st.relations);
        }
    }
}

proof fn lemma_class_lines_order(body: Seq<Seq<char>>, n: Seq<char>)
    ensures
        current_declared(class_lines(empty_class_state(), body)),
        class_lines(empty_class_state(), body).relations == body_relations(body),
        class_members(class_lines(empty_class_state(), body).classes, n) == body_members(body, n),
    decreases body.len(),
{
    if body.len() > 0 {
        lemma_class_lines_order(body.drop_last(), n);
        lemma_class_line_order(class_lines(empty_class_state(), body.drop_last()), body.last(), n);
    }
}

/// A class diagram's relations are those of its lines outside class bodies,
/// in line order; the members of each class are those of the lines in its
/// bodies, in line order, gathered over every body of that class.
pub proof fn lemma_class_order(lines: Seq<Seq<char>>, n: Seq<char>)
    ensures
        spec_class_diagram(lines).relations == body_relations(lines.skip(1)),
        class_members(spec_class_diagram(lines).classes, n) == body_members(lines.skip(1), n),
{
    lemma_class_lines_order(lines.skip(1), n);
}

// ---------------------------------------------------------------------------
// Any diagram
// ---------------------------------------------------------------------------

pub open spec fn diagram_consistent(d: SpecDiagram) -> bool {
    match d {
        SpecDiagram::Flowchart(fc) => flowchart_consistent(fc),
        SpecDiagram::Sequence(sd) => sequence_consistent(sd),
        SpecDiagram::Class(cd) => class_consistent(cd),
    }
}

/// Whatever text is parsed, the diagram it gives is consistent: unique
/// names, and every name it refers to declared.
pub proof fn lemma_parsed_diagram_consistent(input: Seq<char>)
    ensures
        spec_parse(input) matches Ok(d) ==> diagram_consistent(d),
{
    let ls = crate::parser::diagram_lines(input);
    if ls.len() > 0 {
        lemma_flowchart_consistent(ls.skip(1), crate::parser::header_direction(ls[0]));
        lemma_sequence_consistent(ls);
        lemma_class_consistent(ls);
    }
}

} // verus!
