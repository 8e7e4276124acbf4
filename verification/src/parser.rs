//! Mermaid source text to diagram models: flowcharts, sequence diagrams and
//! class diagrams.
use vstd::prelude::*;
use crate::consistency::{
    body_edges, body_items, body_members, body_names, body_relations, class_members,
    lemma_class_order, lemma_flowchart_edge_order, lemma_sequence_order, class_consistent, diagram_consistent, flowchart_consistent, lemma_class_consistent,
    lemma_flowchart_consistent, lemma_parsed_diagram_consistent, lemma_sequence_consistent,
    sequence_consistent,
};
use crate::text::{
    find, find_char, find_char_exec, find_exec, lemma_find, lemma_find_char, lemma_rfind_below,
    lemma_trim_len, occurs_at, rfind, rfind_exec, slice_of, split_char, starts_with, strip_prefixes, trim,
    trim_chars, words, join, chars_eq, from_chars, join_exec, split_char_exec, starts_with_exec,
    strip_prefixes_exec, views, words_exec, lemma_views_push, lemma_trim_idempotent, to_chars,
    to_uppercase, uppercase_of, contains, contains_exec, split_once_only, split_once_only_exec,
    strip_suffix_chars, strip_suffix_chars_exec, lines_exec, lines_of, lowercase_of, to_lowercase,
};

verus! {

// ---------------------------------------------------------------------------
// Diagram types and their mathematical models
// ---------------------------------------------------------------------------

#[derive(Debug, Clone, Copy, PartialEq, Eq, Structural)]
pub enum Direction {
    TopToBottom,
    BottomToTop,
    LeftToRight,
    RightToLeft,
}

#[derive(Debug, Clone, Copy, PartialEq, Eq, Structural)]
pub enum NodeShape {
    Rectangle,
    Rounded,
    Diamond,
    Cylinder,
    Circle,
}

#[derive(Debug, Clone, PartialEq)]
pub struct NodeStyle {
    pub fill: Option<String>,
    pub stroke: Option<String>,
    pub color: Option<String>,
}

#[derive(Debug, Clone, PartialEq)]
pub struct Node {
    pub id: String,
    pub label: String,
    pub shape: NodeShape,
    pub style: Option<NodeStyle>,
}

#[derive(Debug, Clone, Copy, PartialEq, Eq, Structural)]
pub enum EdgeType {
    SolidArrow,
    DottedArrow,
    ThickArrow,
    SolidLine,
}

#[derive(Debug, Clone, PartialEq)]
pub struct Edge {
    pub from: String,
    pub to: String,
    pub label: Option<String>,
    pub edge_type: EdgeType,
}

#[derive(Debug, Clone)]
pub struct Flowchart {
    pub direction: Direction,
    pub nodes: Vec<Node>,
    pub edges: Vec<Edge>,
}

#[derive(Debug, Clone)]
pub struct SequenceMessage {
    pub from: String,
    pub to: String,
    pub label: String,
    pub arrow: String,
}

#[derive(Debug, Clone)]
pub enum SequenceItem {
    Message(SequenceMessage),
    Note { over: Vec<String>, text: String },
    LoopStart { label: String },
    LoopEnd,
    AltStart { label: String },
    AltElse { label: String },
    AltEnd,
}

#[derive(Debug, Clone)]
pub struct SequenceDiagram {
    pub participants: Vec<String>,
    pub items: Vec<SequenceItem>,
}

#[derive(Debug, Clone)]
pub struct ClassMember {
    pub visibility: char,
    pub name: String,
    pub member_type: String,
    pub is_method: bool,
}

#[derive(Debug, Clone)]
pub struct ClassItem {
    pub name: String,
    pub members: Vec<ClassMember>,
}

#[derive(Debug, Clone)]
pub struct ClassRelation {
    pub from: String,
    pub to: String,
    pub relation_type: String,
    pub label: Option<String>,
}

#[derive(Debug, Clone)]
pub struct ClassDiagram {
    pub classes: Vec<ClassItem>,
    pub relations: Vec<ClassRelation>,
}

#[derive(Debug, Clone)]
pub enum ParsedDiagram {
    Flowchart(Flowchart),
    Sequence(SequenceDiagram),
    Class(ClassDiagram),
}

pub open spec fn opt_view(o: Option<String>) -> Option<Seq<char>> {
    match o {
        Some(s) => Some(s@),
        None => None,
    }
}

pub open spec fn strings_view(v: Seq<String>) -> Seq<Seq<char>> {
    v.map_values(|s: String| s@)
}

pub struct SpecNodeStyle {
    pub fill: Option<Seq<char>>,
    pub stroke: Option<Seq<char>>,
    pub color: Option<Seq<char>>,
}

pub struct SpecNode {
    pub id: Seq<char>,
    pub label: Seq<char>,
    pub shape: NodeShape,
    pub style: Option<SpecNodeStyle>,
}

pub struct SpecEdge {
    pub from: Seq<char>,
    pub to: Seq<char>,
    pub label: Option<Seq<char>>,
    pub edge_type: EdgeType,
}

pub struct SpecFlowchart {
    pub direction: Direction,
    pub nodes: Seq<SpecNode>,
    pub edges: Seq<SpecEdge>,
}

pub struct SpecMessage {
    pub from: Seq<char>,
    pub to: Seq<char>,
    pub label: Seq<char>,
    pub arrow: Seq<char>,
}

pub enum SpecSequenceItem {
    Message(SpecMessage),
    Note { over: Seq<Seq<char>>, text: Seq<char> },
    LoopStart { label: Seq<char> },
    LoopEnd,
    AltStart { label: Seq<char> },
    AltElse { label: Seq<char> },
    AltEnd,
}

pub struct SpecSequenceDiagram {
    pub participants: Seq<Seq<char>>,
    pub items: Seq<SpecSequenceItem>,
}

pub struct SpecClassMember {
    pub visibility: char,
    pub name: Seq<char>,
    pub member_type: Seq<char>,
    pub is_method: bool,
}

pub struct SpecClassItem {
    pub name: Seq<char>,
    pub members: Seq<SpecClassMember>,
}

pub struct SpecClassRelation {
    pub from: Seq<char>,
    pub to: Seq<char>,
    pub relation_type: Seq<char>,
    pub label: Option<Seq<char>>,
}

pub struct SpecClassDiagram {
    pub classes: Seq<SpecClassItem>,
    pub relations: Seq<SpecClassRelation>,
}

pub enum SpecDiagram {
    Flowchart(SpecFlowchart),
    Sequence(SpecSequenceDiagram),
    Class(SpecClassDiagram),
}

impl View for NodeStyle {
    type V = SpecNodeStyle;

    open spec fn view(&self) -> SpecNodeStyle {
        SpecNodeStyle {
            fill: opt_view(self.fill),
            stroke: opt_view(self.stroke),
            color: opt_view(self.color),
        }
    }
}

pub open spec fn style_view(s: Option<NodeStyle>) -> Option<SpecNodeStyle> {
    match s {
        Some(st) => Some(st@),
        None => None,
    }
}

impl View for Node {
    type V = SpecNode;

    open spec fn view(&self) -> SpecNode {
        SpecNode { id: self.id@, label: self.label@, shape: self.shape, style: style_view(self.style) }
    }
}

impl View for Edge {
    type V = SpecEdge;

    open spec fn view(&self) -> SpecEdge {
        SpecEdge {
            from: self.from@,
            to: self.to@,
            label: opt_view(self.label),
            edge_type: self.edge_type,
        }
    }
}

pub open spec fn nodes_view(v: Seq<Node>) -> Seq<SpecNode> {
    v.map_values(|n: Node| n@)
}

pub open spec fn edges_view(v: Seq<Edge>) -> Seq<SpecEdge> {
    v.map_values(|e: Edge| e@)
}

impl View for Flowchart {
    type V = SpecFlowchart;

    open spec fn view(&self) -> SpecFlowchart {
        SpecFlowchart {
            direction: self.direction,
            nodes: nodes_view(self.nodes@),
            edges: edges_view(self.edges@),
        }
    }
}

impl View for SequenceMessage {
    type V = SpecMessage;

    open spec fn view(&self) -> SpecMessage {
        SpecMessage { from: self.from@, to: self.to@, label: self.label@, arrow: self.arrow@ }
    }
}

impl View for SequenceItem {
    type V = SpecSequenceItem;

    open spec fn view(&self) -> SpecSequenceItem {
        match self {
            SequenceItem::Message(m) => SpecSequenceItem::Message(m@),
            SequenceItem::Note { over, text } => SpecSequenceItem::Note {
                over: strings_view(over@),
                text: text@,
            },
            SequenceItem::LoopStart { label } => SpecSequenceItem::LoopStart { label: label@ },
            SequenceItem::LoopEnd => SpecSequenceItem::LoopEnd,
            SequenceItem::AltStart { label } => SpecSequenceItem::AltStart { label: label@ },
            SequenceItem::AltElse { label } => SpecSequenceItem::AltElse { label: label@ },
            SequenceItem::AltEnd => SpecSequenceItem::AltEnd,
        }
    }
}

pub open spec fn items_view(v: Seq<SequenceItem>) -> Seq<SpecSequenceItem> {
    v.map_values(|i: SequenceItem| i@)
}

impl View for SequenceDiagram {
    type V = SpecSequenceDiagram;

    open spec fn view(&self) -> SpecSequenceDiagram {
        SpecSequenceDiagram {
            participants: strings_view(self.participants@),
            items: items_view(self.items@),
        }
    }
}

impl View for ClassMember {
    type V = SpecClassMember;

    open spec fn view(&self) -> SpecClassMember {
        SpecClassMember {
            visibility: self.visibility,
            name: self.name@,
            member_type: self.member_type@,
            is_method: self.is_method,
        }
    }
}

pub open spec fn members_view(v: Seq<ClassMember>) -> Seq<SpecClassMember> {
    v.map_values(|m: ClassMember| m@)
}

impl View for ClassItem {
    type V = SpecClassItem;

    open spec fn view(&self) -> SpecClassItem {
        SpecClassItem { name: self.name@, members: members_view(self.members@) }
    }
}

pub open spec fn classes_view(v: Seq<ClassItem>) -> Seq<SpecClassItem> {
    v.map_values(|c: ClassItem| c@)
}

impl View for ClassRelation {
    type V = SpecClassRelation;

    open spec fn view(&self) -> SpecClassRelation {
        SpecClassRelation {
            from: self.from@,
            to: self.to@,
            relation_type: self.relation_type@,
            label: opt_view(self.label),
        }
    }
}

pub open spec fn relations_view(v: Seq<ClassRelation>) -> Seq<SpecClassRelation> {
    v.map_values(|r: ClassRelation| r@)
}

impl View for ClassDiagram {
    type V = SpecClassDiagram;

    open spec fn view(&self) -> SpecClassDiagram {
        SpecClassDiagram {
            classes: classes_view(self.classes@),
            relations: relations_view(self.relations@),
        }
    }
}

impl View for ParsedDiagram {
    type V = SpecDiagram;

    open spec fn view(&self) -> SpecDiagram {
        match self {
            ParsedDiagram::Flowchart(f) => SpecDiagram::Flowchart(f@),
            ParsedDiagram::Sequence(s) => SpecDiagram::Sequence(s@),
            ParsedDiagram::Class(c) => SpecDiagram::Class(c@),
        }
    }
}

// ---------------------------------------------------------------------------
// Node references: `id`, `id[label]`, `id(label)`, `id{label}`,
// `id[(label)]`, `id((label))`
// ---------------------------------------------------------------------------

/// A node as a flowchart line writes it.
pub struct NodeRef {
    pub id: Seq<char>,
    pub label: Option<Seq<char>>,
    pub shape: NodeShape,
}

/// The first index of `open` and the last index of `close`, when both occur.
pub open spec fn delimited(s: Seq<char>, open: Seq<char>, close: Seq<char>) -> Option<(int, int)> {
    match (find(s, open), rfind(s, close)) {
        (Some(a), Some(b)) => Some((a, b)),
        _ => None,
    }
}

/// The shapes in the order in which a node text is tried against them, with
/// their opening and closing brackets.
pub open spec fn shape_open(k: int) -> Seq<char> {
    if k == 0 {
        seq!['[', '(']
    } else if k == 1 {
        seq!['(', '(']
    } else if k == 2 {
        seq!['{']
    } else if k == 3 {
        seq!['(']
    } else {
        seq!['[']
    }
}

pub open spec fn shape_close(k: int) -> Seq<char> {
    if k == 0 {
        seq![')', ']']
    } else if k == 1 {
        seq![')', ')']
    } else if k == 2 {
        seq!['}']
    } else if k == 3 {
        seq![')']
    } else {
        seq![']']
    }
}

pub open spec fn shape_kind(k: int) -> NodeShape {
    if k == 0 {
        NodeShape::Cylinder
    } else if k == 1 {
        NodeShape::Circle
    } else if k == 2 {
        NodeShape::Diamond
    } else if k == 3 {
        NodeShape::Rounded
    } else {
        NodeShape::Rectangle
    }
}

/// The first shape (from `k` on) whose brackets both occur in `s`.
pub open spec fn first_shape(s: Seq<char>, k: int) -> Option<(int, int, int)>
    decreases 5 - k,
{
    if k < 0 || k >= 5 {
        None
    } else {
        match delimited(s, shape_open(k), shape_close(k)) {
            Some((a, b)) => Some((k, a, b)),
            None => first_shape(s, k + 1),
        }
    }
}

/// What a node text denotes: for the first shape whose brackets occur, the
/// text before the opening bracket is the id and the text between the
/// brackets the label; with no brackets the whole text is the id.
pub open spec fn node_ref(s0: Seq<char>) -> NodeRef {
    let s = trim(s0);
    match first_shape(s, 0) {
        Some((k, a, b)) => NodeRef {
            id: trim(s.take(a)),
            label: Some(trim(s.subrange(a + shape_open(k).len(), b))),
            shape: shape_kind(k),
        },
        None => NodeRef { id: s, label: None, shape: NodeShape::Rectangle },
    }
}

/// Whether reading a node text slices out of order: the closing bracket of
/// the chosen shape stands before the end of its opening bracket.
pub open spec fn node_ref_panics(s0: Seq<char>) -> bool {
    let s = trim(s0);
    match first_shape(s, 0) {
        Some((k, a, b)) => b < a + shape_open(k).len(),
        None => false,
    }
}

fn shape_open_exec(k: usize) -> (r: Vec<char>)
    ensures
        r@ == shape_open(k as int),
{
    if k == 0 {
        vec!['[', '(']
    } else if k == 1 {
        vec!['(', '(']
    } else if k == 2 {
        vec!['{']
    } else if k == 3 {
        vec!['(']
    } else {
        vec!['[']
    }
}

fn shape_close_exec(k: usize) -> (r: Vec<char>)
    ensures
        r@ == shape_close(k as int),
{
    if k == 0 {
        vec![')', ']']
    } else if k == 1 {
        vec![')', ')']
    } else if k == 2 {
        vec!['}']
    } else if k == 3 {
        vec![')']
    } else {
        vec![']']
    }
}

fn shape_kind_exec(k: usize) -> (r: NodeShape)
    ensures
        r == shape_kind(k as int),
{
    if k == 0 {
        NodeShape::Cylinder
    } else if k == 1 {
        NodeShape::Circle
    } else if k == 2 {
        NodeShape::Diamond
    } else if k == 3 {
        NodeShape::Rounded
    } else {
        NodeShape::Rectangle
    }
}

fn first_shape_exec(s: &Vec<char>) -> (r: Option<(usize, usize, usize)>)
    ensures
        r matches Some((k, a, b)) ==> first_shape(s@, 0) == Some((k as int, a as int, b as int)),
        r is None ==> first_shape(s@, 0) is None,
{
    let mut k: usize = 0;
    while k < 5
        invariant
            k <= 5,
            first_shape(s@, 0) == first_shape(s@, k as int),
        decreases 5 - k,
    {
        let open = shape_open_exec(k);
        let close = shape_close_exec(k);
        let fa = find_exec(s, &open);
        let fb = rfind_exec(s, &close);
        match (fa, fb) {
            (Some(a), Some(b)) => {
                return Some((k, a, b));
            },
            _ => {},
        }
        k = k + 1;
    }
    None
}

pub proof fn lemma_first_shape(s: Seq<char>, k: int)
    ensures
        first_shape(s, k) matches Some((j, a, b)) ==> 0 <= j < 5 && occurs_at(s, shape_open(j), a)
            && occurs_at(s, shape_close(j), b),
    decreases 5 - k,
{
    if 0 <= k < 5 {
        lemma_find(s, shape_open(k));
        lemma_rfind_below(s, shape_close(k), s.len() + 1);
        lemma_first_shape(s, k + 1);
    }
}

/// Reads a node text.
pub fn extract_node(s0: &Vec<char>) -> (r: (Vec<char>, Option<Vec<char>>, NodeShape))
    requires
        !node_ref_panics(s0@),
    ensures
        r.0@ == node_ref(s0@).id,
        (match r.1 {
            Some(l) => node_ref(s0@).label == Some(l@),
            None => node_ref(s0@).label is None,
        }),
        r.2 == node_ref(s0@).shape,
{
    let s = trim_chars(s0);
    match first_shape_exec(&s) {
        Some((k, a, b)) => {
            proof {
                lemma_first_shape(s@, 0);
            }
            let w = shape_open_exec(k).len();
            let id = trim_chars(&slice_of(&s, 0, a));
            let label = trim_chars(&slice_of(&s, a + w, b));
            proof {
                assert(s@.subrange(0, a as int) =~= s@.take(a as int));
            }
            (id, Some(label), shape_kind_exec(k))
        },
        None => (s, None, NodeShape::Rectangle),
    }
}


// ---------------------------------------------------------------------------
// Edge chains: `A --> B -.-> C`, `A ==>|label| B`
// ---------------------------------------------------------------------------

/// The edge delimiters in the order in which they are tried, with the kind of
/// edge each writes.
pub open spec fn edge_delim(k: int) -> Seq<char> {
    if k == 0 {
        seq!['-', '.', '-', '>']
    } else if k == 1 {
        seq!['=', '=', '>']
    } else if k == 2 {
        seq!['-', '-', '>']
    } else {
        seq!['-', '-', '-']
    }
}

pub open spec fn edge_kind(k: int) -> EdgeType {
    if k == 0 {
        EdgeType::DottedArrow
    } else if k == 1 {
        EdgeType::ThickArrow
    } else if k == 2 {
        EdgeType::SolidArrow
    } else {
        EdgeType::SolidLine
    }
}

/// The earliest delimiter among those tried from `k` on: its index, its
/// position and the delimiter's number; a later delimiter replaces an earlier
/// one only when it stands strictly further left.
pub open spec fn earliest_from(s: Seq<char>, k: int, best: Option<(int, int)>) -> Option<(int, int)>
    decreases 4 - k,
{
    if k < 0 || k >= 4 {
        best
    } else {
        let next = match find(s, edge_delim(k)) {
            None => best,
            Some(p) => match best {
                None => Some((p, k)),
                Some((q, _)) => if p < q {
                    Some((p, k))
                } else {
                    best
                },
            },
        };
        earliest_from(s, k + 1, next)
    }
}

/// The leftmost edge delimiter in `s`, as (position, delimiter number).
pub open spec fn earliest_edge(s: Seq<char>) -> Option<(int, int)> {
    earliest_from(s, 0, None)
}

pub proof fn lemma_earliest_from(s: Seq<char>, k: int, best: Option<(int, int)>)
    requires
        best matches Some((p, j)) ==> 0 <= j < 4 && occurs_at(s, edge_delim(j), p),
    ensures
        earliest_from(s, k, best) matches Some((p, j)) ==> 0 <= j < 4 && occurs_at(
            s,
            edge_delim(j),
            p,
        ),
    decreases 4 - k,
{
    if 0 <= k < 4 {
        lemma_find(s, edge_delim(k));
        let next = match find(s, edge_delim(k)) {
            None => best,
            Some(p) => match best {
                None => Some((p, k)),
                Some((q, _)) => if p < q {
                    Some((p, k))
                } else {
                    best
                },
            },
        };
        lemma_earliest_from(s, k + 1, next);
    }
}

pub proof fn lemma_earliest_edge(s: Seq<char>)
    ensures
        earliest_edge(s) matches Some((p, j)) ==> 0 <= j < 4 && occurs_at(s, edge_delim(j), p)
            && edge_delim(j).len() >= 3,
{
    lemma_earliest_from(s, 0, None);
}

fn edge_delim_exec(k: usize) -> (r: Vec<char>)
    ensures
        r@ == edge_delim(k as int),
{
    if k == 0 {
        vec!['-', '.', '-', '>']
    } else if k == 1 {
        vec!['=', '=', '>']
    } else if k == 2 {
        vec!['-', '-', '>']
    } else {
        vec!['-', '-', '-']
    }
}

fn edge_kind_exec(k: usize) -> (r: EdgeType)
    ensures
        r == edge_kind(k as int),
{
    if k == 0 {
        EdgeType::DottedArrow
    } else if k == 1 {
        EdgeType::ThickArrow
    } else if k == 2 {
        EdgeType::SolidArrow
    } else {
        EdgeType::SolidLine
    }
}

fn earliest_edge_exec(s: &Vec<char>) -> (r: Option<(usize, usize)>)
    ensures
        r matches Some((p, k)) ==> earliest_edge(s@) == Some((p as int, k as int)),
        r is None ==> earliest_edge(s@) is None,
{
    let mut best: Option<(usize, usize)> = None;
    let mut k: usize = 0;
    while k < 4
        invariant
            k <= 4,
            earliest_edge(s@) == earliest_from(
                s@,
                k as int,
                match best {
                    Some((p, j)) => Some((p as int, j as int)),
                    None => None,
                },
            ),
        decreases 4 - k,
    {
        let d = edge_delim_exec(k);
        match find_exec(s, &d) {
            None => {},
            Some(p) => {
                match best {
                    None => {
                        best = Some((p, k));
                    },
                    Some((q, _)) => {
                        if p < q {
                            best = Some((p, k));
                        }
                    },
                }
            },
        }
        k = k + 1;
    }
    best
}

/// The label written `|label|` right after a delimiter, and the text after it.
pub open spec fn edge_label(a: Seq<char>) -> (Option<Seq<char>>, Seq<char>) {
    if a.len() > 0 && a[0] == '|' {
        match find_char(a.skip(1), '|') {
            Some(e) => (Some(trim(a.subrange(1, e + 1))), trim(a.skip(e + 2))),
            None => (None, a),
        }
    } else {
        (None, a)
    }
}

/// One link of a chain of edges.
pub struct ChainLink {
    pub from: Seq<char>,
    pub to: Seq<char>,
    pub edge_type: EdgeType,
    pub label: Option<Seq<char>>,
}

/// The links of a chain of edges in a flowchart line, left to right; a link
/// with an empty end is left out, and reading stops after the last delimiter.
pub open spec fn edge_chain(rem: Seq<char>) -> Seq<ChainLink>
    decreases rem.len(),
{
    match earliest_edge(rem) {
        None => seq![],
        Some((pos, k)) => {
            let from = trim(rem.take(pos));
            let after_delim = trim(rem.skip(pos + edge_delim(k).len()));
            let lab = edge_label(after_delim);
            let after_label = lab.1;
            let next = earliest_edge(after_label);
            let to = match next {
                Some((q, _)) => trim(after_label.take(q)),
                None => after_label,
            };
            let link = if from.len() > 0 && to.len() > 0 {
                seq![ChainLink { from, to, edge_type: edge_kind(k), label: lab.0 }]
            } else {
                seq![]
            };
            proof {
                lemma_edge_chain_shrinks(rem);
            }
            if next is Some {
                link + edge_chain(after_label)
            } else {
                link
            }
        },
    }
}

pub proof fn lemma_edge_label_len(a: Seq<char>)
    ensures
        edge_label(a).1.len() <= a.len(),
{
    if a.len() > 0 && a[0] == '|' {
        lemma_find_char(a.skip(1), '|');
        if let Some(e) = find_char(a.skip(1), '|') {
            lemma_trim_len(a.skip(e + 2));
        }
    }
}

pub proof fn lemma_edge_chain_shrinks(rem: Seq<char>)
    ensures
        earliest_edge(rem) matches Some((pos, k)) ==> edge_label(
            trim(rem.skip(pos + edge_delim(k).len())),
        ).1.len() < rem.len(),
{
    lemma_earliest_edge(rem);
    if let Some((pos, k)) = earliest_edge(rem) {
        let after = rem.skip(pos + edge_delim(k).len());
        lemma_trim_len(after);
        lemma_edge_label_len(trim(after));
    }
}

fn edge_label_exec(a: Vec<char>) -> (r: (Option<Vec<char>>, Vec<char>))
    ensures
        opt_chars(r.0) == edge_label(a@).0,
        r.1@ == edge_label(a@).1,
{
    if a.len() > 0 && a[0] == '|' {
        let tail = slice_of(&a, 1, a.len());
        proof {
            assert(tail@ =~= a@.skip(1));
        }
        match find_char_exec(&tail, '|') {
            Some(e) => {
                proof {
                    lemma_find_char(tail@, '|');
                }
                let lbl = trim_chars(&slice_of(&a, 1, e + 1));
                let rest = trim_chars(&slice_of(&a, e + 2, a.len()));
                proof {
                    assert(a@.subrange(e + 2, a@.len() as int) =~= a@.skip(e + 2));
                }
                (Some(lbl), rest)
            },
            None => (None, a),
        }
    } else {
        (None, a)
    }
}

pub open spec fn opt_chars(o: Option<Vec<char>>) -> Option<Seq<char>> {
    match o {
        Some(v) => Some(v@),
        None => None,
    }
}

/// An exec link of a chain of edges.
pub struct ExecLink {
    pub from: Vec<char>,
    pub to: Vec<char>,
    pub edge_type: EdgeType,
    pub label: Option<Vec<char>>,
}

pub open spec fn link_view(l: ExecLink) -> ChainLink {
    ChainLink { from: l.from@, to: l.to@, edge_type: l.edge_type, label: opt_chars(l.label) }
}

pub open spec fn links_view(v: Seq<ExecLink>) -> Seq<ChainLink> {
    v.map_values(|l: ExecLink| link_view(l))
}

/// Reads the chain of edges of a flowchart line.
pub fn parse_flowchart_line_chains(line: &Vec<char>) -> (r: Vec<ExecLink>)
    ensures
        links_view(r@) == edge_chain(trim(line@)),
{
    let mut results: Vec<ExecLink> = Vec::new();
    let mut remaining = trim_chars(line);
    loop
        invariant
            edge_chain(trim(line@)) == links_view(results@) + edge_chain(remaining@),
        decreases remaining@.len(),
    {
        match earliest_edge_exec(&remaining) {
            None => {
                proof {
                    assert(links_view(results@) =~= edge_chain(trim(line@)));
                }
                return results;
            },
            Some((pos, k)) => {
                proof {
                    lemma_earliest_edge(remaining@);
                    lemma_edge_chain_shrinks(remaining@);
                }
                let ghost rem = remaining@;
                let dlen = edge_delim_exec(k).len();
                let rlen = remaining.len();
                let from_node = trim_chars(&slice_of(&remaining, 0, pos));
                let after_delim = trim_chars(&slice_of(&remaining, pos + dlen, rlen));
                proof {
                    assert(rem.subrange(0, pos as int) =~= rem.take(pos as int));
                    assert(rem.subrange(pos + dlen, rlen as int) =~= rem.skip(pos + dlen));
                }
                let (edge_label, after_label) = edge_label_exec(after_delim);
                let next = earliest_edge_exec(&after_label);
                let to_node = match next {
                    Some((q, _)) => {
                        proof {
                            lemma_earliest_edge(after_label@);
                            assert(after_label@.subrange(0, q as int) =~= after_label@.take(q as int));
                        }
                        trim_chars(&slice_of(&after_label, 0, q))
                    },
                    None => slice_of(&after_label, 0, after_label.len()),
                };
                proof {
                    assert(after_label@.subrange(0, after_label@.len() as int) =~= after_label@);
                }
                let ghost before = links_view(results@);
                if from_node.len() > 0 && to_node.len() > 0 {
                    let link = ExecLink {
                        from: from_node,
                        to: to_node,
                        edge_type: edge_kind_exec(k),
                        label: edge_label,
                    };
                    results.push(link);
                    proof {
                        assert(links_view(results@) =~= before.push(link_view(link)));
                    }
                }
                if next.is_none() {
                    proof {
                        assert(links_view(results@) =~= edge_chain(trim(line@)));
                    }
                    return results;
                }
                remaining = after_label;
                proof {
                    assert(edge_chain(trim(line@)) =~= links_view(results@) + edge_chain(remaining@));
                }
            },
        }
    }
}


// ---------------------------------------------------------------------------
// Flowcharts
// ---------------------------------------------------------------------------

/// What has been read of a flowchart so far: the nodes in the order of first
/// mention, the edges in order, and the style directives in order.
pub struct FlowState {
    pub nodes: Seq<SpecNode>,
    pub edges: Seq<SpecEdge>,
    pub styles: Seq<(Seq<char>, SpecNodeStyle)>,
}

pub open spec fn has_node(nodes: Seq<SpecNode>, id: Seq<char>) -> bool {
    exists|i: int| 0 <= i < nodes.len() && (#[trigger] nodes[i]).id == id
}

/// The nodes with `r` added, unless a node with its id is already there.
pub open spec fn with_node(nodes: Seq<SpecNode>, r: NodeRef) -> Seq<SpecNode> {
    if has_node(nodes, r.id) {
        nodes
    } else {
        nodes.push(
            SpecNode {
                id: r.id,
                label: match r.label {
                    Some(l) => l,
                    None => r.id,
                },
                shape: r.shape,
                style: None,
            },
        )
    }
}

pub open spec fn add_link(st: FlowState, l: ChainLink) -> FlowState {
    let f = node_ref(l.from);
    let t = node_ref(l.to);
    FlowState {
        nodes: with_node(with_node(st.nodes, f), t),
        edges: st.edges.push(SpecEdge { from: f.id, to: t.id, label: l.label, edge_type: l.edge_type }),
        styles: st.styles,
    }
}

pub open spec fn add_links(st: FlowState, links: Seq<ChainLink>) -> FlowState
    decreases links.len(),
{
    if links.len() == 0 {
        st
    } else {
        add_link(add_links(st, links.drop_last()), links.last())
    }
}

pub proof fn lemma_add_links_styles(st: FlowState, links: Seq<ChainLink>)
    ensures
        add_links(st, links).styles == st.styles,
    decreases links.len(),
{
    if links.len() > 0 {
        lemma_add_links_styles(st, links.drop_last());
    }
}

pub open spec fn empty_style() -> SpecNodeStyle {
    SpecNodeStyle { fill: None, stroke: None, color: None }
}

/// One `key:value` property of a style directive; other keys, and pieces that
/// do not split into exactly two at `:`, leave the style as it is.
pub open spec fn apply_style_prop(st: SpecNodeStyle, prop: Seq<char>) -> SpecNodeStyle {
    let kv = split_char(prop, ':');
    if kv.len() == 2 {
        let k = trim(kv[0]);
        let v = trim(kv[1]);
        if k == seq!['f', 'i', 'l', 'l'] {
            SpecNodeStyle { fill: Some(v), ..st }
        } else if k == seq!['s', 't', 'r', 'o', 'k', 'e'] {
            SpecNodeStyle { stroke: Some(v), ..st }
        } else if k == seq!['c', 'o', 'l', 'o', 'r'] {
            SpecNodeStyle { color: Some(v), ..st }
        } else {
            st
        }
    } else {
        st
    }
}

pub open spec fn apply_style_props(props: Seq<Seq<char>>) -> SpecNodeStyle
    decreases props.len(),
{
    if props.len() == 0 {
        empty_style()
    } else {
        apply_style_prop(apply_style_props(props.drop_last()), props.last())
    }
}

/// The style a directive's property list (`fill:#f9f,stroke:#333`) sets.
pub open spec fn style_of(s: Seq<char>) -> SpecNodeStyle {
    apply_style_props(split_char(s, ','))
}

pub open spec fn style_kw() -> Seq<char> {
    seq!['s', 't', 'y', 'l', 'e', ' ']
}

/// The effect of one flowchart line: a style directive, a chain of edges, or
/// a lone node.
pub open spec fn flow_line(st: FlowState, line: Seq<char>) -> FlowState {
    let t = trim(line);
    if starts_with(t, style_kw()) {
        let parts = words(strip_prefixes(t, style_kw()));
        if parts.len() >= 2 {
            FlowState {
                nodes: st.nodes,
                edges: st.edges,
                styles: st.styles.push((trim(parts[0]), style_of(join(parts.skip(1), seq![' '])))),
            }
        } else {
            st
        }
    } else {
        let links = edge_chain(t);
        if links.len() > 0 {
            add_links(st, links)
        } else {
            let r = node_ref(t);
            if r.id.len() > 0 {
                FlowState { nodes: with_node(st.nodes, r), edges: st.edges, styles: st.styles }
            } else {
                st
            }
        }
    }
}

/// Whether reading a flowchart line would slice a node text out of order.
pub open spec fn flow_line_panics(line: Seq<char>) -> bool {
    let t = trim(line);
    if starts_with(t, style_kw()) {
        false
    } else {
        let links = edge_chain(t);
        if links.len() > 0 {
            exists|i: int|
                0 <= i < links.len() && (node_ref_panics((#[trigger] links[i]).from)
                    || node_ref_panics(links[i].to))
        } else {
            node_ref_panics(t)
        }
    }
}

pub open spec fn flow_lines(st: FlowState, lines: Seq<Seq<char>>) -> FlowState
    decreases lines.len(),
{
    if lines.len() == 0 {
        st
    } else {
        flow_line(flow_lines(st, lines.drop_last()), lines.last())
    }
}

/// The last style directive for `id`, if any.
pub open spec fn last_style(styles: Seq<(Seq<char>, SpecNodeStyle)>, id: Seq<char>) -> Option<
    SpecNodeStyle,
>
    decreases styles.len(),
{
    if styles.len() == 0 {
        None
    } else if styles.last().0 == id {
        Some(styles.last().1)
    } else {
        last_style(styles.drop_last(), id)
    }
}

pub open spec fn empty_flow() -> FlowState {
    FlowState { nodes: seq![], edges: seq![], styles: seq![] }
}

/// A node with the style of the last directive for its id.
pub open spec fn styled_node(n: SpecNode, styles: Seq<(Seq<char>, SpecNodeStyle)>) -> SpecNode {
    SpecNode { id: n.id, label: n.label, shape: n.shape, style: last_style(styles, n.id) }
}

/// The flowchart that body lines (the lines after the header) describe.
pub open spec fn flowchart_of(body: Seq<Seq<char>>, direction: Direction) -> SpecFlowchart {
    let st = flow_lines(empty_flow(), body);
    SpecFlowchart {
        direction,
        nodes: st.nodes.map_values(|n: SpecNode| styled_node(n, st.styles)),
        edges: st.edges,
    }
}

/// Whether reading the body lines would slice a node text out of order.
pub open spec fn flow_body_panics(body: Seq<Seq<char>>) -> bool {
    exists|i: int| 0 <= i < body.len() && flow_line_panics(#[trigger] body[i])
}


pub open spec fn styles_view(v: Seq<(String, NodeStyle)>) -> Seq<(Seq<char>, SpecNodeStyle)> {
    v.map_values(|p: (String, NodeStyle)| (p.0@, p.1@))
}

/// The index of the first node with the given id.
fn find_node(nodes: &Vec<Node>, id: &String) -> (r: Option<usize>)
    ensures
        r matches Some(i) ==> i < nodes.len() && nodes@[i as int].id@ == id@,
        r is None ==> !has_node(nodes_view(nodes@), id@),
{
    let mut i: usize = 0;
    while i < nodes.len()
        invariant
            i <= nodes.len(),
            forall|j: int| 0 <= j < i ==> nodes@[j].id@ != id@,
        decreases nodes.len() - i,
    {
        if nodes[i].id == *id {
            return Some(i);
        }
        i = i + 1;
    }
    proof {
        if has_node(nodes_view(nodes@), id@) {
            let j = choose|j: int| 0 <= j < nodes_view(nodes@).len() && (#[trigger] nodes_view(nodes@)[j]).id == id@;
            assert(nodes@[j].id@ == id@);
        }
    }
    None
}

fn add_node(nodes: &mut Vec<Node>, r: (Vec<char>, Option<Vec<char>>, NodeShape))
    ensures
        nodes_view(final(nodes)@) == with_node(
            nodes_view(old(nodes)@),
            NodeRef { id: r.0@, label: opt_chars(r.1), shape: r.2 },
        ),
{
    let id = from_chars(&r.0);
    match find_node(nodes, &id) {
        Some(i) => {
            proof {
                assert(nodes_view(nodes@)[i as int].id == id@);
            }
        },
        None => {
            let label = match r.1 {
                Some(l) => from_chars(&l),
                None => from_chars(&r.0),
            };
            let n = Node { id, label, shape: r.2, style: None };
            let ghost before = nodes_view(nodes@);
            nodes.push(n);
            proof {
                assert(nodes_view(nodes@) =~= before.push(n@));
            }
        },
    }
}

fn style_prop_exec(st: NodeStyle, prop: &Vec<char>) -> (r: NodeStyle)
    ensures
        r@ == apply_style_prop(st@, prop@),
{
    let kv = split_char_exec(prop, ':');
    if kv.len() == 2 {
        let k = trim_chars(&kv[0]);
        let v = trim_chars(&kv[1]);
        proof {
            assert(views(kv@)[0] == kv@[0]@);
            assert(views(kv@)[1] == kv@[1]@);
        }
        if chars_eq(&k, &vec!['f', 'i', 'l', 'l']) {
            NodeStyle { fill: Some(from_chars(&v)), ..st }
        } else if chars_eq(&k, &vec!['s', 't', 'r', 'o', 'k', 'e']) {
            NodeStyle { stroke: Some(from_chars(&v)), ..st }
        } else if chars_eq(&k, &vec!['c', 'o', 'l', 'o', 'r']) {
            NodeStyle { color: Some(from_chars(&v)), ..st }
        } else {
            st
        }
    } else {
        st
    }
}

fn style_of_exec(s: &Vec<char>) -> (r: NodeStyle)
    ensures
        r@ == style_of(s@),
{
    let props = split_char_exec(s, ',');
    let mut st = NodeStyle { fill: None, stroke: None, color: None };
    let mut i: usize = 0;
    while i < props.len()
        invariant
            i <= props.len(),
            st@ == apply_style_props(views(props@).take(i as int)),
        decreases props.len() - i,
    {
        proof {
            assert(views(props@).take(i + 1).drop_last() =~= views(props@).take(i as int));
        }
        st = style_prop_exec(st, &props[i]);
        i = i + 1;
    }
    proof {
        assert(views(props@).take(props.len() as int) =~= views(props@));
    }
    st
}

fn add_links_exec(
    nodes: &mut Vec<Node>,
    edges: &mut Vec<Edge>,
    styles: &Vec<(String, NodeStyle)>,
    links: &Vec<ExecLink>,
)
    requires
        forall|i: int|
            0 <= i < links.len() ==> !node_ref_panics((#[trigger] links@[i]).from@)
                && !node_ref_panics(links@[i].to@),
    ensures
        ({
            let st = add_links(
                FlowState {
                    nodes: nodes_view(old(nodes)@),
                    edges: edges_view(old(edges)@),
                    styles: styles_view(styles@),
                },
                links_view(links@),
            );
            &&& nodes_view(final(nodes)@) == st.nodes
            &&& edges_view(final(edges)@) == st.edges
        }),
{
    let ghost st0 = FlowState {
        nodes: nodes_view(nodes@),
        edges: edges_view(edges@),
        styles: styles_view(styles@),
    };
    let mut i: usize = 0;
    while i < links.len()
        invariant
            i <= links.len(),
            forall|i: int|
                0 <= i < links.len() ==> !node_ref_panics((#[trigger] links@[i]).from@)
                    && !node_ref_panics(links@[i].to@),
            ({
                let st = add_links(st0, links_view(links@).take(i as int));
                &&& nodes_view(nodes@) == st.nodes
                &&& edges_view(edges@) == st.edges
                &&& st.styles == st0.styles
            }),
        decreases links.len() - i,
    {
        proof {
            assert(links_view(links@).take(i + 1).drop_last() =~= links_view(links@).take(i as int));
            assert(links_view(links@).take(i + 1).last() == link_view(links@[i as int]));
        }
        let f = extract_node(&links[i].from);
        let t = extract_node(&links[i].to);
        let from_id = from_chars(&f.0);
        let to_id = from_chars(&t.0);
        add_node(nodes, f);
        add_node(nodes, t);
        let label = match &links[i].label {
            Some(l) => Some(from_chars(l)),
            None => None,
        };
        let e = Edge { from: from_id, to: to_id, label, edge_type: links[i].edge_type };
        let ghost before = edges_view(edges@);
        edges.push(e);
        proof {
            assert(edges_view(edges@) =~= before.push(e@));
            assert(NodeRef { id: f.0@, label: opt_chars(f.1), shape: f.2 } == node_ref(links@[i as int].from@));
            assert(NodeRef { id: t.0@, label: opt_chars(t.1), shape: t.2 } == node_ref(links@[i as int].to@));
        }
        i = i + 1;
    }
    proof {
        assert(links_view(links@).take(links.len() as int) =~= links_view(links@));
    }
}

fn flow_line_exec(
    nodes: &mut Vec<Node>,
    edges: &mut Vec<Edge>,
    styles: &mut Vec<(String, NodeStyle)>,
    line: &Vec<char>,
)
    requires
        !flow_line_panics(line@),
    ensures
        ({
            let st = flow_line(
                FlowState {
                    nodes: nodes_view(old(nodes)@),
                    edges: edges_view(old(edges)@),
                    styles: styles_view(old(styles)@),
                },
                line@,
            );
            &&& nodes_view(final(nodes)@) == st.nodes
            &&& edges_view(final(edges)@) == st.edges
            &&& styles_view(final(styles)@) == st.styles
        }),
{
    let trimmed = trim_chars(line);
    let kw = vec!['s', 't', 'y', 'l', 'e', ' '];
    let ghost st0 = FlowState {
        nodes: nodes_view(nodes@),
        edges: edges_view(edges@),
        styles: styles_view(styles@),
    };
    if starts_with_exec(&trimmed, &kw) {
        let parts = words_exec(&strip_prefixes_exec(&trimmed, &kw));
        proof {
            assert(kw@ == style_kw());
            assert(starts_with(trim(line@), style_kw()));
            assert(views(parts@) == words(strip_prefixes(trim(line@), style_kw())));
        }
        if parts.len() >= 2 {
            let node_id = trim_chars(&parts[0]);
            let rest = slice_vecs(&parts, 1);
            let sp = vec![' '];
            let style_str = join_exec(&rest, &sp);
            proof {
                assert(sp@ =~= seq![' ']);
                assert(views(rest@) =~= views(parts@).skip(1));
            }
            let st = style_of_exec(&style_str);
            let id = from_chars(&node_id);
            let ghost before = styles_view(styles@);
            proof {
                assert(views(parts@)[0] == parts@[0]@);
                assert(views(rest@) =~= views(parts@).skip(1));
            }
            styles.push((id, st));
            proof {
                assert(styles_view(styles@) =~= before.push((id@, st@)));
                assert(join(views(parts@).skip(1), seq![' ']) == style_str@);
                assert(flow_line(st0, line@).styles == before.push((id@, st@)));
            }
        }
        return;
    }
    let links = parse_flowchart_line_chains(&trimmed);
    proof {
        assert(trim(trimmed@) == trim(line@)) by {
            lemma_trim_idempotent(line@);
        }
    }
    if links.len() > 0 {
        proof {
            assert forall|i: int| 0 <= i < links.len() implies !node_ref_panics((#[trigger] links@[i]).from@)
                && !node_ref_panics(links@[i].to@) by {
                assert(links_view(links@)[i] == link_view(links@[i]));
            }
        }
        add_links_exec(nodes, edges, styles, &links);
        proof {
            lemma_add_links_styles(st0, links_view(links@));
        }
    } else {
        let r = extract_node(&trimmed);
        proof {
            assert(NodeRef { id: r.0@, label: opt_chars(r.1), shape: r.2 } == node_ref(trimmed@));
        }
        if r.0.len() > 0 {
            add_node(nodes, r);
        }
    }
}

/// A copy of the vectors from index `a` on.
fn slice_vecs(v: &Vec<Vec<char>>, a: usize) -> (r: Vec<Vec<char>>)
    requires
        a <= v.len(),
    ensures
        views(r@) == views(v@).skip(a as int),
{
    let mut r: Vec<Vec<char>> = Vec::new();
    let mut i = a;
    while i < v.len()
        invariant
            a <= i <= v.len(),
            views(r@) == views(v@).subrange(a as int, i as int),
        decreases v.len() - i,
    {
        let x = slice_of(&v[i], 0, v[i].len());
        proof {
            assert(x@ =~= v@[i as int]@);
            lemma_views_push(r@, x);
        }
        r.push(x);
        i = i + 1;
        proof {
            assert(views(r@) =~= views(v@).subrange(a as int, i as int));
        }
    }
    r
}


fn copy_opt_string(o: &Option<String>) -> (r: Option<String>)
    ensures
        opt_view(r) == opt_view(*o),
{
    match o {
        Some(x) => Some(x.clone()),
        None => None,
    }
}

pub(crate) fn copy_style(st: &NodeStyle) -> (r: NodeStyle)
    ensures
        r@ == st@,
{
    NodeStyle {
        fill: copy_opt_string(&st.fill),
        stroke: copy_opt_string(&st.stroke),
        color: copy_opt_string(&st.color),
    }
}

fn last_style_exec(styles: &Vec<(String, NodeStyle)>, id: &String) -> (r: Option<NodeStyle>)
    ensures
        style_view(r) == last_style(styles_view(styles@), id@),
{
    let mut j = styles.len();
    proof {
        assert(styles_view(styles@).take(j as int) =~= styles_view(styles@));
    }
    while j > 0
        invariant
            j <= styles.len(),
            last_style(styles_view(styles@), id@) == last_style(styles_view(styles@).take(j as int), id@),
        decreases j,
    {
        let ghost t = styles_view(styles@).take(j as int);
        proof {
            assert(t.drop_last() =~= styles_view(styles@).take(j - 1));
            assert(t.last() == (styles@[j - 1].0@, styles@[j - 1].1@));
        }
        if styles[j - 1].0 == *id {
            return Some(copy_style(&styles[j - 1].1));
        }
        j = j - 1;
    }
    None
}

/// Reads the body lines of a flowchart (the lines after its header).
fn flowchart_body(body: &Vec<Vec<char>>, direction: Direction) -> (r: Flowchart)
    requires
        !flow_body_panics(views(body@)),
    ensures
        r@ == flowchart_of(views(body@), direction),
{
    let mut nodes: Vec<Node> = Vec::new();
    let mut edges: Vec<Edge> = Vec::new();
    let mut styles: Vec<(String, NodeStyle)> = Vec::new();
    let mut i: usize = 0;
    proof {
        assert(nodes_view(nodes@) =~= seq![]);
        assert(edges_view(edges@) =~= seq![]);
        assert(styles_view(styles@) =~= seq![]);
    }
    while i < body.len()
        invariant
            i <= body.len(),
            !flow_body_panics(views(body@)),
            ({
                let st = flow_lines(empty_flow(), views(body@).take(i as int));
                &&& nodes_view(nodes@) == st.nodes
                &&& edges_view(edges@) == st.edges
                &&& styles_view(styles@) == st.styles
            }),
        decreases body.len() - i,
    {
        proof {
            assert(views(body@).take(i + 1).drop_last() =~= views(body@).take(i as int));
            assert(views(body@)[i as int] == body@[i as int]@);
            assert(!flow_line_panics(views(body@)[i as int]));
        }
        flow_line_exec(&mut nodes, &mut edges, &mut styles, &body[i]);
        i = i + 1;
    }
    proof {
        assert(views(body@).take(body.len() as int) =~= views(body@));
    }
    let ghost st = flow_lines(empty_flow(), views(body@));
    let mut styled: Vec<Node> = Vec::new();
    let mut k: usize = 0;
    while k < nodes.len()
        invariant
            k <= nodes.len(),
            nodes_view(nodes@) == st.nodes,
            styles_view(styles@) == st.styles,
            nodes_view(styled@) == st.nodes.take(k as int).map_values(
                |n: SpecNode| styled_node(n, st.styles),
            ),
        decreases nodes.len() - k,
    {
        let style = last_style_exec(&styles, &nodes[k].id);
        let n = Node {
            id: nodes[k].id.clone(),
            label: nodes[k].label.clone(),
            shape: nodes[k].shape,
            style,
        };
        let ghost before = nodes_view(styled@);
        styled.push(n);
        proof {
            assert(nodes_view(nodes@)[k as int] == nodes@[k as int]@);
            assert(n@ == styled_node(st.nodes[k as int], st.styles));
            assert(nodes_view(styled@) =~= before.push(n@));
            assert(nodes_view(styled@) =~= st.nodes.take(k + 1).map_values(
                |n: SpecNode| styled_node(n, st.styles),
            ));
        }
        k = k + 1;
    }
    proof {
        assert(st.nodes.take(nodes.len() as int) =~= st.nodes);
    }
    Flowchart { direction, nodes: styled, edges }
}

/// The direction a flowchart header's keyword names, given the keyword in
/// upper case: `LR`, `RL`, `BT`, and top to bottom otherwise.
pub open spec fn direction_of(upper: Seq<char>) -> Direction {
    if upper == seq!['L', 'R'] {
        Direction::LeftToRight
    } else if upper == seq!['R', 'L'] {
        Direction::RightToLeft
    } else if upper == seq!['B', 'T'] {
        Direction::BottomToTop
    } else {
        Direction::TopToBottom
    }
}

/// The direction for an upper-cased header keyword.
pub fn direction_from_keyword(upper: &str) -> (r: Direction)
    ensures
        r == direction_of(upper@),
{
    let u = to_chars(upper);
    if chars_eq(&u, &vec!['L', 'R']) {
        Direction::LeftToRight
    } else if chars_eq(&u, &vec!['R', 'L']) {
        Direction::RightToLeft
    } else if chars_eq(&u, &vec!['B', 'T']) {
        Direction::BottomToTop
    } else {
        Direction::TopToBottom
    }
}

/// The direction a flowchart header line gives: its second word, upper-cased.
pub open spec fn header_direction(header: Seq<char>) -> Direction {
    let w = words(header);
    if w.len() > 1 {
        direction_of(uppercase_of(w[1]))
    } else {
        Direction::TopToBottom
    }
}

/// The flowchart that diagram lines (header first) describe.
pub open spec fn spec_flowchart(lines: Seq<Seq<char>>) -> SpecFlowchart {
    flowchart_of(lines.skip(1), header_direction(lines[0]))
}

/// Reads a flowchart from its lines, the header first.
pub fn parse_flowchart(lines: &Vec<Vec<char>>) -> (r: Flowchart)
    requires
        lines.len() > 0,
        !flow_body_panics(views(lines@).skip(1)),
    ensures
        r@ == spec_flowchart(views(lines@)),
        flowchart_consistent(r@),
        r@.edges == body_edges(views(lines@).skip(1)),
{
    proof {
        lemma_flowchart_consistent(views(lines@).skip(1), header_direction(views(lines@)[0]));
        lemma_flowchart_edge_order(views(lines@).skip(1), header_direction(views(lines@)[0]));
    }
    let header_parts = words_exec(&lines[0]);
    let direction = if header_parts.len() > 1 {
        let kw = from_chars(&header_parts[1]);
        let upper = to_uppercase(kw.as_str());
        proof {
            assert(views(header_parts@)[1] == header_parts@[1]@);
        }
        direction_from_keyword(upper.as_str())
    } else {
        Direction::TopToBottom
    };
    proof {
        assert(views(lines@)[0] == lines@[0]@);
    }
    let body = slice_vecs(lines, 1);
    flowchart_body(&body, direction)
}


// ---------------------------------------------------------------------------
// Sequence diagrams
// ---------------------------------------------------------------------------

pub struct SeqState {
    pub participants: Seq<Seq<char>>,
    pub items: Seq<SpecSequenceItem>,
}

/// The participants with `name` added at the end, unless it is there already.
pub open spec fn with_participant(ps: Seq<Seq<char>>, name: Seq<char>) -> Seq<Seq<char>> {
    if ps.contains(name) {
        ps
    } else {
        ps.push(name)
    }
}

pub open spec fn with_participants(ps: Seq<Seq<char>>, names: Seq<Seq<char>>) -> Seq<Seq<char>>
    decreases names.len(),
{
    if names.len() == 0 {
        ps
    } else {
        with_participant(with_participants(ps, names.drop_last()), names.last())
    }
}

pub open spec fn kw_participant() -> Seq<char> {
    seq!['p', 'a', 'r', 't', 'i', 'c', 'i', 'p', 'a', 'n', 't']
}

pub open spec fn kw_note() -> Seq<char> {
    seq!['N', 'o', 't', 'e']
}

pub open spec fn kw_over() -> Seq<char> {
    seq!['o', 'v', 'e', 'r', ' ']
}

pub open spec fn kw_right_of() -> Seq<char> {
    seq!['r', 'i', 'g', 'h', 't', ' ', 'o', 'f', ' ']
}

pub open spec fn kw_loop() -> Seq<char> {
    seq!['l', 'o', 'o', 'p']
}

pub open spec fn kw_end() -> Seq<char> {
    seq!['e', 'n', 'd']
}

pub open spec fn kw_alt() -> Seq<char> {
    seq!['a', 'l', 't']
}

pub open spec fn kw_else() -> Seq<char> {
    seq!['e', 'l', 's', 'e']
}

pub open spec fn arrow_async() -> Seq<char> {
    seq!['-', '>', '>']
}

pub open spec fn arrow_sync() -> Seq<char> {
    seq!['-', '>']
}

pub open spec fn arrow_async_reply() -> Seq<char> {
    seq!['-', '-', '>', '>']
}

pub open spec fn arrow_sync_reply() -> Seq<char> {
    seq!['-', '-', '>']
}

/// The text before the first `:` and the trimmed text after it (empty
/// without a `:`).
pub open spec fn colon_split(t: Seq<char>) -> (Seq<char>, Seq<char>) {
    match find_char(t, ':') {
        Some(i) => (t.take(i), trim(t.skip(i + 1))),
        None => (t, seq![]),
    }
}

/// The participants a note's prefix (after `Note`) names.
pub open spec fn note_targets(prefix: Seq<char>) -> Seq<Seq<char>> {
    if starts_with(prefix, kw_over()) {
        split_char(trim(strip_prefixes(prefix, kw_over())), ',').map_values(|x: Seq<char>| trim(x))
    } else if starts_with(prefix, kw_right_of()) {
        seq![trim(strip_prefixes(prefix, kw_right_of()))]
    } else {
        seq![]
    }
}

/// The arrow a message line uses: the first of `-->>`, `->>`, `-->` that
/// occurs, else `->`.
pub open spec fn message_arrow(t: Seq<char>) -> Seq<char> {
    if contains(t, arrow_async_reply()) {
        arrow_async_reply()
    } else if contains(t, arrow_async()) {
        arrow_async()
    } else if contains(t, arrow_sync_reply()) {
        arrow_sync_reply()
    } else {
        arrow_sync()
    }
}

/// The effect of one sequence-diagram line.
pub open spec fn seq_line(st: SeqState, line: Seq<char>) -> SeqState {
    let t = trim(line);
    if starts_with(t, kw_participant().push(' ')) {
        let name = trim(strip_prefixes(t, kw_participant()));
        SeqState { participants: with_participant(st.participants, name), items: st.items }
    } else if starts_with(t, kw_note().push(' ')) {
        let (head, text) = colon_split(t);
        let over = note_targets(trim(strip_prefixes(head, kw_note())));
        SeqState {
            participants: with_participants(st.participants, over),
            items: st.items.push(SpecSequenceItem::Note { over, text }),
        }
    } else if starts_with(t, kw_loop()) {
        SeqState {
            participants: st.participants,
            items: st.items.push(SpecSequenceItem::LoopStart { label: trim(strip_prefixes(t, kw_loop())) }),
        }
    } else if t == kw_end() {
        SeqState { participants: st.participants, items: st.items.push(SpecSequenceItem::LoopEnd) }
    } else if starts_with(t, kw_alt()) {
        SeqState {
            participants: st.participants,
            items: st.items.push(SpecSequenceItem::AltStart { label: trim(strip_prefixes(t, kw_alt())) }),
        }
    } else if starts_with(t, kw_else()) {
        SeqState {
            participants: st.participants,
            items: st.items.push(SpecSequenceItem::AltElse { label: trim(strip_prefixes(t, kw_else())) }),
        }
    } else if contains(t, arrow_async()) || contains(t, arrow_sync()) || contains(t, arrow_async_reply())
        || contains(t, arrow_sync_reply()) {
        let arrow = message_arrow(t);
        match split_once_only(t, arrow) {
            Some((a, b)) => {
                let from = trim(a);
                let right = trim(b);
                let (to0, label) = colon_split(right);
                let to = if find_char(right, ':') is Some { trim(to0) } else { to0 };
                SeqState {
                    participants: with_participant(with_participant(st.participants, from), to),
                    items: st.items.push(
                        SpecSequenceItem::Message(SpecMessage { from, to, label, arrow }),
                    ),
                }
            },
            None => st,
        }
    } else {
        st
    }
}

pub open spec fn seq_lines(st: SeqState, lines: Seq<Seq<char>>) -> SeqState
    decreases lines.len(),
{
    if lines.len() == 0 {
        st
    } else {
        seq_line(seq_lines(st, lines.drop_last()), lines.last())
    }
}

/// The sequence diagram that diagram lines (header first) describe.
pub open spec fn spec_sequence(lines: Seq<Seq<char>>) -> SpecSequenceDiagram {
    let st = seq_lines(SeqState { participants: seq![], items: seq![] }, lines.skip(1));
    SpecSequenceDiagram { participants: st.participants, items: st.items }
}

fn contains_string(v: &Vec<String>, x: &Vec<char>) -> (r: bool)
    ensures
        r == strings_view(v@).contains(x@),
{
    let xs = from_chars(x);
    let mut i: usize = 0;
    while i < v.len()
        invariant
            i <= v.len(),
            xs@ == x@,
            forall|j: int| 0 <= j < i ==> v@[j]@ != x@,
        decreases v.len() - i,
    {
        if v[i] == xs {
            proof {
                assert(strings_view(v@)[i as int] == x@);
            }
            return true;
        }
        i = i + 1;
    }
    proof {
        if strings_view(v@).contains(x@) {
            let j = choose|j: int| 0 <= j < strings_view(v@).len() && strings_view(v@)[j] == x@;
            assert(v@[j]@ == x@);
        }
    }
    false
}

fn add_participant(ps: &mut Vec<String>, name: &Vec<char>)
    ensures
        strings_view(final(ps)@) == with_participant(strings_view(old(ps)@), name@),
{
    if !contains_string(ps, name) {
        let s = from_chars(name);
        let ghost before = strings_view(ps@);
        ps.push(s);
        proof {
            assert(strings_view(ps@) =~= before.push(name@));
        }
    }
}

fn colon_split_exec(t: &Vec<char>) -> (r: (Vec<char>, Vec<char>, bool))
    ensures
        r.0@ == colon_split(t@).0,
        r.1@ == colon_split(t@).1,
        r.2 == (find_char(t@, ':') is Some),
{
    match find_char_exec(t, ':') {
        Some(i) => {
            proof {
                lemma_find_char(t@, ':');
                assert(t@.subrange(0, i as int) =~= t@.take(i as int));
                assert(t@.subrange(i + 1, t@.len() as int) =~= t@.skip(i + 1));
            }
            let tl = t.len();
            (slice_of(t, 0, i), trim_chars(&slice_of(t, i + 1, tl)), true)
        },
        None => {
            proof {
                assert(t@.subrange(0, t@.len() as int) =~= t@);
            }
            (slice_of(t, 0, t.len()), Vec::new(), false)
        },
    }
}

fn note_targets_exec(prefix: &Vec<char>) -> (r: Vec<Vec<char>>)
    ensures
        views(r@) == note_targets(prefix@),
{
    let over = vec!['o', 'v', 'e', 'r', ' '];
    let right = vec!['r', 'i', 'g', 'h', 't', ' ', 'o', 'f', ' '];
    if starts_with_exec(prefix, &over) {
        let targets = trim_chars(&strip_prefixes_exec(prefix, &over));
        let pieces = split_char_exec(&targets, ',');
        let mut out: Vec<Vec<char>> = Vec::new();
        let mut i: usize = 0;
        while i < pieces.len()
            invariant
                i <= pieces.len(),
                views(out@) == views(pieces@).take(i as int).map_values(|x: Seq<char>| trim(x)),
            decreases pieces.len() - i,
        {
            let x = trim_chars(&pieces[i]);
            let ghost before = views(out@);
            out.push(x);
            proof {
                assert(views(out@) =~= before.push(x@));
                assert(views(out@) =~= views(pieces@).take(i + 1).map_values(|x: Seq<char>| trim(x)));
            }
            i = i + 1;
        }
        proof {
            assert(views(pieces@).take(pieces.len() as int) =~= views(pieces@));
        }
        out
    } else if starts_with_exec(prefix, &right) {
        let name = trim_chars(&strip_prefixes_exec(prefix, &right));
        let mut out: Vec<Vec<char>> = Vec::new();
        out.push(name);
        proof {
            assert(views(out@) =~= seq![name@]);
        }
        out
    } else {
        let out: Vec<Vec<char>> = Vec::new();
        proof {
            assert(views(out@) =~= Seq::<Seq<char>>::empty());
        }
        out
    }
}

fn message_arrow_exec(t: &Vec<char>) -> (r: Vec<char>)
    ensures
        r@ == message_arrow(t@),
{
    let a1 = vec!['-', '-', '>', '>'];
    let a2 = vec!['-', '>', '>'];
    let a3 = vec!['-', '-', '>'];
    if contains_exec(t, &a1) {
        a1
    } else if contains_exec(t, &a2) {
        a2
    } else if contains_exec(t, &a3) {
        a3
    } else {
        vec!['-', '>']
    }
}

fn labelled_item(kind: u8, label: Vec<char>) -> (r: SequenceItem)
    ensures
        kind == 0 ==> r@ == (SpecSequenceItem::LoopStart { label: label@ }),
        kind == 1 ==> r@ == (SpecSequenceItem::AltStart { label: label@ }),
        kind >= 2 ==> r@ == (SpecSequenceItem::AltElse { label: label@ }),
{
    let l = from_chars(&label);
    if kind == 0 {
        SequenceItem::LoopStart { label: l }
    } else if kind == 1 {
        SequenceItem::AltStart { label: l }
    } else {
        SequenceItem::AltElse { label: l }
    }
}

fn push_item(items: &mut Vec<SequenceItem>, it: SequenceItem)
    ensures
        items_view(final(items)@) == items_view(old(items)@).push(it@),
{
    let ghost before = items_view(items@);
    items.push(it);
    proof {
        assert(items_view(items@) =~= before.push(it@));
    }
}

fn to_strings(v: &Vec<Vec<char>>) -> (r: Vec<String>)
    ensures
        strings_view(r@) == views(v@),
{
    let mut r: Vec<String> = Vec::new();
    let mut i: usize = 0;
    while i < v.len()
        invariant
            i <= v.len(),
            strings_view(r@) == views(v@).take(i as int),
        decreases v.len() - i,
    {
        let s = from_chars(&v[i]);
        let ghost before = strings_view(r@);
        r.push(s);
        proof {
            assert(strings_view(r@) =~= before.push(s@));
            assert(views(v@)[i as int] == v@[i as int]@);
            assert(strings_view(r@) =~= views(v@).take(i + 1));
        }
        i = i + 1;
    }
    proof {
        assert(views(v@).take(v.len() as int) =~= views(v@));
    }
    r
}

fn seq_line_exec(ps: &mut Vec<String>, items: &mut Vec<SequenceItem>, line: &Vec<char>)
    ensures
        ({
            let st = seq_line(
                SeqState { participants: strings_view(old(ps)@), items: items_view(old(items)@) },
                line@,
            );
            &&& strings_view(final(ps)@) == st.participants
            &&& items_view(final(items)@) == st.items
        }),
{
    let t = trim_chars(line);
    let kw_p = vec!['p', 'a', 'r', 't', 'i', 'c', 'i', 'p', 'a', 'n', 't'];
    let kw_p_sp = vec!['p', 'a', 'r', 't', 'i', 'c', 'i', 'p', 'a', 'n', 't', ' '];
    let kw_n = vec!['N', 'o', 't', 'e'];
    let kw_n_sp = vec!['N', 'o', 't', 'e', ' '];
    let kw_l = vec!['l', 'o', 'o', 'p'];
    let kw_e = vec!['e', 'n', 'd'];
    let kw_a = vec!['a', 'l', 't'];
    let kw_el = vec!['e', 'l', 's', 'e'];
    proof {
        assert(kw_p_sp@ =~= kw_participant().push(' '));
        assert(kw_n_sp@ =~= kw_note().push(' '));
    }
    if starts_with_exec(&t, &kw_p_sp) {
        let name = trim_chars(&strip_prefixes_exec(&t, &kw_p));
        add_participant(ps, &name);
    } else if starts_with_exec(&t, &kw_n_sp) {
        let (head, text, _) = colon_split_exec(&t);
        let prefix = trim_chars(&strip_prefixes_exec(&head, &kw_n));
        let over = note_targets_exec(&prefix);
        let mut k: usize = 0;
        let ghost ps0 = strings_view(ps@);
        while k < over.len()
            invariant
                k <= over.len(),
                strings_view(ps@) == with_participants(ps0, views(over@).take(k as int)),
            decreases over.len() - k,
        {
            proof {
                assert(views(over@).take(k + 1).drop_last() =~= views(over@).take(k as int));
            }
            add_participant(ps, &over[k]);
            k = k + 1;
        }
        proof {
            assert(views(over@).take(over.len() as int) =~= views(over@));
        }
        let over_s = to_strings(&over);
        push_item(items, SequenceItem::Note { over: over_s, text: from_chars(&text) });
    } else if starts_with_exec(&t, &kw_l) {
        let label = trim_chars(&strip_prefixes_exec(&t, &kw_l));
        push_item(items, labelled_item(0, label));
    } else if chars_eq(&t, &kw_e) {
        push_item(items, SequenceItem::LoopEnd);
    } else if starts_with_exec(&t, &kw_a) {
        let label = trim_chars(&strip_prefixes_exec(&t, &kw_a));
        push_item(items, labelled_item(1, label));
    } else if starts_with_exec(&t, &kw_el) {
        let label = trim_chars(&strip_prefixes_exec(&t, &kw_el));
        push_item(items, labelled_item(2, label));
    } else if contains_exec(&t, &vec!['-', '>', '>']) || contains_exec(&t, &vec!['-', '>'])
        || contains_exec(&t, &vec!['-', '-', '>', '>']) || contains_exec(&t, &vec!['-', '-', '>']) {
        let arrow = message_arrow_exec(&t);
        match split_once_only_exec(&t, &arrow) {
            Some((a, b)) => {
                let from = trim_chars(&a);
                let right = trim_chars(&b);
                let (to0, label, found) = colon_split_exec(&right);
                let to = if found {
                    trim_chars(&to0)
                } else {
                    to0
                };
                add_participant(ps, &from);
                add_participant(ps, &to);
                let msg = SequenceMessage {
                    from: from_chars(&from),
                    to: from_chars(&to),
                    label: from_chars(&label),
                    arrow: from_chars(&arrow),
                };
                push_item(items, SequenceItem::Message(msg));
            },
            None => {},
        }
    }
}

/// Reads a sequence diagram from its lines, the header first.
pub fn parse_sequence(lines: &Vec<Vec<char>>) -> (r: SequenceDiagram)
    requires
        lines.len() > 0,
    ensures
        r@ == spec_sequence(views(lines@)),
        sequence_consistent(r@),
        r@.items == body_items(views(lines@).skip(1)),
        r@.participants == with_participants(seq![], body_names(views(lines@).skip(1))),
{
    proof {
        lemma_sequence_consistent(views(lines@));
        lemma_sequence_order(views(lines@));
    }
    let mut participants: Vec<String> = Vec::new();
    let mut items: Vec<SequenceItem> = Vec::new();
    let ghost body = views(lines@).skip(1);
    let mut i: usize = 1;
    proof {
        assert(strings_view(participants@) =~= seq![]);
        assert(items_view(items@) =~= seq![]);
        assert(body.take(0) =~= seq![]);
    }
    while i < lines.len()
        invariant
            1 <= i <= lines.len(),
            body == views(lines@).skip(1),
            ({
                let st = seq_lines(SeqState { participants: seq![], items: seq![] }, body.take(i - 1));
                &&& strings_view(participants@) == st.participants
                &&& items_view(items@) == st.items
            }),
        decreases lines.len() - i,
    {
        proof {
            assert(body.take(i as int).drop_last() =~= body.take(i - 1));
            assert(body.take(i as int).last() == lines@[i as int]@);
        }
        seq_line_exec(&mut participants, &mut items, &lines[i]);
        i = i + 1;
    }
    proof {
        assert(body.take(lines.len() - 1) =~= body);
    }
    SequenceDiagram { participants, items }
}


// ---------------------------------------------------------------------------
// Class diagrams
// ---------------------------------------------------------------------------

pub struct ClassState {
    pub classes: Seq<SpecClassItem>,
    pub relations: Seq<SpecClassRelation>,
    pub current: Option<Seq<char>>,
}

pub open spec fn has_class(cs: Seq<SpecClassItem>, name: Seq<char>) -> bool {
    exists|i: int| 0 <= i < cs.len() && (#[trigger] cs[i]).name == name
}

/// The classes with an empty class `name` added, unless one is there already.
pub open spec fn with_class(cs: Seq<SpecClassItem>, name: Seq<char>) -> Seq<SpecClassItem> {
    if has_class(cs, name) {
        cs
    } else {
        cs.push(SpecClassItem { name, members: seq![] })
    }
}

/// The first index from `k` on of a class called `name`.
pub open spec fn class_index_from(cs: Seq<SpecClassItem>, name: Seq<char>, k: int) -> Option<int>
    decreases cs.len() - k,
{
    if k < 0 || k >= cs.len() {
        None
    } else if cs[k].name == name {
        Some(k)
    } else {
        class_index_from(cs, name, k + 1)
    }
}

/// The classes with `m` added to the members of the class called `name`.
pub open spec fn with_member(cs: Seq<SpecClassItem>, name: Seq<char>, m: SpecClassMember) -> Seq<
    SpecClassItem,
> {
    match class_index_from(cs, name, 0) {
        Some(i) => cs.update(i, SpecClassItem { name: cs[i].name, members: cs[i].members.push(m) }),
        None => cs,
    }
}

pub open spec fn is_vis_mark(c: char) -> bool {
    c == '+' || c == '-' || c == '#' || c == '~'
}

/// `s` with its leading visibility marks removed.
pub open spec fn strip_vis_marks(s: Seq<char>) -> Seq<char>
    decreases s.len(),
{
    if s.len() > 0 && is_vis_mark(s[0]) {
        strip_vis_marks(s.drop_first())
    } else {
        s
    }
}

/// Where the `)` closing a bracket stands, scanning from `k` with `depth`
/// brackets open: each `(` opens one more, each `)` closes one.
pub open spec fn closing_paren(s: Seq<char>, k: int, depth: int) -> Option<int>
    decreases s.len() - k,
{
    if k < 0 || k >= s.len() {
        None
    } else if s[k] == '(' {
        closing_paren(s, k + 1, depth + 1)
    } else if s[k] == ')' {
        if depth <= 1 {
            Some(k)
        } else {
            closing_paren(s, k + 1, depth - 1)
        }
    } else {
        closing_paren(s, k + 1, depth)
    }
}

/// A member's text (marks and blanks removed) split into its type and its
/// name. A method (`save() bool`, `run(x)`) is named up to the `)` that
/// closes its first `(`, and the trimmed rest is its return type; an
/// attribute (`UUID id`) is its type, a blank, then its name.
pub open spec fn member_parts(ms: Seq<char>) -> (Seq<char>, Seq<char>) {
    match find_char(ms, '(') {
        Some(o) => match closing_paren(ms, o + 1, 1) {
            Some(c) => (trim(ms.skip(c + 1)), ms.take(c + 1)),
            None => (seq![], ms),
        },
        None => match find_char(ms, ' ') {
            Some(i) => (ms.take(i), ms.skip(i + 1)),
            None => (seq![], ms),
        },
    }
}

/// A member line of a class body: `+type name`, `-method(args) type`.
pub open spec fn member_of(t: Seq<char>) -> SpecClassMember {
    let ms = trim(strip_vis_marks(t));
    let (ty, name) = member_parts(ms);
    SpecClassMember {
        visibility: if t.len() > 0 && is_vis_mark(t[0]) {
            t[0]
        } else {
            '+'
        },
        name,
        member_type: ty,
        is_method: find_char(t, '(') is Some,
    }
}

pub open spec fn rel_inherit() -> Seq<char> {
    seq!['<', '|', '-', '-']
}

pub open spec fn rel_compose() -> Seq<char> {
    seq!['*', '-', '-']
}

pub open spec fn rel_aggregate() -> Seq<char> {
    seq!['o', '-', '-']
}

pub open spec fn rel_associate() -> Seq<char> {
    seq!['-', '-', '>']
}

/// The relation symbol a relation line uses: the first of `<|--`, `*--`,
/// `o--` that occurs, else `-->`.
pub open spec fn relation_symbol(t: Seq<char>) -> Seq<char> {
    if contains(t, rel_inherit()) {
        rel_inherit()
    } else if contains(t, rel_compose()) {
        rel_compose()
    } else if contains(t, rel_aggregate()) {
        rel_aggregate()
    } else {
        rel_associate()
    }
}

pub open spec fn kw_class() -> Seq<char> {
    seq!['c', 'l', 'a', 's', 's', ' ']
}

/// The effect of one class-diagram line.
pub open spec fn class_line(st: ClassState, line: Seq<char>) -> ClassState {
    let t = trim(line);
    if starts_with(t, kw_class()) {
        if find_char(t, '{') is Some {
            let name = trim(strip_suffix_chars(strip_prefixes(t, kw_class()), '{'));
            ClassState {
                classes: with_class(st.classes, name),
                relations: st.relations,
                current: Some(name),
            }
        } else {
            let name = trim(strip_prefixes(t, kw_class()));
            ClassState {
                classes: with_class(st.classes, name),
                relations: st.relations,
                current: st.current,
            }
        }
    } else if t == seq!['}'] {
        ClassState { classes: st.classes, relations: st.relations, current: None }
    } else if st.current is Some {
        ClassState {
            classes: with_member(st.classes, st.current->0, member_of(t)),
            relations: st.relations,
            current: st.current,
        }
    } else if contains(t, rel_inherit()) || contains(t, rel_compose()) || contains(t, rel_aggregate())
        || contains(t, rel_associate()) {
        let sym = relation_symbol(t);
        match split_once_only(t, sym) {
            Some((a, b)) => {
                let from = trim(a);
                let right = trim(b);
                let (to, label) = match find_char(right, ':') {
                    Some(i) => (trim(right.take(i)), Some(trim(right.skip(i + 1)))),
                    None => (right, None),
                };
                ClassState {
                    classes: with_class(with_class(st.classes, from), to),
                    relations: st.relations.push(
                        SpecClassRelation { from, to, relation_type: sym, label },
                    ),
                    current: st.current,
                }
            },
            None => st,
        }
    } else {
        st
    }
}

pub open spec fn class_lines(st: ClassState, lines: Seq<Seq<char>>) -> ClassState
    decreases lines.len(),
{
    if lines.len() == 0 {
        st
    } else {
        class_line(class_lines(st, lines.drop_last()), lines.last())
    }
}

/// The class diagram that diagram lines (header first) describe.
pub open spec fn spec_class_diagram(lines: Seq<Seq<char>>) -> SpecClassDiagram {
    let st = class_lines(ClassState { classes: seq![], relations: seq![], current: None }, lines.skip(1));
    SpecClassDiagram { classes: st.classes, relations: st.relations }
}

fn class_index(cs: &Vec<ClassItem>, name: &Vec<char>) -> (r: Option<usize>)
    ensures
        r matches Some(i) ==> class_index_from(classes_view(cs@), name@, 0) == Some(i as int)
            && i < cs.len() && cs@[i as int].name@ == name@,
        r is None ==> class_index_from(classes_view(cs@), name@, 0) is None && !has_class(
            classes_view(cs@),
            name@,
        ),
{
    let ns = from_chars(name);
    let mut i: usize = 0;
    while i < cs.len()
        invariant
            i <= cs.len(),
            ns@ == name@,
            class_index_from(classes_view(cs@), name@, 0) == class_index_from(
                classes_view(cs@),
                name@,
                i as int,
            ),
            forall|j: int| 0 <= j < i ==> cs@[j].name@ != name@,
        decreases cs.len() - i,
    {
        proof {
            assert(classes_view(cs@)[i as int].name == cs@[i as int].name@);
        }
        if cs[i].name == ns {
            return Some(i);
        }
        i = i + 1;
    }
    proof {
        if has_class(classes_view(cs@), name@) {
            let j = choose|j: int| 0 <= j < classes_view(cs@).len() && (#[trigger] classes_view(cs@)[j]).name == name@;
            assert(cs@[j].name@ == name@);
        }
    }
    None
}

fn add_class(cs: &mut Vec<ClassItem>, name: &Vec<char>)
    ensures
        classes_view(final(cs)@) == with_class(classes_view(old(cs)@), name@),
{
    match class_index(cs, name) {
        Some(i) => {
            proof {
                assert(classes_view(cs@)[i as int].name == name@);
            }
        },
        None => {
            let c = ClassItem { name: from_chars(name), members: Vec::new() };
            let ghost before = classes_view(cs@);
            cs.push(c);
            proof {
                assert(members_view(c.members@) =~= seq![]);
                assert(classes_view(cs@) =~= before.push(c@));
            }
        },
    }
}

fn add_member(cs: &mut Vec<ClassItem>, name: &Vec<char>, m: ClassMember)
    ensures
        classes_view(final(cs)@) == with_member(classes_view(old(cs)@), name@, m@),
{
    match class_index(cs, name) {
        Some(i) => {
            let ghost before = classes_view(cs@);
            let mut c = cs.remove(i);
            let ghost mem0 = members_view(c.members@);
            c.members.push(m);
            proof {
                assert(members_view(c.members@) =~= mem0.push(m@));
            }
            cs.insert(i, c);
            proof {
                assert(classes_view(cs@) =~= before.update(
                    i as int,
                    SpecClassItem { name: before[i as int].name, members: before[i as int].members.push(m@) },
                ));
            }
        },
        None => {},
    }
}

fn strip_vis_marks_exec(s: &Vec<char>) -> (r: Vec<char>)
    ensures
        r@ == strip_vis_marks(s@),
{
    let mut i: usize = 0;
    assert(s@.skip(0) =~= s@);
    while i < s.len() && (s[i] == '+' || s[i] == '-' || s[i] == '#' || s[i] == '~')
        invariant
            i <= s.len(),
            strip_vis_marks(s@) == strip_vis_marks(s@.skip(i as int)),
        decreases s.len() - i,
    {
        assert(s@.skip(i as int).drop_first() =~= s@.skip(i + 1));
        i = i + 1;
    }
    let sl = s.len();
    proof {
        assert(s@.subrange(i as int, sl as int) =~= s@.skip(i as int));
    }
    slice_of(s, i, sl)
}

/// The index of the `)` closing the first `(` of `ms`, found.
fn closing_paren_exec(ms: &Vec<char>, o: usize) -> (r: Option<usize>)
    requires
        o < ms.len(),
    ensures
        r matches Some(c) ==> closing_paren(ms@, o + 1, 1) == Some(c as int) && o < c < ms.len(),
        r is None ==> closing_paren(ms@, o + 1, 1) is None,
{
    let mut k: usize = o + 1;
    let mut depth: usize = 1;
    while k < ms.len()
        invariant
            o < k <= ms.len(),
            1 <= depth <= k,
            closing_paren(ms@, o + 1, 1) == closing_paren(ms@, k as int, depth as int),
        decreases ms.len() - k,
    {
        if ms[k] == '(' {
            depth = depth + 1;
        } else if ms[k] == ')' {
            if depth <= 1 {
                return Some(k);
            }
            depth = depth - 1;
        }
        k = k + 1;
    }
    None
}

/// A member's text split into its type and its name, computed.
fn member_parts_exec(ms: &Vec<char>) -> (r: (Vec<char>, Vec<char>))
    ensures
        r.0@ == member_parts(ms@).0,
        r.1@ == member_parts(ms@).1,
{
    let ml = ms.len();
    match find_char_exec(ms, '(') {
        Some(o) => {
            proof {
                lemma_find_char(ms@, '(');
            }
            match closing_paren_exec(ms, o) {
                Some(c) => {
                    let rest = slice_of(ms, c + 1, ml);
                    proof {
                        assert(ms@.subrange(c + 1, ml as int) =~= ms@.skip(c + 1));
                        assert(ms@.subrange(0, c + 1) =~= ms@.take(c + 1));
                    }
                    (trim_chars(&rest), slice_of(ms, 0, c + 1))
                },
                None => (Vec::new(), slice_of(ms, 0, ml)),
            }
        },
        None => match find_char_exec(ms, ' ') {
            Some(i) => {
                proof {
                    lemma_find_char(ms@, ' ');
                    assert(ms@.subrange(0, i as int) =~= ms@.take(i as int));
                    assert(ms@.subrange(i + 1, ml as int) =~= ms@.skip(i + 1));
                }
                (slice_of(ms, 0, i), slice_of(ms, i + 1, ml))
            },
            None => (Vec::new(), slice_of(ms, 0, ml)),
        },
    }
}

fn member_of_exec(t: &Vec<char>) -> (r: ClassMember)
    ensures
        r@ == member_of(t@),
{
    let is_method = find_char_exec(t, '(').is_some();
    let vis = if t.len() > 0 && (t[0] == '+' || t[0] == '-' || t[0] == '#' || t[0] == '~') {
        t[0]
    } else {
        '+'
    };
    let ms = trim_chars(&strip_vis_marks_exec(t));
    let (ty, name) = member_parts_exec(&ms);
    ClassMember {
        visibility: vis,
        name: from_chars(&name),
        member_type: from_chars(&ty),
        is_method,
    }
}

fn relation_symbol_exec(t: &Vec<char>) -> (r: Vec<char>)
    ensures
        r@ == relation_symbol(t@),
{
    let a1 = vec!['<', '|', '-', '-'];
    let a2 = vec!['*', '-', '-'];
    let a3 = vec!['o', '-', '-'];
    if contains_exec(t, &a1) {
        a1
    } else if contains_exec(t, &a2) {
        a2
    } else if contains_exec(t, &a3) {
        a3
    } else {
        vec!['-', '-', '>']
    }
}

fn close_brace() -> (r: Vec<char>)
    ensures
        r@ == seq!['}'],
{
    vec!['}']
}

fn class_line_exec(
    cs: &mut Vec<ClassItem>,
    rels: &mut Vec<ClassRelation>,
    current: &mut Option<Vec<char>>,
    line: &Vec<char>,
)
    ensures
        ({
            let st = class_line(
                ClassState {
                    classes: classes_view(old(cs)@),
                    relations: relations_view(old(rels)@),
                    current: opt_chars(*old(current)),
                },
                line@,
            );
            &&& classes_view(final(cs)@) == st.classes
            &&& relations_view(final(rels)@) == st.relations
            &&& opt_chars(*final(current)) == st.current
        }),
{
    let t = trim_chars(line);
    let kw = vec!['c', 'l', 'a', 's', 's', ' '];
    let ghost st0 = ClassState {
        classes: classes_view(cs@),
        relations: relations_view(rels@),
        current: opt_chars(*current),
    };
    if starts_with_exec(&t, &kw) {
        if find_char_exec(&t, '{').is_some() {
            let name = trim_chars(&strip_suffix_chars_exec(&strip_prefixes_exec(&t, &kw), '{'));
            add_class(cs, &name);
            *current = Some(name);
        } else {
            let name = trim_chars(&strip_prefixes_exec(&t, &kw));
            add_class(cs, &name);
        }
    } else if chars_eq(&t, &close_brace()) {
        *current = None;
    } else if current.is_some() {
        let cn = match current {
            Some(c) => slice_of(c, 0, c.len()),
            None => Vec::new(),
        };
        proof {
            assert(cn@ =~= opt_chars(*current)->0);
        }
        add_member(cs, &cn, member_of_exec(&t));
    } else if contains_exec(&t, &vec!['<', '|', '-', '-']) || contains_exec(&t, &vec!['*', '-', '-'])
        || contains_exec(&t, &vec!['o', '-', '-']) || contains_exec(&t, &vec!['-', '-', '>']) {
        let sym = relation_symbol_exec(&t);
        match split_once_only_exec(&t, &sym) {
            Some((a, b)) => {
                let from = trim_chars(&a);
                let right = trim_chars(&b);
                let (to, label) = match find_char_exec(&right, ':') {
                    Some(i) => {
                        proof {
                            lemma_find_char(right@, ':');
                            assert(right@.subrange(0, i as int) =~= right@.take(i as int));
                            assert(right@.subrange(i + 1, right@.len() as int) =~= right@.skip(i + 1));
                        }
                        let rl = right.len();
                        (
                            trim_chars(&slice_of(&right, 0, i)),
                            Some(from_chars(&trim_chars(&slice_of(&right, i + 1, rl)))),
                        )
                    },
                    None => (right, None),
                };
                add_class(cs, &from);
                add_class(cs, &to);
                let rel = ClassRelation {
                    from: from_chars(&from),
                    to: from_chars(&to),
                    relation_type: from_chars(&sym),
                    label,
                };
                let ghost before = relations_view(rels@);
                rels.push(rel);
                proof {
                    assert(relations_view(rels@) =~= before.push(rel@));
                }
            },
            None => {},
        }
    }
}

/// Reads a class diagram from its lines, the header first.
pub fn parse_class_diagram(lines: &Vec<Vec<char>>) -> (r: ClassDiagram)
    requires
        lines.len() > 0,
    ensures
        r@ == spec_class_diagram(views(lines@)),
        class_consistent(r@),
        r@.relations == body_relations(views(lines@).skip(1)),
        forall|n: Seq<char>| #[trigger] class_members(r@.classes, n) == body_members(views(lines@).skip(1), n),
{
    proof {
        lemma_class_consistent(views(lines@));
        assert forall|n: Seq<char>| #[trigger] class_members(spec_class_diagram(views(lines@)).classes, n) == body_members(
            views(lines@).skip(1),
            n,
        ) by {
            lemma_class_order(views(lines@), n);
        }
        lemma_class_order(views(lines@), seq![]);
    }
    let mut classes: Vec<ClassItem> = Vec::new();
    let mut relations: Vec<ClassRelation> = Vec::new();
    let mut current: Option<Vec<char>> = None;
    let ghost body = views(lines@).skip(1);
    let mut i: usize = 1;
    proof {
        assert(classes_view(classes@) =~= seq![]);
        assert(relations_view(relations@) =~= seq![]);
        assert(body.take(0) =~= seq![]);
    }
    while i < lines.len()
        invariant
            1 <= i <= lines.len(),
            body == views(lines@).skip(1),
            ({
                let st = class_lines(
                    ClassState { classes: seq![], relations: seq![], current: None },
                    body.take(i - 1),
                );
                &&& classes_view(classes@) == st.classes
                &&& relations_view(relations@) == st.relations
                &&& opt_chars(current) == st.current
            }),
        decreases lines.len() - i,
    {
        proof {
            assert(body.take(i as int).drop_last() =~= body.take(i - 1));
            assert(body.take(i as int).last() == lines@[i as int]@);
        }
        class_line_exec(&mut classes, &mut relations, &mut current, &lines[i]);
        i = i + 1;
    }
    proof {
        assert(body.take(lines.len() - 1) =~= body);
    }
    ClassDiagram { classes, relations }
}


// ---------------------------------------------------------------------------
// Whole diagrams
// ---------------------------------------------------------------------------

/// The diagram lines of a text: its lines trimmed, without blank lines and
/// `%%` comments.
pub open spec fn kept_lines(ls: Seq<Seq<char>>) -> Seq<Seq<char>>
    decreases ls.len(),
{
    if ls.len() == 0 {
        seq![]
    } else {
        let prev = kept_lines(ls.drop_last());
        let l = trim(ls.last());
        if l.len() > 0 && !starts_with(l, seq!['%', '%']) {
            prev.push(l)
        } else {
            prev
        }
    }
}

pub open spec fn diagram_lines(input: Seq<char>) -> Seq<Seq<char>> {
    kept_lines(lines_of(input))
}

fn diagram_lines_exec(input: &Vec<char>) -> (r: Vec<Vec<char>>)
    ensures
        views(r@) == diagram_lines(input@),
{
    let ls = lines_exec(input);
    let mut out: Vec<Vec<char>> = Vec::new();
    let mut i: usize = 0;
    let cc = vec!['%', '%'];
    proof {
        assert(cc@ =~= seq!['%', '%']);
        assert(views(out@) =~= seq![]);
    }
    while i < ls.len()
        invariant
            i <= ls.len(),
            cc@ == seq!['%', '%'],
            views(out@) == kept_lines(views(ls@).take(i as int)),
        decreases ls.len() - i,
    {
        proof {
            assert(views(ls@).take(i + 1).drop_last() =~= views(ls@).take(i as int));
            assert(views(ls@).take(i + 1).last() == ls@[i as int]@);
        }
        let l = trim_chars(&ls[i]);
        if l.len() > 0 && !starts_with_exec(&l, &cc) {
            proof {
                lemma_views_push(out@, l);
            }
            out.push(l);
        }
        i = i + 1;
    }
    proof {
        assert(views(ls@).take(ls.len() as int) =~= views(ls@));
    }
    out
}

/// The kinds of diagram a header line can announce.
#[derive(Debug, Clone, Copy, PartialEq, Eq, Structural)]
pub enum DiagramKind {
    Flowchart,
    Sequence,
    Class,
}

pub open spec fn kw_graph() -> Seq<char> {
    seq!['g', 'r', 'a', 'p', 'h']
}

pub open spec fn kw_flowchart() -> Seq<char> {
    seq!['f', 'l', 'o', 'w', 'c', 'h', 'a', 'r', 't']
}

pub open spec fn kw_sequence() -> Seq<char> {
    seq!['s', 'e', 'q', 'u', 'e', 'n', 'c', 'e', 'd', 'i', 'a', 'g', 'r', 'a', 'm']
}

pub open spec fn kw_class_diagram() -> Seq<char> {
    seq!['c', 'l', 'a', 's', 's', 'd', 'i', 'a', 'g', 'r', 'a', 'm']
}

/// The kind of diagram a lower-cased header line announces.
pub open spec fn kind_of_header(lower: Seq<char>) -> Option<DiagramKind> {
    if starts_with(lower, kw_graph()) || starts_with(lower, kw_flowchart()) {
        Some(DiagramKind::Flowchart)
    } else if starts_with(lower, kw_sequence()) {
        Some(DiagramKind::Sequence)
    } else if starts_with(lower, kw_class_diagram()) {
        Some(DiagramKind::Class)
    } else {
        None
    }
}

/// The kind of diagram for a lower-cased header line.
pub fn classify_header(lower: &str) -> (r: Option<DiagramKind>)
    ensures
        r == kind_of_header(lower@),
{
    let h = to_chars(lower);
    if starts_with_exec(&h, &vec!['g', 'r', 'a', 'p', 'h']) || starts_with_exec(
        &h,
        &vec!['f', 'l', 'o', 'w', 'c', 'h', 'a', 'r', 't'],
    ) {
        Some(DiagramKind::Flowchart)
    } else if starts_with_exec(
        &h,
        &vec!['s', 'e', 'q', 'u', 'e', 'n', 'c', 'e', 'd', 'i', 'a', 'g', 'r', 'a', 'm'],
    ) {
        Some(DiagramKind::Sequence)
    } else if starts_with_exec(&h, &vec!['c', 'l', 'a', 's', 's', 'd', 'i', 'a', 'g', 'r', 'a', 'm']) {
        Some(DiagramKind::Class)
    } else {
        None
    }
}

/// What `parse_mermaid` gives for a text: `Empty input` without diagram
/// lines, the diagram its header announces, or `Unsupported diagram header:`
/// followed by the header line.
pub open spec fn spec_parse(input: Seq<char>) -> Result<SpecDiagram, Seq<char>> {
    let ls = diagram_lines(input);
    if ls.len() == 0 {
        Err("Empty input"@)
    } else {
        match kind_of_header(lowercase_of(ls[0])) {
            Some(DiagramKind::Flowchart) => Ok(SpecDiagram::Flowchart(spec_flowchart(ls))),
            Some(DiagramKind::Sequence) => Ok(SpecDiagram::Sequence(spec_sequence(ls))),
            Some(DiagramKind::Class) => Ok(SpecDiagram::Class(spec_class_diagram(ls))),
            None => Err("Unsupported diagram header: "@ + ls[0]),
        }
    }
}

/// Whether a line is left out of the diagram lines: blank, or a `%%`
/// comment once trimmed.
pub open spec fn is_ignored_line(l: Seq<char>) -> bool {
    trim(l).len() == 0 || starts_with(trim(l), seq!['%', '%'])
}

proof fn lemma_kept_insert(ls: Seq<Seq<char>>, k: int, x: Seq<char>)
    requires
        0 <= k <= ls.len(),
        is_ignored_line(x),
    ensures
        kept_lines(ls.insert(k, x)) == kept_lines(ls),
    decreases ls.len(),
{
    let li = ls.insert(k, x);
    if k == ls.len() {
        assert(li.drop_last() =~= ls);
        assert(li.last() == x);
    } else {
        lemma_kept_insert(ls.drop_last(), k, x);
        assert(li.drop_last() =~= ls.drop_last().insert(k, x));
        assert(li.last() == ls.last());
    }
}

proof fn lemma_kept_update(ls: Seq<Seq<char>>, k: int, y: Seq<char>)
    requires
        0 <= k < ls.len(),
        trim(y) == trim(ls[k]),
    ensures
        kept_lines(ls.update(k, y)) == kept_lines(ls),
    decreases ls.len(),
{
    let lu = ls.update(k, y);
    if k == ls.len() - 1 {
        assert(lu.drop_last() =~= ls.drop_last());
    } else {
        lemma_kept_update(ls.drop_last(), k, y);
        assert(lu.drop_last() =~= ls.drop_last().update(k, y));
        assert(lu.last() == ls.last());
    }
}

/// A blank line or a `%%` comment line added anywhere changes neither what a
/// text parses to nor whether parsing it aborts.
pub proof fn lemma_parse_ignores_blank_and_comment_lines(a: Seq<char>, b: Seq<char>, k: int, x: Seq<char>)
    requires
        0 <= k <= lines_of(a).len(),
        lines_of(b) == lines_of(a).insert(k, x),
        is_ignored_line(x),
    ensures
        spec_parse(b) == spec_parse(a),
        parse_panics(b) == parse_panics(a),
{
    lemma_kept_insert(lines_of(a), k, x);
}

/// Blanks added or removed around a line change neither what a text parses
/// to nor whether parsing it aborts.
pub proof fn lemma_parse_ignores_surrounding_blanks(a: Seq<char>, b: Seq<char>, k: int, y: Seq<char>)
    requires
        0 <= k < lines_of(a).len(),
        lines_of(b) == lines_of(a).update(k, y),
        trim(y) == trim(lines_of(a)[k]),
    ensures
        spec_parse(b) == spec_parse(a),
        parse_panics(b) == parse_panics(a),
{
    lemma_kept_update(lines_of(a), k, y);
}

/// The lines a text's parse depends on: those neither blank nor `%%`
/// comments, in order, each trimmed.
pub open spec fn significant_lines(ls: Seq<Seq<char>>) -> Seq<Seq<char>> {
    ls.filter(|l: Seq<char>| !is_ignored_line(l)).map_values(|l: Seq<char>| trim(l))
}

proof fn lemma_kept_is_significant(ls: Seq<Seq<char>>)
    ensures
        kept_lines(ls) == significant_lines(ls),
    decreases ls.len(),
{
    if ls.len() > 0 {
        let p = |l: Seq<char>| !is_ignored_line(l);
        let f = |l: Seq<char>| trim(l);
        lemma_kept_is_significant(ls.drop_last());
        let sub = ls.drop_last().filter(p);
        reveal_with_fuel(Seq::<_>::filter, 1);
        if p(ls.last()) {
            assert(ls.filter(p) == sub.push(ls.last()));
            assert(sub.push(ls.last()).map_values(f) =~= sub.map_values(f).push(f(ls.last())));
        } else {
            assert(ls.filter(p) == sub);
        }
    }
}

/// Two texts whose significant lines agree parse alike, and parsing one
/// aborts exactly when parsing the other does: blank lines and `%%` comment
/// lines may be added or removed anywhere, and blanks around any line
/// changed.
pub proof fn lemma_parse_depends_on_significant_lines(a: Seq<char>, b: Seq<char>)
    requires
        significant_lines(lines_of(a)) == significant_lines(lines_of(b)),
    ensures
        spec_parse(b) == spec_parse(a),
        parse_panics(b) == parse_panics(a),
{
    lemma_kept_is_significant(lines_of(a));
    lemma_kept_is_significant(lines_of(b));
}

/// Whether parsing a text would slice a node text out of order (only
/// flowcharts read node texts).
pub open spec fn parse_panics(input: Seq<char>) -> bool {
    let ls = diagram_lines(input);
    &&& ls.len() > 0
    &&& kind_of_header(lowercase_of(ls[0])) == Some(DiagramKind::Flowchart)
    &&& flow_body_panics(ls.skip(1))
}

/// Parses Mermaid source text into a diagram.
pub fn parse_mermaid(input: &str) -> (r: Result<ParsedDiagram, String>)
    requires
        !parse_panics(input@),
    ensures
        (match r {
            Ok(d) => spec_parse(input@) == Ok::<SpecDiagram, Seq<char>>(d@),
            Err(e) => spec_parse(input@) == Err::<SpecDiagram, Seq<char>>(e@),
        }),
        r matches Ok(d) ==> diagram_consistent(d@),
{
    proof {
        lemma_parsed_diagram_consistent(input@);
    }
    let chars = to_chars(input);
    let lines = diagram_lines_exec(&chars);
    if lines.len() == 0 {
        return Err("Empty input".to_owned());
    }
    proof {
        assert(views(lines@)[0] == lines@[0]@);
    }
    let header = from_chars(&lines[0]);
    let lower = to_lowercase(header.as_str());
    match classify_header(lower.as_str()) {
        Some(DiagramKind::Flowchart) => Ok(ParsedDiagram::Flowchart(parse_flowchart(&lines))),
        Some(DiagramKind::Sequence) => Ok(ParsedDiagram::Sequence(parse_sequence(&lines))),
        Some(DiagramKind::Class) => Ok(ParsedDiagram::Class(parse_class_diagram(&lines))),
        None => {
            let mut msg = "Unsupported diagram header: ".to_owned();
            msg.append(header.as_str());
            Err(msg)
        },
    }
}

fn node_ref_panics_exec(s0: &Vec<char>) -> (b: bool)
    ensures
        b == node_ref_panics(s0@),
{
    let s = trim_chars(s0);
    match first_shape_exec(&s) {
        Some((k, a, b)) => {
            let w = shape_open_exec(k).len();
            b < a || b - a < w
        },
        None => false,
    }
}

fn flow_line_panics_exec(line: &Vec<char>) -> (b: bool)
    ensures
        b == flow_line_panics(line@),
{
    let t = trim_chars(line);
    let kw = vec!['s', 't', 'y', 'l', 'e', ' '];
    proof {
        assert(kw@ =~= style_kw());
    }
    if starts_with_exec(&t, &kw) {
        return false;
    }
    let links = parse_flowchart_line_chains(&t);
    proof {
        lemma_trim_idempotent(line@);
    }
    if links.len() > 0 {
        let mut i: usize = 0;
        while i < links.len()
            invariant
                i <= links.len(),
                links_view(links@) == edge_chain(trim(line@)),
                !starts_with(trim(line@), style_kw()),
                forall|j: int|
                    0 <= j < i ==> !node_ref_panics((#[trigger] links_view(links@)[j]).from)
                        && !node_ref_panics(links_view(links@)[j].to),
            decreases links.len() - i,
        {
            proof {
                assert(links_view(links@)[i as int] == link_view(links@[i as int]));
            }
            if node_ref_panics_exec(&links[i].from) || node_ref_panics_exec(&links[i].to) {
                proof {
                    let lv = links_view(links@);
                    assert(node_ref_panics(lv[i as int].from) || node_ref_panics(lv[i as int].to));
                }
                return true;
            }
            i = i + 1;
        }
        false
    } else {
        node_ref_panics_exec(&t)
    }
}

/// Whether `parse_mermaid` would slice a node text out of order on this text
/// (the one way its reading can fail abruptly).
pub fn parse_would_panic(input: &str) -> (b: bool)
    ensures
        b == parse_panics(input@),
{
    let chars = to_chars(input);
    let lines = diagram_lines_exec(&chars);
    if lines.len() == 0 {
        return false;
    }
    proof {
        assert(views(lines@)[0] == lines@[0]@);
    }
    let header = from_chars(&lines[0]);
    let lower = to_lowercase(header.as_str());
    match classify_header(lower.as_str()) {
        Some(DiagramKind::Flowchart) => {
            let mut i: usize = 1;
            while i < lines.len()
                invariant
                    1 <= i <= lines.len(),
                    views(lines@) == diagram_lines(input@),
                    kind_of_header(lowercase_of(views(lines@)[0])) == Some(DiagramKind::Flowchart),
                    forall|j: int| 0 <= j < i - 1 ==> !flow_line_panics(#[trigger] views(lines@).skip(1)[j]),
                decreases lines.len() - i,
            {
                proof {
                    assert(views(lines@).skip(1)[i - 1] == lines@[i as int]@);
                }
                if flow_line_panics_exec(&lines[i]) {
                    proof {
                        assert(flow_line_panics(views(lines@).skip(1)[i - 1]));
                    }
                    return true;
                }
                i = i + 1;
            }
            false
        },
        _ => false,
    }
}

} // verus!
