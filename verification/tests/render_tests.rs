use mermaid_term::color::Ansi;
use mermaid_term::parser::parse_mermaid;
use mermaid_term::renderer::{render_ascii, try_render_ascii};
use mermaid_term::viewer::{render_diagram_str, try_render_diagram_str};

const C: &str = "\x1b[36m";
const R: &str = "\x1b[0m";
const B: &str = "\x1b[1m";

/// The three rows of an unstyled rectangle box.
fn rect(label: &str) -> Vec<String> {
    let w = label.chars().count();
    let bar = "─".repeat(w);
    vec![
        format!("{C}┌─{bar}─┐{R}"),
        format!("{C}│ {B}{label}{C} │{R}"),
        format!("{C}└─{bar}─┘{R}"),
    ]
}

fn render(src: &str) -> String {
    render_diagram_str(src).unwrap()
}

#[test]
fn empty_flowchart_renders_placeholder() {
    // A header alone gives a chart without nodes.
    assert_eq!(render("graph TD"), "Empty diagram");
    assert_eq!(render("graph LR\n%% nothing"), "Empty diagram");
}

#[test]
fn top_down_flowchart() {
    let out = render("graph TD\nA --> B");
    let a = rect("A");
    let b = rect("B");
    let expected = format!(
        "{}\n{}\n{}\n\x1b[34m     │\n     ▼{R}\n{}\n{}\n{}\n",
        a[0], a[1], a[2], b[0], b[1], b[2]
    );
    assert_eq!(out, expected);
}

#[test]
fn top_down_walk_visits_children_before_later_roots() {
    // Roots A and C; the walk pops the last root first.
    let out = render("graph TD\nA\nC\nA --> B");
    let a = rect("A");
    let b = rect("B");
    let c = rect("C");
    let expected = format!(
        "{}\n{}\n{}\n{}\n{}\n{}\n\x1b[34m     │\n     ▼{R}\n{}\n{}\n{}\n",
        c[0], c[1], c[2], a[0], a[1], a[2], b[0], b[1], b[2]
    );
    assert_eq!(out, expected);
}

#[test]
fn top_down_edge_labels_and_kinds() {
    let out = render("graph TD\nA -.->|maybe| B\nA ==> C\nA --- D");
    let a = rect("A");
    let mut expected = format!("{}\n{}\n{}\n", a[0], a[1], a[2]);
    expected.push_str(&format!("{}     │  {}maybe{R}\n", Ansi::DIM, Ansi::YELLOW));
    expected.push_str(&format!("{}     :\n     ▼{R}\n", Ansi::YELLOW));
    expected.push_str(&format!("{}     ║\n     ▼{R}\n", Ansi::BRIGHT_GREEN));
    expected.push_str(&format!("{}     │\n     │{R}\n", Ansi::DIM));
    // The walk then pops D, C, B (last pushed first).
    for id in ["D", "C", "B"] {
        let r = rect(id);
        expected.push_str(&format!("{}\n{}\n{}\n", r[0], r[1], r[2]));
    }
    assert_eq!(out, expected);
}

#[test]
fn left_right_flowchart() {
    let out = render("graph LR\nA[Hi] --> B");
    let a = rect("Hi");
    let b = rect("B");
    let arrow = format!("\x1b[34m ────────▶ {R}");
    let gap = "           ";
    let expected = format!(
        "{}{}{}\n{}{}{}\n{}{}{}\n",
        a[0], gap, b[0], a[1], arrow, b[1], a[2], gap, b[2]
    );
    assert_eq!(out, expected);
}

#[test]
fn left_right_without_edges_renders_nothing() {
    assert_eq!(render("graph LR\nA"), "");
}

#[test]
fn styled_node_colors() {
    let out = render("graph TD\nA\nstyle A stroke:red,color:#00ff00");
    let red = Ansi::RED;
    let green = "\x1b[38;2;0;255;0m";
    let expected = format!("{red}┌───┐{R}\n{red}│ {green}A{red} │{R}\n{red}└───┘{R}\n");
    assert_eq!(out, expected);
}

#[test]
fn node_shapes() {
    let out = render("graph TD\nX{Yes}");
    let expected = format!("{C}  ╱─────╲{R}\n{C} ⟨  {B}Yes{C}  ⟩{R}\n{C}  ╲─────╱{R}\n");
    assert_eq!(out, expected);
    let out = render("graph TD\nX((o))");
    let expected = format!("{C} (( ─ )){R}\n{C} (( {B}o{C} )){R}\n{C} (( ─ )){R}\n");
    assert_eq!(out, expected);
}

#[test]
fn sequence_rendering() {
    let out = render("sequenceDiagram\nA->>B: hi");
    let bar = "─".repeat(16);
    let boxes = format!("{C}┌{bar}┐{R} {C}┌{bar}┐{R} ");
    let line_a = format!("{C}│{}{B}A{R}{}│{C} ", " ".repeat(7), " ".repeat(8));
    let line_b = format!("{C}│{}{B}B{R}{}│{C} ", " ".repeat(7), " ".repeat(8));
    let bots = format!("{C}└{bar}┘{R} {C}└{bar}┘{R} ");
    let life = format!("{}│{}│{}", " ".repeat(9), " ".repeat(18), " ".repeat(9));
    let label = format!("{}│ hi{}│{}", " ".repeat(9), " ".repeat(15), " ".repeat(9));
    let arrow = format!("{}│{}▶{}", " ".repeat(9), "─".repeat(18), " ".repeat(9));
    let dim = Ansi::DIM;
    let expected = format!(
        "{boxes}\n{line_a}{line_b}\n{bots}\n{dim}{life}{R}\n\x1b[93m{label}{R}\n\x1b[32m{arrow}{R}\n{dim}{life}{R}\n"
    );
    assert_eq!(out, expected);
}

#[test]
fn sequence_leftward_message_and_blocks() {
    let out = render("sequenceDiagram\nparticipant A\nparticipant B\nB-->>A\nloop x\nend\nNote over A: n");
    assert!(out.contains(&format!("\x1b[32m{}◀{}│{}{R}\n", " ".repeat(9), "─".repeat(18), " ".repeat(9))));
    // 38 columns, less the label and 16.
    assert!(out.contains(&format!("\x1b[35m ╭── loop [\x1b[37mx\x1b[35m] {}╮{R}\n", "─".repeat(21))));
    assert!(out.contains(&format!("\x1b[35m ╰{}╯{R}\n", "─".repeat(34))));
    assert!(out.ends_with(&format!("\x1b[96m [Note: n]{R}\n")));
}

#[test]
fn sequence_without_participants() {
    assert_eq!(render("sequenceDiagram\nloop forever\nend"), "Empty sequence diagram");
}

#[test]
fn class_rendering() {
    let out = render("classDiagram\nclass A {\n+int x\n}");
    let y = Ansi::YELLOW;
    let w = Ansi::WHITE;
    let d = Ansi::DIM;
    let rule = "─".repeat(8);
    let expected = format!(
        "{C}┌{rule}┐{R}\n{C}│ {B}  A   {C} │{R}\n{C}├{rule}┤{R}\n{C}│ {y}+ {w}x: {d}int{C} │{R}\n{C}└{rule}┘{R}\n\n"
    );
    assert_eq!(out, expected);
}

#[test]
fn class_relations_and_padding() {
    let out = render("classDiagram\nclass LongName\nLongName o-- B : has");
    let g = Ansi::BRIGHT_GREEN;
    let d = Ansi::DIM;
    assert!(out.ends_with(&format!("{B}LongName {g}o--{B} B{d} : has\n")));
    // The name row centres "LongName" in 10 columns.
    assert!(out.contains(&format!("{C}│ {B} LongName {C} │{R}\n")));
    let m = "classDiagram\nclass K {\n+m()\n}";
    let out = render(m);
    // Width 7 = "K" + 4 < "m()" + 0 + 4; the method row pads 7 - 9 = 0.
    assert!(out.contains(&format!("{C}│ \x1b[32m+ \x1b[37mm(){C} │{R}\n")));
}

#[test]
fn render_errors_are_passed_on() {
    assert_eq!(render_diagram_str("").unwrap_err(), "Empty input");
    assert_eq!(render_diagram_str("journey\nx").unwrap_err(), "Unsupported diagram header: journey");
}

#[test]
fn try_render_refuses_what_would_abort() {
    assert_eq!(try_render_diagram_str("graph TD\nA)x("), None);
    assert_eq!(try_render_diagram_str("graph TD\nA\nstyle A stroke:#a\u{e9}234"), None);
    assert_eq!(try_render_diagram_str("graph TD"), Some(Ok("Empty diagram".to_string())));
    assert_eq!(try_render_diagram_str("nope"), Some(Err("Unsupported diagram header: nope".to_string())));
}

#[test]
fn render_ascii_matches_render_diagram_str() {
    let src = "graph LR\nA --> B --> C";
    let d = parse_mermaid(src).unwrap();
    assert_eq!(render_ascii(&d), render(src));
    assert_eq!(try_render_ascii(&d), Some(render(src)));
}

#[test]
fn left_right_edges_are_separated_by_a_blank_line() {
    let out = render("graph LR\nA ==>|go| B\nB --- C");
    let a = rect("A");
    let b = rect("B");
    let c = rect("C");
    let gap = "           ";
    let thick = format!("{} === {}go{} ==> {R}", Ansi::BRIGHT_GREEN, Ansi::WHITE, Ansi::BRIGHT_GREEN);
    let line = format!("{} ───────── {R}", Ansi::DIM);
    let expected = format!(
        "{}{gap}{}\n{}{thick}{}\n{}{gap}{}\n\n{}{gap}{}\n{}{line}{}\n{}{gap}{}\n",
        a[0], b[0], a[1], b[1], a[2], b[2], b[0], c[0], b[1], c[1], b[2], c[2]
    );
    assert_eq!(out, expected);
}

#[test]
fn top_down_cycle_draws_each_node_once() {
    let out = render("graph TD\nA --> B\nB --> A");
    let a = rect("A");
    let b = rect("B");
    let arrow = format!("\x1b[34m     │\n     ▼{R}\n");
    let expected = format!("{}\n{}\n{}\n{arrow}{}\n{}\n{}\n{arrow}", a[0], a[1], a[2], b[0], b[1], b[2]);
    assert_eq!(out, expected);
}

#[test]
fn method_rows_show_name_then_return_type() {
    let out = render("classDiagram\nclass E {\n+save() bool\n}");
    // Width: "save()" 6 + "bool" 4 + 4 = 14; the row pads 14 - 16 = 0.
    assert!(out.contains(&format!("{C}│ \x1b[32m+ \x1b[37msave(): \x1b[2mbool{C} │{R}\n")));
    assert!(out.starts_with(&format!("{C}┌{}┐{R}\n", "─".repeat(14))));
}
