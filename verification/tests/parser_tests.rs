use mermaid_term::parser::{
    parse_mermaid, parse_would_panic, Direction, EdgeType, NodeShape, ParsedDiagram, SequenceItem,
};

fn flowchart(src: &str) -> mermaid_term::parser::Flowchart {
    match parse_mermaid(src) {
        Ok(ParsedDiagram::Flowchart(fc)) => fc,
        other => panic!("not a flowchart: {:?}", other),
    }
}

#[test]
fn empty_input_is_refused() {
    assert_eq!(parse_mermaid("").unwrap_err(), "Empty input");
    assert_eq!(parse_mermaid("  \n\t\n%% only a comment\n").unwrap_err(), "Empty input");
}

#[test]
fn unknown_header_is_refused() {
    assert_eq!(parse_mermaid("pie\n  \"a\" : 1").unwrap_err(), "Unsupported diagram header: pie");
    assert_eq!(
        parse_mermaid("  %% note\n  gantt chart  \n").unwrap_err(),
        "Unsupported diagram header: gantt chart"
    );
}

#[test]
fn flowchart_shapes_labels_and_edges() {
    let fc = flowchart("graph LR\n    A[Start] --> B{Check}\n    B -.->|yes| C((Done))\n");
    assert_eq!(fc.direction, Direction::LeftToRight);
    assert_eq!(fc.nodes.len(), 3);
    assert_eq!(fc.nodes[0].id, "A");
    assert_eq!(fc.nodes[0].label, "Start");
    assert_eq!(fc.nodes[0].shape, NodeShape::Rectangle);
    assert_eq!(fc.nodes[1].id, "B");
    assert_eq!(fc.nodes[1].label, "Check");
    assert_eq!(fc.nodes[1].shape, NodeShape::Diamond);
    assert_eq!(fc.nodes[2].id, "C");
    assert_eq!(fc.nodes[2].label, "Done");
    assert_eq!(fc.nodes[2].shape, NodeShape::Circle);
    assert_eq!(fc.edges.len(), 2);
    assert_eq!(fc.edges[0].from, "A");
    assert_eq!(fc.edges[0].to, "B");
    assert_eq!(fc.edges[0].label, None);
    assert_eq!(fc.edges[0].edge_type, EdgeType::SolidArrow);
    assert_eq!(fc.edges[1].from, "B");
    assert_eq!(fc.edges[1].to, "C");
    assert_eq!(fc.edges[1].label, Some("yes".to_string()));
    assert_eq!(fc.edges[1].edge_type, EdgeType::DottedArrow);
}

#[test]
fn flowchart_other_shapes_and_chains() {
    let fc = flowchart("flowchart TD\nDB[(Store)] ==> R(Round) --- X\n");
    assert_eq!(fc.direction, Direction::TopToBottom);
    assert_eq!(fc.nodes.len(), 3);
    assert_eq!(fc.nodes[0].shape, NodeShape::Cylinder);
    assert_eq!(fc.nodes[0].label, "Store");
    assert_eq!(fc.nodes[1].shape, NodeShape::Rounded);
    assert_eq!(fc.nodes[1].label, "Round");
    assert_eq!(fc.nodes[2].id, "X");
    assert_eq!(fc.nodes[2].label, "X");
    assert_eq!(fc.edges.len(), 2);
    assert_eq!(fc.edges[0].edge_type, EdgeType::ThickArrow);
    assert_eq!(fc.edges[1].from, "R");
    assert_eq!(fc.edges[1].to, "X");
    assert_eq!(fc.edges[1].edge_type, EdgeType::SolidLine);
}

#[test]
fn flowchart_directions() {
    assert_eq!(flowchart("graph RL\nA").direction, Direction::RightToLeft);
    assert_eq!(flowchart("graph bt\nA").direction, Direction::BottomToTop);
    assert_eq!(flowchart("graph lr\nA").direction, Direction::LeftToRight);
    assert_eq!(flowchart("graph\nA").direction, Direction::TopToBottom);
    assert_eq!(flowchart("Flowchart TB\nA").direction, Direction::TopToBottom);
}

#[test]
fn first_mention_keeps_the_label() {
    let fc = flowchart("graph TD\nA[One] --> B\nA[Two] --> C\nB[Late]\n");
    assert_eq!(fc.nodes.len(), 3);
    assert_eq!(fc.nodes[0].label, "One");
    assert_eq!(fc.nodes[1].label, "B");
    assert_eq!(fc.edges.len(), 2);
}

#[test]
fn style_directives_apply_to_existing_nodes() {
    let fc = flowchart(
        "graph LR\nA --> B\nstyle A fill:#f9f,stroke:red\nstyle A color:blue\nstyle Z stroke:green\n",
    );
    let a = &fc.nodes[0];
    let st = a.style.as_ref().unwrap();
    // The last directive for a node wins, as a whole.
    assert_eq!(st.fill, None);
    assert_eq!(st.stroke, None);
    assert_eq!(st.color, Some("blue".to_string()));
    assert!(fc.nodes[1].style.is_none());
    assert_eq!(fc.nodes.len(), 2);
}

#[test]
fn style_properties() {
    let fc = flowchart("graph TD\nN\nstyle N fill:#f9f, stroke : #333 ,stroke-width:4px,color:#fff\n");
    let st = fc.nodes[0].style.as_ref().unwrap();
    assert_eq!(st.fill, Some("#f9f".to_string()));
    assert_eq!(st.stroke, Some("#333".to_string()));
    assert_eq!(st.color, Some("#fff".to_string()));
}

#[test]
fn sequence_diagram_items() {
    let src = "sequenceDiagram\n  participant Alice\n  Alice->>Bob: Hello\n  Bob-->>Alice: Hi\n  Note over Alice,Bob: chat\n  loop Every minute\n  end\n  alt ok\n  else fail\n  end\n";
    let d = match parse_mermaid(src) {
        Ok(ParsedDiagram::Sequence(d)) => d,
        other => panic!("not a sequence diagram: {:?}", other),
    };
    assert_eq!(d.participants, vec!["Alice".to_string(), "Bob".to_string()]);
    assert_eq!(d.items.len(), 8);
    match &d.items[0] {
        SequenceItem::Message(m) => {
            assert_eq!(m.from, "Alice");
            assert_eq!(m.to, "Bob");
            assert_eq!(m.label, "Hello");
            assert_eq!(m.arrow, "->>");
        },
        other => panic!("{:?}", other),
    }
    match &d.items[1] {
        SequenceItem::Message(m) => {
            assert_eq!(m.from, "Bob");
            assert_eq!(m.to, "Alice");
            assert_eq!(m.label, "Hi");
            assert_eq!(m.arrow, "-->>");
        },
        other => panic!("{:?}", other),
    }
    match &d.items[2] {
        SequenceItem::Note { over, text } => {
            assert_eq!(over, &vec!["Alice".to_string(), "Bob".to_string()]);
            assert_eq!(text, "chat");
        },
        other => panic!("{:?}", other),
    }
    assert!(matches!(&d.items[3], SequenceItem::LoopStart { label } if label == "Every minute"));
    assert!(matches!(&d.items[4], SequenceItem::LoopEnd));
    assert!(matches!(&d.items[5], SequenceItem::AltStart { label } if label == "ok"));
    assert!(matches!(&d.items[6], SequenceItem::AltElse { label } if label == "fail"));
    assert!(matches!(&d.items[7], SequenceItem::LoopEnd));
}

#[test]
fn sequence_notes_add_participants() {
    let d = match parse_mermaid("sequenceDiagram\nNote right of Carol: hm\nA->B\nA-->B: x:y\n") {
        Ok(ParsedDiagram::Sequence(d)) => d,
        other => panic!("{:?}", other),
    };
    assert_eq!(d.participants, vec!["Carol".to_string(), "A".to_string(), "B".to_string()]);
    match &d.items[1] {
        SequenceItem::Message(m) => {
            assert_eq!(m.arrow, "->");
            assert_eq!(m.label, "");
        },
        other => panic!("{:?}", other),
    }
    match &d.items[2] {
        SequenceItem::Message(m) => {
            assert_eq!(m.arrow, "-->");
            assert_eq!(m.to, "B");
            assert_eq!(m.label, "x:y");
        },
        other => panic!("{:?}", other),
    }
}

#[test]
fn class_diagram_members_and_relations() {
    let src = "classDiagram\n  class Animal {\n    +String name\n    -eat()\n  }\n  Animal <|-- Dog : extends\n  Dog *-- Tail\n";
    let d = match parse_mermaid(src) {
        Ok(ParsedDiagram::Class(d)) => d,
        other => panic!("not a class diagram: {:?}", other),
    };
    assert_eq!(d.classes.len(), 3);
    assert_eq!(d.classes[0].name, "Animal");
    assert_eq!(d.classes[0].members.len(), 2);
    let m0 = &d.classes[0].members[0];
    assert_eq!(m0.visibility, '+');
    assert_eq!(m0.member_type, "String");
    assert_eq!(m0.name, "name");
    assert!(!m0.is_method);
    let m1 = &d.classes[0].members[1];
    assert_eq!(m1.visibility, '-');
    assert_eq!(m1.member_type, "");
    assert_eq!(m1.name, "eat()");
    assert!(m1.is_method);
    assert_eq!(d.classes[1].name, "Dog");
    assert_eq!(d.classes[2].name, "Tail");
    assert_eq!(d.relations.len(), 2);
    assert_eq!(d.relations[0].from, "Animal");
    assert_eq!(d.relations[0].to, "Dog");
    assert_eq!(d.relations[0].relation_type, "<|--");
    assert_eq!(d.relations[0].label, Some("extends".to_string()));
    assert_eq!(d.relations[1].relation_type, "*--");
    assert_eq!(d.relations[1].label, None);
}

#[test]
fn parse_would_panic_on_reversed_brackets() {
    assert!(parse_would_panic("graph TD\nA)x("));
    assert!(!parse_would_panic("graph TD\nA(x)"));
    assert!(!parse_would_panic("sequenceDiagram\nA)x("));
}

#[test]
fn parsed_names_are_unique_and_declared() {
    let fc = flowchart("graph TD\nA --> B\nB --> A\nA\nC --> A");
    let ids: Vec<&str> = fc.nodes.iter().map(|n| n.id.as_str()).collect();
    assert_eq!(ids, vec!["A", "B", "C"]);
    for e in &fc.edges {
        assert!(ids.contains(&e.from.as_str()) && ids.contains(&e.to.as_str()));
    }
    let d = match parse_mermaid("classDiagram\nclass A\nA --> B\nB o-- A\nclass B {\n+x\n}") {
        Ok(ParsedDiagram::Class(d)) => d,
        other => panic!("{:?}", other),
    };
    let names: Vec<&str> = d.classes.iter().map(|c| c.name.as_str()).collect();
    assert_eq!(names, vec!["A", "B"]);
    assert_eq!(d.classes[1].members.len(), 1);
    assert_eq!(d.relations[0].relation_type, "-->");
    assert_eq!(d.relations[1].relation_type, "o--");
}

#[test]
fn method_members_keep_their_name_and_return_type() {
    let src = "classDiagram\nclass DatabaseEntity {\n+save() bool\n+upgradeTier(PlanTier next) bool\n+UUID id\n-run(x)\n#f(g(x)) int\n~open(\n}";
    let d = match parse_mermaid(src) {
        Ok(ParsedDiagram::Class(d)) => d,
        other => panic!("{:?}", other),
    };
    let ms = &d.classes[0].members;
    assert_eq!(ms.len(), 6);
    assert_eq!((ms[0].name.as_str(), ms[0].member_type.as_str(), ms[0].is_method), ("save()", "bool", true));
    assert_eq!(ms[0].visibility, '+');
    assert_eq!(
        (ms[1].name.as_str(), ms[1].member_type.as_str()),
        ("upgradeTier(PlanTier next)", "bool")
    );
    assert_eq!((ms[2].name.as_str(), ms[2].member_type.as_str(), ms[2].is_method), ("id", "UUID", false));
    assert_eq!((ms[3].name.as_str(), ms[3].member_type.as_str(), ms[3].visibility), ("run(x)", "", '-'));
    assert_eq!((ms[4].name.as_str(), ms[4].member_type.as_str(), ms[4].visibility), ("f(g(x))", "int", '#'));
    // An unclosed bracket leaves the whole text as the name.
    assert_eq!((ms[5].name.as_str(), ms[5].member_type.as_str()), ("open(", ""));
}

#[test]
fn blank_and_comment_lines_and_indentation_change_nothing() {
    let a = "graph LR\nA --> B\nstyle A stroke:red";
    let b = "\n   \ngraph LR\n%% a comment\n      A --> B   \n\n  %%another\n\tstyle A stroke:red\n";
    let ra = mermaid_term::viewer::render_diagram_str(a);
    let rb = mermaid_term::viewer::render_diagram_str(b);
    assert_eq!(ra, rb);
    assert_eq!(parse_mermaid("%% x\n\n").unwrap_err(), parse_mermaid("").unwrap_err());
}

#[test]
fn parsers_on_diagram_lines() {
    let lines: Vec<Vec<char>> = ["graph TD", "A --> B", "B --> A", "C"].iter().map(|l| l.chars().collect()).collect();
    let fc = mermaid_term::parser::parse_flowchart(&lines);
    assert_eq!(fc.nodes.len(), 3);
    assert_eq!(fc.edges.len(), 2);
    let lines: Vec<Vec<char>> = ["sequenceDiagram", "A->>B: x", "Note over C: y"].iter().map(|l| l.chars().collect()).collect();
    let sd = mermaid_term::parser::parse_sequence(&lines);
    assert_eq!(sd.participants, vec!["A".to_string(), "B".to_string(), "C".to_string()]);
    let lines: Vec<Vec<char>> = ["classDiagram", "class DatabaseEntity {", "+save() bool", "}"].iter().map(|l| l.chars().collect()).collect();
    let cd = mermaid_term::parser::parse_class_diagram(&lines);
    assert_eq!(cd.classes.len(), 1);
    assert_eq!(cd.classes[0].members[0].name, "save()");
    assert_eq!(cd.classes[0].members[0].member_type, "bool");
    assert!(cd.classes[0].members[0].is_method);
}

#[test]
fn parts_come_in_line_order() {
    let fc = flowchart("graph TD\nA --> B --> C\nstyle A fill:red\nD\nC -.-> A");
    let ends: Vec<(&str, &str)> = fc.edges.iter().map(|e| (e.from.as_str(), e.to.as_str())).collect();
    assert_eq!(ends, vec![("A", "B"), ("B", "C"), ("C", "A")]);
    let d = match parse_mermaid("sequenceDiagram\nNote over Z,Y: n\nparticipant X\nY->>X: hi\nW->Z") {
        Ok(ParsedDiagram::Sequence(d)) => d,
        other => panic!("{:?}", other),
    };
    assert_eq!(d.participants, vec!["Z", "Y", "X", "W"]);
    assert_eq!(d.items.len(), 3);
    let c = match parse_mermaid("classDiagram\nclass A {\n+int a\n}\nA --> B\nclass A {\n+int b\n}\nB --> A") {
        Ok(ParsedDiagram::Class(c)) => c,
        other => panic!("{:?}", other),
    };
    let names: Vec<&str> = c.classes[0].members.iter().map(|m| m.name.as_str()).collect();
    assert_eq!(names, vec!["a", "b"]);
    let rels: Vec<(&str, &str)> = c.relations.iter().map(|r| (r.from.as_str(), r.to.as_str())).collect();
    assert_eq!(rels, vec![("A", "B"), ("B", "A")]);
}
