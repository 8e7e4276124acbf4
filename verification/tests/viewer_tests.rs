use mermaid_term::viewer::{should_reload, FileChange, block_report, render_diagram_str, Key, KeyAction, ReportLine, TuiApp};
use std::path::PathBuf;

#[test]
fn new_viewer_renders_the_document() {
    let app = TuiApp::new(None, "graph TD\nA --> B".to_string());
    assert_eq!(app.rendered_diagram(), &render_diagram_str("graph TD\nA --> B").unwrap());
    assert_eq!(app.error_msg(), None);
    assert_eq!(app.scroll_x(), 0);
    assert_eq!(app.scroll_y(), 0);
    assert_eq!(app.raw_content(), "graph TD\nA --> B");
    assert!(app.file_path().is_none());
}

#[test]
fn viewer_keeps_its_path() {
    let p = PathBuf::from("docs/diagram.mmd");
    let app = TuiApp::new(Some(p.clone()), "graph TD".to_string());
    assert_eq!(app.file_path(), &Some(p));
}

#[test]
fn markdown_document_shows_its_first_diagram() {
    let doc = "intro\n```mermaid\n\n```\n```mermaid\ngraph LR\nX --> Y\n```\n```mermaid\nsequenceDiagram\nA->B\n```";
    let app = TuiApp::new(None, doc.to_string());
    assert_eq!(app.rendered_diagram(), &render_diagram_str("graph LR\nX --> Y").unwrap());
}

#[test]
fn markdown_without_diagrams_is_parsed_whole() {
    let doc = "```mermaid\n   \n```";
    let app = TuiApp::new(None, doc.to_string());
    assert_eq!(app.error_msg(), Some("Unsupported diagram header: ```mermaid".to_string()));
    assert_eq!(app.rendered_diagram(), "");
}

#[test]
fn parse_error_keeps_the_last_rendering() {
    let mut app = TuiApp::new(None, "graph TD\nA".to_string());
    let before = app.rendered_diagram().clone();
    app.replace_content("pie".to_string());
    assert_eq!(app.error_msg(), Some("Unsupported diagram header: pie".to_string()));
    assert_eq!(app.rendered_diagram(), &before);
    app.replace_content("graph TD\nB".to_string());
    assert_eq!(app.error_msg(), None);
    assert_eq!(app.rendered_diagram(), &render_diagram_str("graph TD\nB").unwrap());
}

#[test]
fn recompute_twice_changes_nothing() {
    let mut app = TuiApp::new(None, "sequenceDiagram\nA->>B: x".to_string());
    let first = app.rendered_diagram().clone();
    app.recompute();
    assert_eq!(app.rendered_diagram(), &first);
    assert_eq!(app.error_msg(), None);
}

#[test]
fn pan_keys_move_and_saturate() {
    let mut app = TuiApp::new(None, "graph TD\nA".to_string());
    assert_eq!(app.handle_key(Key::Char('l'), false), KeyAction::Stay);
    assert_eq!(app.scroll_x(), 4);
    assert_eq!(app.handle_key(Key::Right, false), KeyAction::Stay);
    assert_eq!(app.scroll_x(), 8);
    app.handle_key(Key::Char('h'), false);
    assert_eq!(app.scroll_x(), 4);
    app.handle_key(Key::Left, false);
    app.handle_key(Key::Left, false);
    assert_eq!(app.scroll_x(), 0);
    app.handle_key(Key::Char('j'), false);
    app.handle_key(Key::Down, false);
    assert_eq!(app.scroll_y(), 4);
    app.handle_key(Key::Up, false);
    assert_eq!(app.scroll_y(), 2);
    app.handle_key(Key::Char('k'), false);
    app.handle_key(Key::Char('k'), false);
    assert_eq!(app.scroll_y(), 0);
    for _ in 0..20000 {
        app.handle_key(Key::Char('l'), false);
    }
    assert_eq!(app.scroll_x(), u16::MAX);
    app.handle_key(Key::Char('0'), false);
    assert_eq!((app.scroll_x(), app.scroll_y()), (0, 0));
}

#[test]
fn right_then_left_comes_back() {
    let mut app = TuiApp::new(None, "graph TD\nA".to_string());
    app.handle_key(Key::Char('j'), false);
    app.handle_key(Key::Char('l'), false);
    app.handle_key(Key::Char('l'), false);
    app.handle_key(Key::Char('h'), false);
    assert_eq!((app.scroll_x(), app.scroll_y()), (4, 2));
    app.handle_key(Key::Char('k'), false);
    assert_eq!((app.scroll_x(), app.scroll_y()), (4, 0));
}

#[test]
fn quit_and_reload_keys() {
    let mut app = TuiApp::new(None, "graph TD\nA".to_string());
    assert_eq!(app.handle_key(Key::Char('q'), false), KeyAction::Quit);
    assert_eq!(app.handle_key(Key::Char('q'), true), KeyAction::Quit);
    assert_eq!(app.handle_key(Key::Esc, false), KeyAction::Quit);
    assert_eq!(app.handle_key(Key::Char('c'), true), KeyAction::Quit);
    assert_eq!(app.handle_key(Key::Char('c'), false), KeyAction::Stay);
    assert_eq!(app.handle_key(Key::Char('r'), false), KeyAction::Reload);
    assert_eq!(app.handle_key(Key::Other, false), KeyAction::Stay);
    assert_eq!(app.handle_key(Key::Char('l'), true), KeyAction::Stay);
    assert_eq!(app.scroll_x(), 4);
}

#[test]
fn try_variants_refuse_what_would_abort() {
    assert!(TuiApp::try_new(None, "graph TD\nA)x(".to_string()).is_none());
    let mut app = TuiApp::try_new(None, "graph TD\nA".to_string()).unwrap();
    let before = app.rendered_diagram().clone();
    assert!(!app.try_replace_content("graph TD\nB)y(".to_string()));
    assert_eq!(app.raw_content(), "graph TD\nA");
    assert_eq!(app.rendered_diagram(), &before);
    assert!(app.try_replace_content("graph TD\nB".to_string()));
    assert_eq!(app.raw_content(), "graph TD\nB");
    assert!(app.try_recompute());
}

#[test]
fn screen_texts() {
    let mut app = TuiApp::new(None, "graph TD\nA".to_string());
    assert_eq!(app.error_text(), None);
    assert_eq!(app.position_label(), " (Pos: 0, 0) ");
    for _ in 0..3 {
        app.handle_key(Key::Char('l'), false);
    }
    app.handle_key(Key::Char('j'), false);
    assert_eq!(app.position_label(), " (Pos: 12, 2) ");
    for _ in 0..40000 {
        app.handle_key(Key::Down, false);
    }
    assert_eq!(app.position_label(), " (Pos: 12, 65535) ");
    app.replace_content("pie".to_string());
    assert_eq!(app.error_text(), Some("Diagram Parse Error:\nUnsupported diagram header: pie".to_string()));
}

#[test]
fn block_reports() {
    let ok = block_report(0, 1, "graph TD\nA").unwrap();
    assert_eq!(ok, vec![ReportLine::Stdout(render_diagram_str("graph TD\nA").unwrap())]);
    let two = block_report(11, 12, "pie").unwrap();
    assert_eq!(
        two,
        vec![
            ReportLine::Stdout("--- Diagram #12 ---".to_string()),
            ReportLine::Stderr("Diagram #12 Parse error: Unsupported diagram header: pie".to_string()),
        ]
    );
    assert_eq!(block_report(0, 2, "graph TD\nA)x("), None);
}

#[test]
fn reload_after_create_or_modify_only() {
    assert!(should_reload(FileChange::Created));
    assert!(should_reload(FileChange::Modified));
    assert!(!should_reload(FileChange::Other));
}
