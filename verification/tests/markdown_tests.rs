use mermaid_term::markdown::{assemble_markdown, extract_mermaid_blocks, mermaid_block_codes, transform_markdown, ExtractedBlock};

const DOC: &str = "# Title\n\n```mermaid\ngraph TD\n  A --> B\n```\n\nSome text.\n\n  ```mermaid  \n   \n```\n\n```rust\nfn main() {}\n```\n";

#[test]
fn extracts_non_blank_closed_fences() {
    let blocks = extract_mermaid_blocks(DOC);
    assert_eq!(blocks, vec!["graph TD\n  A --> B".to_string()]);
}

#[test]
fn block_codes_include_blank_fences() {
    let codes = mermaid_block_codes(DOC);
    assert_eq!(codes, vec!["graph TD\n  A --> B".to_string(), "   ".to_string()]);
}

#[test]
fn unclosed_fence_is_dropped() {
    assert!(extract_mermaid_blocks("```mermaid\ngraph TD\nA").is_empty());
    assert!(mermaid_block_codes("```mermaid\ngraph TD\nA").is_empty());
}

#[test]
fn reopening_fence_starts_afresh() {
    let blocks = extract_mermaid_blocks("```mermaid\nold\n```mermaid\nnew\n```\n");
    assert_eq!(blocks, vec!["new".to_string()]);
}

#[test]
fn crlf_lines_are_read_as_lines() {
    let blocks = extract_mermaid_blocks("```mermaid\r\ngraph LR\r\nA-->B\r\n```\r\n");
    assert_eq!(blocks, vec!["graph LR\nA-->B".to_string()]);
}

#[test]
fn transform_replaces_fences_with_renderings() {
    let out = transform_markdown(DOC, |code: &str| {
        if code.trim().is_empty() {
            Err("Empty input".to_string())
        } else {
            Ok(format!("<{}>  \n\n", code.len()))
        }
    });
    let expected = "# Title\n\n```text\n<18>\n```\n\nSome text.\n\n<!-- Mermaid render error: Empty input -->\n```mermaid\n   \n```\n\n```rust\nfn main() {}\n```";
    assert_eq!(out, expected);
}

#[test]
fn transform_without_fences_keeps_lines() {
    let mut calls = 0;
    let out = transform_markdown("a\r\nb\n\nc\n", |_c: &str| {
        calls += 1;
        Ok(String::new())
    });
    assert_eq!(out, "a\nb\n\nc");
    assert_eq!(calls, 0);
}

#[test]
fn transform_drops_an_unclosed_fence() {
    let out = transform_markdown("intro\n```mermaid\ngraph TD\nA", |_c: &str| Ok("x".to_string()));
    assert_eq!(out, "intro");
}

#[test]
fn assemble_uses_results_in_order() {
    let md = "```mermaid\none\n```\nmid\n```mermaid\ntwo\n```";
    let results = vec![Ok("R1\t".to_string()), Err("bad".to_string())];
    let out = assemble_markdown(md, &results);
    assert_eq!(
        out,
        "```text\nR1\n```\nmid\n<!-- Mermaid render error: bad -->\n```mermaid\ntwo\n```"
    );
}

#[test]
fn extracted_block_holds_its_fields() {
    let b = ExtractedBlock { content: "graph TD".to_string(), is_mermaid: true };
    assert!(b.is_mermaid);
    assert_eq!(b.content, "graph TD");
}

#[test]
fn renderer_is_called_once_per_closed_fence_in_order() {
    let mut seen: Vec<String> = Vec::new();
    let out = transform_markdown(DOC, |code: &str| {
        seen.push(code.to_string());
        Ok(format!("#{}", seen.len()))
    });
    assert_eq!(seen, vec!["graph TD\n  A --> B".to_string(), "   ".to_string()]);
    assert!(out.contains("```text\n#1\n```"));
    assert!(out.contains("```text\n#2\n```"));
}

const ARCH_DOC: &str = "# Architecture Document\n\nHere is our request flow:\n\n```mermaid\nsequenceDiagram\n    participant Browser\n    participant Gateway\n    participant Service\n    Browser->>Gateway: HTTP Request\n    Gateway->>Service: Forward RPC\n    Service-->>Gateway: Response Data\n    Gateway-->>Browser: HTTP 200 OK\n```\n\nAnd the worker pipeline:\n\n```mermaid\ngraph TD\n    A[Queue Job] --> B[Process Payload]\n    B --> C[Store Result]\n```\n";

#[test]
fn architecture_document_has_two_diagrams() {
    let blocks = extract_mermaid_blocks(ARCH_DOC);
    assert_eq!(blocks.len(), 2);
    assert!(blocks[0].starts_with("sequenceDiagram\n    participant Browser"));
    assert!(blocks[0].ends_with("Gateway-->>Browser: HTTP 200 OK"));
    assert_eq!(blocks[1], "graph TD\n    A[Queue Job] --> B[Process Payload]\n    B --> C[Store Result]");
    for b in &blocks {
        let r = mermaid_term::viewer::try_render_diagram_str(b);
        assert!(matches!(r, Some(Ok(_))));
    }
    let out = transform_markdown(ARCH_DOC, |code: &str| mermaid_term::viewer::try_render_diagram_str(code).unwrap());
    assert!(out.starts_with("# Architecture Document\n\nHere is our request flow:\n\n```text\n"));
    assert!(!out.contains("```mermaid"));
    assert_eq!(out.matches("```text").count(), 2);
}
