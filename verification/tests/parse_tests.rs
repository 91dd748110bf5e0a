use structmd::parse::parse;

// ── Basic structure ──

#[test]
fn empty_document() {
    let doc = parse("");
    assert!(doc.nodes.is_empty());
}

#[test]
fn single_h1() {
    let doc = parse("# Title\n");
    assert_eq!(doc.nodes.len(), 1);
    assert_eq!(doc.nodes[0].heading.as_ref().unwrap().text, "Title");
    assert_eq!(doc.nodes[0].heading.as_ref().unwrap().line, 1);
    assert!(doc.nodes[0].sections.is_empty());
}

#[test]
fn multi_h1() {
    let doc = parse("# First\n\n## sec1\n\n# Second\n\n## sec2\n");
    assert_eq!(doc.nodes.len(), 2);
    assert_eq!(doc.nodes[0].heading.as_ref().unwrap().text, "First");
    assert_eq!(doc.nodes[0].sections.len(), 1);
    assert_eq!(doc.nodes[0].sections[0].heading.text, "sec1");
    assert_eq!(doc.nodes[1].heading.as_ref().unwrap().text, "Second");
    assert_eq!(doc.nodes[1].sections.len(), 1);
    assert_eq!(doc.nodes[1].sections[0].heading.text, "sec2");
}

#[test]
fn h2_before_any_h1() {
    let doc = parse("## orphan\n- key: value\n");
    assert_eq!(doc.nodes.len(), 1);
    assert!(doc.nodes[0].heading.is_none()); // implicit node
    assert_eq!(doc.nodes[0].sections.len(), 1);
    assert_eq!(doc.nodes[0].sections[0].heading.text, "orphan");
}

// ── H3 nesting ──

#[test]
fn h3_nests_under_h2() {
    let doc = parse("# Top\n\n## Parent\n\n### Child1\n- a: 1\n\n### Child2\n- b: 2\n");
    let parent = &doc.nodes[0].sections[0];
    assert_eq!(parent.heading.text, "Parent");
    assert_eq!(parent.children.len(), 2);
    assert_eq!(parent.children[0].heading.text, "Child1");
    assert_eq!(parent.children[1].heading.text, "Child2");
    assert_eq!(parent.children[0].properties[0].key, "a");
    assert_eq!(parent.children[1].properties[0].key, "b");
}

// ── Properties ──

#[test]
fn plain_property() {
    let doc = parse("# T\n## S\n- key: value\n");
    let props = &doc.nodes[0].sections[0].properties;
    assert_eq!(props.len(), 1);
    assert_eq!(props[0].key, "key");
    assert_eq!(props[0].value, "value");
    assert!(!props[0].bold);
}

#[test]
fn bold_property() {
    let doc = parse("# T\n## S\n- **server:** fetch\n");
    let props = &doc.nodes[0].sections[0].properties;
    assert_eq!(props.len(), 1);
    assert_eq!(props[0].key, "server");
    assert_eq!(props[0].value, "fetch");
    assert!(props[0].bold);
}

#[test]
fn label_property_no_value() {
    let doc = parse("# T\n## S\n- parameters:\n");
    let props = &doc.nodes[0].sections[0].properties;
    assert_eq!(props.len(), 1);
    assert_eq!(props[0].key, "parameters");
    assert_eq!(props[0].value, "");
}

#[test]
fn property_with_spaces_in_value() {
    let doc = parse("# T\n## S\n- cmd: echo hello world\n");
    let props = &doc.nodes[0].sections[0].properties;
    assert_eq!(props[0].value, "echo hello world");
}

#[test]
fn list_item_with_spaces_not_property() {
    // "- some text here" should not parse as a property (key has spaces)
    let doc = parse("# T\n## S\n- some text here\n");
    assert!(doc.nodes[0].sections[0].properties.is_empty());
}

// ── Prose ──

#[test]
fn prose_captured() {
    let doc = parse("# T\n## S\n\nThis is a description.\n\n- key: val\n");
    let sec = &doc.nodes[0].sections[0];
    assert_eq!(sec.prose.as_deref(), Some("This is a description."));
    assert_eq!(sec.prose_line, Some(4));
}

#[test]
fn no_prose() {
    let doc = parse("# T\n## S\n- key: val\n");
    assert!(doc.nodes[0].sections[0].prose.is_none());
}

#[test]
fn multiline_prose() {
    let doc = parse("# T\n## S\n\nLine one.\nLine two.\n\n- key: val\n");
    let sec = &doc.nodes[0].sections[0];
    assert_eq!(sec.prose.as_deref(), Some("Line one.\nLine two."));
}

#[test]
fn prose_stops_at_property() {
    let doc = parse("# T\n## S\nProse here.\n- key: val\nNot prose.\n");
    let sec = &doc.nodes[0].sections[0];
    assert_eq!(sec.prose.as_deref(), Some("Prose here."));
}

#[test]
fn prose_on_h1() {
    let doc = parse("# Title\n\nSome prose on the H1.\n\n## Section\n");
    assert_eq!(doc.nodes[0].prose.as_deref(), Some("Some prose on the H1."));
}

// ── Tables ──

#[test]
fn basic_table() {
    let input = "# T\n## S\n| a | b |\n|---|---|\n| 1 | 2 |\n| 3 | 4 |\n";
    let doc = parse(input);
    let table = doc.nodes[0].sections[0].table.as_ref().unwrap();
    assert_eq!(table.columns, vec!["a", "b"]);
    assert_eq!(table.rows.len(), 2);
    assert_eq!(table.rows[0].cells, vec!["1", "2"]);
    assert_eq!(table.rows[1].cells, vec!["3", "4"]);
}

#[test]
fn table_with_alignment_separators() {
    let input = "# T\n## S\n| a | b |\n|:--|--:|\n| 1 | 2 |\n";
    let doc = parse(input);
    let table = doc.nodes[0].sections[0].table.as_ref().unwrap();
    assert_eq!(table.columns, vec!["a", "b"]);
    assert_eq!(table.rows.len(), 1);
}

#[test]
fn no_table() {
    let doc = parse("# T\n## S\n- key: val\n");
    assert!(doc.nodes[0].sections[0].table.is_none());
}

// ── Code fence skipping ──

#[test]
fn headings_inside_code_fence_ignored() {
    let input = "# Real\n## Also Real\n```\n# Fake\n## Also Fake\n- fake: prop\n```\n";
    let doc = parse(input);
    assert_eq!(doc.nodes.len(), 1);
    assert_eq!(doc.nodes[0].heading.as_ref().unwrap().text, "Real");
    assert_eq!(doc.nodes[0].sections.len(), 1);
    assert_eq!(doc.nodes[0].sections[0].heading.text, "Also Real");
    assert!(doc.nodes[0].sections[0].properties.is_empty());
}

#[test]
fn table_inside_code_fence_ignored() {
    let input = "# T\n## S\n```\n| a | b |\n|---|---|\n| 1 | 2 |\n```\n";
    let doc = parse(input);
    assert!(doc.nodes[0].sections[0].table.is_none());
}

// ── Fenced code blocks as properties ──

#[test]
fn tagged_code_block_becomes_property() {
    let input = "# T\n## S\n```system_prompt\nYou are Weid.\nBe brief.\n```\n";
    let doc = parse(input);
    let props = &doc.nodes[0].sections[0].properties;
    assert_eq!(props.len(), 1);
    assert_eq!(props[0].key, "system_prompt");
    assert_eq!(props[0].value, "You are Weid.\nBe brief.");
    assert!(!props[0].bold);
}

#[test]
fn untagged_code_block_not_captured() {
    let input = "# T\n## S\n```\nsome code\n```\n";
    let doc = parse(input);
    assert!(doc.nodes[0].sections[0].properties.is_empty());
}

#[test]
fn code_block_preserves_blank_lines() {
    let input = "# T\n## S\n```prompt\nLine one.\n\nLine three.\n```\n";
    let doc = parse(input);
    let prop = &doc.nodes[0].sections[0].properties[0];
    assert_eq!(prop.value, "Line one.\n\nLine three.");
}

#[test]
fn code_block_preserves_markdown_inside() {
    let input = "# T\n## S\n```prompt\n# Not a heading\n- not: a property\n| not | a table |\n```\n";
    let doc = parse(input);
    let prop = &doc.nodes[0].sections[0].properties[0];
    assert!(prop.value.contains("# Not a heading"));
    assert!(prop.value.contains("- not: a property"));
    assert!(prop.value.contains("| not | a table |"));
    // Should not have parsed as actual structure
    assert_eq!(doc.nodes.len(), 1);
    assert_eq!(doc.nodes[0].sections[0].properties.len(), 1);
    assert!(doc.nodes[0].sections[0].table.is_none());
}

#[test]
fn multiple_code_blocks_on_same_section() {
    let input = "# T\n## S\n```greeting\nHello\n```\n```farewell\nGoodbye\n```\n";
    let doc = parse(input);
    let props = &doc.nodes[0].sections[0].properties;
    assert_eq!(props.len(), 2);
    assert_eq!(props[0].key, "greeting");
    assert_eq!(props[0].value, "Hello");
    assert_eq!(props[1].key, "farewell");
    assert_eq!(props[1].value, "Goodbye");
}

// ── Line numbers ──

#[test]
fn line_numbers_correct() {
    let input = "# Title\n\n## Section\n\n- key: val\n";
    let doc = parse(input);
    assert_eq!(doc.nodes[0].heading.as_ref().unwrap().line, 1);
    assert_eq!(doc.nodes[0].sections[0].heading.line, 3);
    assert_eq!(doc.nodes[0].sections[0].properties[0].line, 5);
}

// ── Full document (sozu-like) ──

#[test]
fn sozu_structure() {
    let input = "\
# Agyo

## Container
- image: localhost/test:latest
- network: outbound
- mounts: /tmp/a, /tmp/b

## Servers

### fetch
- command: /usr/local/bin/fetch

### brave
- command: /usr/local/bin/brave
- secrets: key1

# Tasks

## heartbeat

A test task.

- schedule: every 5m
- run: echo hi
- log: true
";
    let doc = parse(input);
    assert_eq!(doc.nodes.len(), 2);

    // Agyo
    let agyo = &doc.nodes[0];
    assert_eq!(agyo.heading.as_ref().unwrap().text, "Agyo");
    assert_eq!(agyo.sections.len(), 2);

    let container = &agyo.sections[0];
    assert_eq!(container.heading.text, "Container");
    assert_eq!(container.properties.len(), 3);

    let servers = &agyo.sections[1];
    assert_eq!(servers.heading.text, "Servers");
    assert_eq!(servers.children.len(), 2);
    assert_eq!(servers.children[0].heading.text, "fetch");
    assert_eq!(servers.children[1].heading.text, "brave");
    assert_eq!(servers.children[1].properties.len(), 2);

    // Tasks
    let tasks = &doc.nodes[1];
    assert_eq!(tasks.heading.as_ref().unwrap().text, "Tasks");
    assert_eq!(tasks.sections.len(), 1);

    let heartbeat = &tasks.sections[0];
    assert_eq!(heartbeat.heading.text, "heartbeat");
    assert_eq!(heartbeat.prose.as_deref(), Some("A test task."));
    assert_eq!(heartbeat.properties.len(), 3);
}
