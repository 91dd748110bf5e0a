use structmd::errors::{format_errors, render, render_verbose, Diagnostic, Error, ErrorFormatter};
use structmd::linter;
use structmd::parse::{parse, Document, H1Node, Heading, Section};
use structmd::schema::{load_schema, parse_type_with_modifiers, load_schema_outcome, LoadOutcome, NamePattern, PropertyMap, PropertySchema, Quantity, StrMap, ValueType};
use structmd::validate::validate;

fn prop(t: ValueType) -> PropertySchema {
    PropertySchema { value_type: t, required: false, default: None }
}

// ── Ordered map ──

#[test]
fn map_read_after_write() {
    let mut m: PropertyMap = StrMap::new();
    m.insert("beta".to_string(), prop(ValueType::Integer));
    m.insert("alpha".to_string(), prop(ValueType::Bool));
    assert_eq!(m.get("beta").unwrap().value_type, ValueType::Integer);
    assert_eq!(m.get("alpha").unwrap().value_type, ValueType::Bool);
    assert!(m.get("gamma").is_none());
    m.insert("beta".to_string(), prop(ValueType::Text));
    assert_eq!(m.get("beta").unwrap().value_type, ValueType::Text);
    assert_eq!(m.get("alpha").unwrap().value_type, ValueType::Bool);
    assert_eq!(m.len(), 2);
}

#[test]
fn map_keys_ascending() {
    let mut m: PropertyMap = StrMap::new();
    for k in ["zeta", "alpha", "mu", "Beta", "alp"] {
        m.insert(k.to_string(), prop(ValueType::String));
    }
    let keys: Vec<&str> = (0..m.len()).map(|i| m.key_at(i)).collect();
    assert_eq!(keys, vec!["Beta", "alp", "alpha", "mu", "zeta"]);
}

// ── Schema loading ──

#[test]
fn bnf_block_is_a_grammar() {
    let s = load_schema("```bnf\ndocument ::= H1(\"A\") x+\nx ::= H2(ANY) property\n```\n", "t").unwrap();
    assert_eq!(s.nodes.len(), 1);
    assert_eq!(s.nodes[0].text.as_deref(), Some("A"));
    assert!(s.nodes[0].children[0].expects_properties);
}

#[test]
fn self_reference_is_circular() {
    let err = load_schema("```grammar\ndocument ::= loop\nloop ::= H2(ANY) loop\n```\n", "t").unwrap_err();
    assert_eq!(err, "circular reference in grammar: loop");
}

#[test]
fn unknown_name_pattern_errors() {
    let err = load_schema("```grammar\ndocument ::= H1(\"A\") H2(CAMEL)\n```\n", "t").unwrap_err();
    assert_eq!(err, "unknown name pattern: CAMEL");
}

#[test]
fn unknown_type_errors() {
    let err = load_schema("```grammar\ndocument ::= H1(\"A\")\n```\n```types\n@x : widget\n```\n", "t").unwrap_err();
    assert_eq!(err, "unknown type: widget");
}

#[test]
fn reversed_parens_abort() {
    let r = load_schema_outcome("```grammar\ndocument ::= H2)x(\n```\n", "t");
    assert!(matches!(r, LoadOutcome::Aborted));
    let r = load_schema_outcome("```grammar\ndocument ::= H2(\")\n```\n", "t");
    assert!(matches!(r, LoadOutcome::Aborted));
}

#[test]
fn root_sections_are_wrapped() {
    let s = load_schema("```grammar\ndocument ::= H2(SNAKE_CASE)+ H3(ANY)\n```\n", "t").unwrap();
    assert_eq!(s.nodes.len(), 1);
    assert!(s.nodes[0].text.is_none());
    assert!(matches!(s.nodes[0].quantity, Quantity::One));
    let sec = &s.nodes[0].children[0];
    assert_eq!(sec.level, 2);
    assert!(matches!(sec.quantity, Quantity::OneOrMore));
    assert_eq!(sec.children.len(), 1);
    assert_eq!(sec.children[0].level, 3);
}

#[test]
fn first_production_is_root_without_document() {
    let s = load_schema("```grammar\nroot ::= H1(\"R\")\nother ::= H1(\"O\")\n```\n", "t").unwrap();
    assert_eq!(s.nodes.len(), 1);
    assert_eq!(s.nodes[0].text.as_deref(), Some("R"));
}

#[test]
fn property_token_without_section_marks_h1() {
    let s = load_schema("```grammar\ndocument ::= H1(\"R\") property\n```\n", "t").unwrap();
    assert!(s.nodes[0].expects_properties);
}

#[test]
fn scoped_table_attaches_to_production() {
    let s = load_schema(
        "```grammar\ndocument ::= H1(\"R\") t\nt ::= H2(ANY) table\n```\n```table:t\n@name : string\n@n : integer\n```\n",
        "t",
    )
    .unwrap();
    let t = s.nodes[0].children[0].table.as_ref().unwrap();
    assert_eq!(t.columns.len(), 2);
    assert_eq!(t.columns[1].name, "n");
    assert_eq!(t.columns[1].column_type, ValueType::Integer);
    assert!(s.global_table.is_none());
}

#[test]
fn untagged_and_unknown_blocks_ignored() {
    let s = load_schema("```\nnot ::= grammar\n```\n```rust\nx ::= y\n```\n```grammar\ndocument ::= H1(\"Z\")\n```\n", "t").unwrap();
    assert_eq!(s.nodes[0].text.as_deref(), Some("Z"));
}

#[test]
fn types_list_of_enum_and_path() {
    let s = load_schema("```grammar\ndocument ::= H1(\"Z\")\n```\n```types\n@a : list(enum(x, y))\n@b : path\n@c : cron, required\n```\n", "t").unwrap();
    let p = &s.global_properties;
    assert_eq!(
        p.get("a").unwrap().value_type,
        ValueType::List(Box::new(ValueType::Enum(vec!["x".into(), "y".into()])))
    );
    assert_eq!(p.get("b").unwrap().value_type, ValueType::Path);
    assert!(p.get("c").unwrap().required);
}

#[test]
fn name_pattern_labels() {
    assert_eq!(NamePattern::SnakeCase.label(), "snake_case");
    assert_eq!(NamePattern::Exact("X".into()).label(), "X");
    assert!(NamePattern::Any.is_dynamic());
    assert!(!NamePattern::Exact("X".into()).is_dynamic());
}

// ── Validation ──

const VALUES_SCHEMA: &str = "\
```grammar
document ::= H1(\"V\") item+
item     ::= H2(ANY) property*
```

```types
@i : integer
@n : number
@b : bool
@p : path
@c : cron
@l : list(integer)
@s : string
```
";

fn check(value_lines: &str) -> Vec<Error> {
    let schema = load_schema(VALUES_SCHEMA, "v").unwrap();
    let doc = parse(&format!("# V\n## x\n{}", value_lines));
    validate(&doc, &schema, "v.md")
}

fn bad_keys(value_lines: &str) -> Vec<String> {
    check(value_lines).into_iter().map(|e| e.key).collect()
}

#[test]
fn integer_bounds() {
    assert!(bad_keys("- i: 9223372036854775807\n").is_empty());
    assert!(bad_keys("- i: -9223372036854775808\n").is_empty());
    assert!(bad_keys("- i: +5\n").is_empty());
    assert_eq!(bad_keys("- i: 9223372036854775808\n"), vec!["i"]);
    assert_eq!(bad_keys("- i: 1.5\n"), vec!["i"]);
    assert_eq!(bad_keys("- i: -\n"), vec!["i"]);
}

#[test]
fn number_forms() {
    for ok in ["1e5", ".5", "5.", "-2.5E-3", "inf", "NaN", "-Infinity", "+7"] {
        assert!(bad_keys(&format!("- n: {}\n", ok)).is_empty(), "{}", ok);
    }
    for bad in ["1e", ".", "1.2.3", "e5", "abc", "1_000"] {
        assert_eq!(bad_keys(&format!("- n: {}\n", bad)), vec!["n"], "{}", bad);
    }
}

#[test]
fn bool_any_case_in_validate_and_linter() {
    assert!(bad_keys("- b: TRUE\n").is_empty());
    assert!(bad_keys("- b: False\n").is_empty());
    let schema = load_schema(VALUES_SCHEMA, "v").unwrap();
    let doc = parse("# V\n## x\n- b: True\n");
    assert!(linter::validate(&doc, &schema, "v.md").is_empty());
    let doc = parse("# V\n## x\n- b: maybe\n");
    let errors = linter::validate(&doc, &schema, "v.md");
    assert_eq!(errors.len(), 1);
    assert_eq!(errors[0].got, "maybe");
    assert_eq!(errors[0].fix, "change `b` to `true` or `false`");
}

#[test]
fn path_prefixes() {
    assert!(bad_keys("- p: /etc\n- p: ./a\n").is_empty());
    assert!(bad_keys("- p: ../b\n").is_empty());
    let e = check("- p: etc\n");
    assert_eq!(e.len(), 1);
    assert_eq!(e[0].expected, "path starting with / or ./");
}

#[test]
fn cron_limits() {
    assert!(bad_keys("- c: every 4294967295m\n").is_empty());
    assert!(bad_keys("- c: every 2h\n").is_empty());
    assert!(bad_keys("- c: */5 * * * *\n").is_empty());
    let e = check("- c: every 4294967296m\n");
    assert_eq!(e[0].got, "every 4294967296m");
    assert_eq!(e[0].expected, "interval: every Nm or every Nh");
    let e = check("- c: 1 2 3\n");
    assert_eq!(e[0].expected, "5-field cron or interval (every Nm/Nh)");
    assert_eq!(e[0].fix, "change `c` to `every 5m`, `every 2h`, or `0 5 * * *`");
}

#[test]
fn list_items_checked_one_by_one() {
    let e = check("- l: 1, x, , 3, y\n");
    let got: Vec<String> = e.iter().map(|e| e.got.clone()).collect();
    assert_eq!(got, vec!["x", "y"]);
}

#[test]
fn empty_string_value() {
    let e = check("- s:\n");
    assert_eq!(e.len(), 1);
    assert_eq!(e[0].got, "(empty)");
    assert_eq!(e[0].fix, "set `- s: <value>`");
}

#[test]
fn errors_sorted_by_line_stable() {
    let schema = load_schema(
        "```grammar\ndocument ::= H1(\"V\") a b\na ::= H2(\"A\") property\nb ::= H2(\"B\") property\n```\n```types\n@w : string, required\n@x : string, required\n@y : integer\n```\n",
        "v",
    )
    .unwrap();
    // B comes first in the file, A second; A's errors are found first.
    let doc = parse("# V\n## B\n- y: no\n## A\n- y: nope\n");
    let errors = validate(&doc, &schema, "v.md");
    let found: Vec<(usize, &str)> = errors.iter().map(|e| (e.line, e.key.as_str())).collect();
    assert_eq!(found, vec![(2, "w"), (2, "x"), (3, "y"), (4, "w"), (4, "x"), (5, "y")]);
    assert_eq!(errors[0].section, "B");
    assert_eq!(errors[3].section, "A");
    assert!(errors.iter().all(|e| !e.fix.is_empty()));
}

#[test]
fn section_count_messages() {
    let schema = load_schema("```grammar\ndocument ::= H1(\"V\") one many\none ::= H2(\"Only\")\nmany ::= H2(SNAKE_CASE)+\n```\n", "v").unwrap();
    let doc = parse("# V\n## Only\n## Only\n");
    let errors = validate(&doc, &schema, "v.md");
    assert_eq!(errors.len(), 2);
    assert_eq!(errors[0].code, "section_count");
    assert_eq!(errors[0].section, "one");
    assert_eq!(errors[0].got, "2");
    assert_eq!(errors[0].fix, "need exactly 1 H2 `one` section");
    assert_eq!(errors[1].section, "many");
    assert_eq!(errors[1].fix, "add at least 1 H2 section matching `snake_case`");
}

#[test]
fn missing_h1_reported() {
    let schema = load_schema("```grammar\ndocument ::= H1(\"Need\") H1(\"Opt\")?\n```\n", "v").unwrap();
    let errors = validate(&parse("# Other\n"), &schema, "v.md");
    assert_eq!(errors.len(), 1);
    assert_eq!(errors[0].code, "missing_section");
    assert_eq!(errors[0].expected, "# Need");
    assert_eq!(errors[0].fix, "add `# Need` section");
}

#[test]
fn table_column_checks() {
    let schema = load_schema(
        "```grammar\ndocument ::= H1(\"T\") t\nt ::= H2(ANY) table\n```\n```table\n@Name : string\n@size : integer\n@extra : string\n```\n",
        "v",
    )
    .unwrap();
    let doc = parse("# T\n## x\n| name | count |\n|---|---|\n| a | b | 2 |\n");
    let errors = validate(&doc, &schema, "v.md");
    let fixes: Vec<&str> = errors.iter().map(|e| e.fix.as_str()).collect();
    assert_eq!(
        fixes,
        vec![
            "rename column 2 to `size`",
            "add column `extra`",
            "row should have 2 columns",
            "change `size` to an integer",
        ]
    );
    assert_eq!(errors[0].key, "column 2");
    assert_eq!(errors[2].got, "3");
    assert_eq!(errors[2].expected, "2");
}

#[test]
fn empty_table_and_missing_table() {
    let schema = load_schema(
        "```grammar\ndocument ::= H1(\"T\") t+\nt ::= H2(ANY) table\n```\n```table\n@a : string\n@b : string\n```\n",
        "v",
    )
    .unwrap();
    let doc = parse("# T\n## x\n| a | b |\n|---|---|\n## y\ntext\n");
    let errors = validate(&doc, &schema, "v.md");
    assert_eq!(errors.len(), 2);
    assert_eq!(errors[0].code, "row_count");
    assert_eq!(errors[1].code, "missing_table");
    assert_eq!(errors[1].expected, "a, b");
    assert_eq!(errors[1].fix, "add table with columns: a, b");
}

#[test]
fn lint_is_validate() {
    let schema = load_schema(VALUES_SCHEMA, "v").unwrap();
    let doc = parse("# V\n## x\n- i: q\n- b: Yes\n");
    let a = structmd::lint(&doc, &schema, "v.md");
    let b = validate(&doc, &schema, "v.md");
    let a: Vec<String> = a.iter().map(|e| e.to_display_string()).collect();
    let b: Vec<String> = b.iter().map(|e| e.to_display_string()).collect();
    assert_eq!(a, b);
    assert_eq!(a.len(), 2);
}

// ── Parser shape ──

#[test]
fn headings_nest_by_level() {
    let doc = parse("### lost\n# A\n## B\n### C\n### D\n## E\n# F\n");
    assert_eq!(doc.nodes.len(), 2);
    assert_eq!(doc.nodes[0].heading.as_ref().unwrap().level, 1);
    let b = &doc.nodes[0].sections[0];
    assert_eq!(b.heading.level, 2);
    assert_eq!(b.children.len(), 2);
    assert!(b.children.iter().all(|c| c.heading.level == 3 && c.children.is_empty()));
    assert_eq!(doc.nodes[0].sections[1].heading.text, "E");
    assert!(doc.nodes[1].sections.is_empty());
}

// ── Error rendering ──

struct Sched;

impl Diagnostic for Sched {
    fn render(&self, f: &mut ErrorFormatter) {
        f.code("missing_property");
        f.field("key", "image");
        f.fix("do this instead");
    }
}

#[test]
fn override_wins_over_derived_fix() {
    let out = render("app", &Sched);
    assert!(out.contains("do this instead"));
    assert!(!out.contains("add `- image"));
}

#[test]
fn error_with_fix_renders_it() {
    let e = Error::new("f.md", 2, "S", "missing_property").with_key("k").with_fix("custom fix");
    let out = render("app", &e);
    assert!(out.contains("| custom fix |"));
}

#[test]
fn format_errors_exact() {
    let e = Error::new("f.md", 3, "Sec", "missing_property").with_key("image");
    let out = format_errors("lint", "s.md", &[e]);
    assert_eq!(
        out,
        "# lint \u{2014} 1 error(s)\n\n\
         | line | file | section | code | key | fix |\n\
         |------|------|---------|------|-----|-----|\n\
         | 3 | f.md | Sec | missing_property | image | add `- image: <value>` |\n"
    );
}

#[test]
fn verbose_exact() {
    let e = Error::new("", 0, "", "io_error").with_got("gone");
    let out = render_verbose("app", &e);
    assert_eq!(
        out,
        "# app\n\n1 error(s)\n\n## error-1\n\n- got: gone\n- code: io_error\n- fix: check that the file exists and is readable\n"
    );
}

#[test]
fn display_string_exact() {
    let e = Error::new("f.md", 12, "S", "invalid_value").with_key("k").with_got("v");
    assert_eq!(e.to_display_string(), "f.md:12: [S] invalid_value key=k got=v");
    let e = Error::new("f.md", 1, "", "missing_section");
    assert_eq!(e.to_display_string(), "f.md:1: [] missing_section");
}

#[test]
fn unknown_properties_ignored() {
    let with = check("- i: x\n- zz: anything\n- b: maybe\n");
    let without = check("- i: x\n- b: maybe\n");
    let a: Vec<(String, String)> = with.iter().map(|e| (e.code.clone(), e.key.clone())).collect();
    let b: Vec<(String, String)> = without.iter().map(|e| (e.code.clone(), e.key.clone())).collect();
    assert_eq!(a, b);
    assert_eq!(a.len(), 2);
}

#[test]
fn bold_properties_read_like_plain() {
    let bold = check("- **i:** x\n- **b:** true\n");
    let plain = check("- i: x\n- b: true\n");
    let a: Vec<String> = bold.iter().map(|e| e.to_display_string()).collect();
    let b: Vec<String> = plain.iter().map(|e| e.to_display_string()).collect();
    assert_eq!(a, b);
    assert_eq!(a, vec!["v.md:3: [x] invalid_value key=i got=x"]);
}

#[test]
fn scoped_types_stay_with_production() {
    let s = load_schema(
        "```grammar\ndocument ::= H1(\"R\") a b\na ::= H2(\"A\") property\nb ::= H2(\"B\") property\n```\n```types:a\n@only_a : string\n```\n```types\n@g : string\n```\n",
        "t",
    )
    .unwrap();
    let a = &s.nodes[0].children[0];
    let b = &s.nodes[0].children[1];
    assert!(a.properties.as_ref().unwrap().contains_key("only_a"));
    assert!(!a.properties.as_ref().unwrap().contains_key("g"));
    assert!(b.properties.is_none());
    assert!(s.global_properties.contains_key("g"));
    assert!(s.nodes[0].properties.is_none());
}

#[test]
fn empty_heading_is_invalid_name() {
    let schema = load_schema("```grammar\ndocument ::= H1(\"V\") s\ns ::= H2(ANY)\n```\n", "v").unwrap();
    let doc = Document {
        nodes: vec![H1Node {
            heading: Some(Heading { level: 1, text: "V".into(), line: 1 }),
            prose: None,
            properties: vec![],
            sections: vec![Section {
                heading: Heading { level: 2, text: String::new(), line: 2 },
                prose: None,
                prose_line: None,
                properties: vec![],
                table: None,
                children: vec![],
            }],
        }],
    };
    let errors = validate(&doc, &schema, "v.md");
    assert_eq!(errors.len(), 1);
    assert_eq!(errors[0].code, "invalid_name");
    assert_eq!(errors[0].got, "(empty)");
    assert_eq!(errors[0].fix, "add a name after `##`");
}

#[test]
fn fence_replaces_list_item_of_same_key() {
    let doc = parse("# T\n## S\n- prompt: short\n```prompt\nlong\n```\n- prompt: later\n- other: x\n");
    let ps = &doc.nodes[0].sections[0].properties;
    assert_eq!(ps.iter().filter(|p| p.key == "prompt").count(), 1);
    assert!(ps.iter().any(|p| p.key == "prompt" && p.value == "long"));
    assert!(ps.iter().any(|p| p.key == "other" && p.value == "x"));
}

#[test]
fn only_bare_backticks_close_a_fence() {
    let doc = parse("# T\n## S\n```code\n```inner\nx\n```\n");
    let ps = &doc.nodes[0].sections[0].properties;
    assert_eq!(ps.len(), 1);
    assert_eq!(ps[0].value, "```inner\nx");
}

#[test]
fn fence_ends_prose() {
    let doc = parse("# T\n## S\nFirst.\n```code\nx\n```\nAfter.\n");
    assert_eq!(doc.nodes[0].sections[0].prose.as_deref(), Some("First."));
}

#[test]
fn table_row_needs_only_leading_bar() {
    let doc = parse("# T\n## S\n| a | b\n|---|---\n| 1 | 2\n");
    let t = doc.nodes[0].sections[0].table.as_ref().unwrap();
    assert_eq!(t.columns, vec!["a", "b"]);
    assert_eq!(t.rows.len(), 1);
    assert_eq!(t.rows[0].cells, vec!["1", "2"]);
}

#[test]
fn quantifier_goes_to_outermost_created() {
    let text = "```grammar\ndocument ::= H1(\"A\") parent+\nparent   ::= H2(\"P\") child\nchild    ::= H3(IDENT)\n```\n";
    let s = load_schema(text, "t").unwrap();
    let p = &s.nodes[0].children[0];
    assert!(matches!(p.quantity, Quantity::OneOrMore));
    assert_eq!(p.children.len(), 1);
    assert_eq!(p.children[0].level, 3);
    assert!(matches!(p.children[0].quantity, Quantity::One));
}

#[test]
fn h3_nests_under_current_h2() {
    let text = "```grammar\ndocument ::= H2(\"Root\") H1(\"A\") H2(\"P\") H3(ANY)\n```\n";
    let s = load_schema(text, "t").unwrap();
    assert_eq!(s.nodes.len(), 1);
    let p = &s.nodes[0].children[0];
    assert_eq!(p.children.len(), 1);
    assert_eq!(p.children[0].level, 3);
}

#[test]
fn table_required_without_table_schema() {
    let schema = load_schema("```grammar\ndocument ::= H1(\"T\") t\nt ::= H2(ANY) table\n```\n", "v").unwrap();
    let errors = validate(&parse("# T\n## x\ntext\n"), &schema, "v.md");
    assert_eq!(errors.len(), 1);
    assert_eq!(errors[0].code, "missing_table");
    assert_eq!(errors[0].line, 2);
    assert_eq!(errors[0].section, "x");
    assert_eq!(errors[0].fix, "add a markdown table");
    assert!(validate(&parse("# T\n## x\n| a |\n"), &schema, "v.md").is_empty());
}

struct LogBool;

impl Diagnostic for LogBool {
    fn render(&self, f: &mut ErrorFormatter) {
        f.code("invalid_value");
        f.field("key", "log");
        f.field("expected", "bool");
    }
}

#[test]
fn bool_fix_hint() {
    let out = render("app", &LogBool);
    assert!(out.contains("change `log` to `true` or `false`"), "{}", out);
}

#[test]
fn render_exact_for_error() {
    let err = Error::new("test.md", 5, "Container", "missing_property").with_key("image").with_expected("string");
    assert_eq!(
        render("mdlint", &err),
        "# mdlint \u{2014} 1 error(s)\n\n| line | file | section | code | key | fix |\n|------|------|---------|------|-----|-----|\n| 5 | test.md | Container | missing_property | image | add `- image: <value>` |\n"
    );
    let err = Error::new("test.md", 5, "Container", "missing_property").with_key("image");
    assert_eq!(
        structmd::errors::render_all_verbose("mdlint", &[&err as &dyn Diagnostic]),
        "# mdlint\n\n1 error(s)\n\n## error-1\n\n- line: 5\n- file: test.md\n- section: Container\n- key: image\n- code: missing_property\n- fix: add `- image: <value>`\n"
    );
}

#[test]
fn rows_follow_error_order() {
    let a = Error::new("f.md", 1, "A", "row_count");
    let b = Error::new("f.md", 2, "B", "row_count");
    let out = structmd::errors::render_vec("x", &[a, b]);
    let ia = out.find("| 1 |").unwrap();
    let ib = out.find("| 2 |").unwrap();
    assert!(ia < ib);
}

#[test]
fn heading_text_keeps_blanks_after_marker() {
    let doc = parse("#  Title  \n##   sec \n###  sub\n");
    assert_eq!(doc.nodes[0].heading.as_ref().unwrap().text, " Title");
    assert_eq!(doc.nodes[0].sections[0].heading.text, "  sec");
    assert_eq!(doc.nodes[0].sections[0].children[0].heading.text, " sub");
}

#[test]
fn modifiers_split_at_top_level_commas() {
    let (vt, req, def) = parse_type_with_modifiers("enum(a, b), required, default(\"a\")").unwrap();
    assert_eq!(vt, ValueType::Enum(vec!["a".into(), "b".into()]));
    assert!(req);
    assert_eq!(def.as_deref(), Some("a"));
}
