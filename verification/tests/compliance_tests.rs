use structmd::errors::format_errors;
use structmd::linter::validate;
use structmd::parse::parse;
use structmd::schema::load_schema;

fn assert_valid(schema_text: &str, doc_text: &str) {
    let schema = load_schema(schema_text, "fixture").unwrap();
    let doc = parse(doc_text);
    let errors = validate(&doc, &schema, "fixture.md");
    assert!(errors.is_empty(), "expected valid file to pass lint: {:#?}", errors);
}

const SIMPLE_SCHEMA: &str = "# Simple Schema

```bnf
document ::= H1(\"Config\") item+
item     ::= H2(IDENTIFIER) property+
```

```types
@name  : string, required
@count : integer
```
";

const SIMPLE_DOC: &str = "# Config

## alpha
- name: first
- count: 3

## beta
- name: second
";

const MULTI_H1_SCHEMA: &str = "# Multi-H1 Schema

```grammar
document ::= settings items
settings ::= H1(\"Settings\") property+
items    ::= H1(\"Items\") item+
item     ::= H2(IDENTIFIER) property+
```

```types:settings
@path : string, required
```

```types:item
@enabled : bool
```
";

const MULTI_H1_DOC: &str = "# Settings
- path: /etc/app

# Items

## one
- enabled: true

## two
- enabled: false
";

const NESTED_H3_SCHEMA: &str = "# Nested Schema

```grammar
document ::= H1(\"Root\") parent
parent   ::= H2(\"Parent\") child+
child    ::= H3(IDENTIFIER) property+
```

```types:child
@cmd     : string, required
@verbose : bool, default(false)
```
";

const NESTED_H3_DOC: &str = "# Root

## Parent

### build
- cmd: make
- verbose: true

### test
- cmd: make test
";

const PROSE_SCHEMA: &str = "# Prose Schema

```grammar
document ::= H1(\"Tools\") tool+
tool     ::= H2(IDENTIFIER) prose property+
```

```types
@server : string, required
```
";

const PROSE_DOC: &str = "# Tools

## fetch

Fetches a URL.

- server: fetch
";

const LISTS_SCHEMA: &str = "# Lists Schema

```bnf
document ::= H1(\"Config\") entry+
entry    ::= H2(IDENTIFIER) property+
```

```types
@mounts : list(string)
@tags   : list(string)
```
";

const LISTS_DOC: &str = "# Config

## web
- mounts: /tmp/a, /tmp/b
- tags: front, public
";

const TABLES_SCHEMA: &str = "# Tables Schema

```bnf
document ::= H1(\"Tools\") tool+
tool     ::= H2(SNAKE_CASE) prose property* table
```

```types
@server     : string
@parameters : label
```

```table
@name        : string
@type        : enum(string, integer, number, boolean, array, object)
@required    : enum(yes, no)
@description : string
```
";

const TABLES_DOC: &str = "# Tools

## fetch_url

Fetches a URL.

- server: fetch
- parameters:

| name | type | required | description |
|------|------|----------|-------------|
| url | string | yes | The URL |
| retries | integer | no | Retry count |
";

const SCOPED_TYPES_SCHEMA: &str = "# Scoped Types Schema

```grammar
document  ::= H1(\"Agyo\") container servers
container ::= H2(\"Container\") property+
servers   ::= H2(\"Servers\") server+
server    ::= H3(IDENTIFIER) property+
```

```types:container
@image   : string, required
@network : string, default(\"outbound\")
```

```types:server
@command : string, required
```
";

const SCOPED_TYPES_DOC: &str = "# Agyo

## Container
- image: localhost/app:latest
- network: outbound

## Servers

### fetch
- command: /usr/local/bin/fetch
";

const OPTIONAL_H1_SCHEMA: &str = "# Optional H1 Schema

```grammar
document ::= main extras?
main     ::= H1(\"Main\") item+
item     ::= H2(IDENTIFIER) property+
extras   ::= H1(\"Extras\") item+
```

```types
@key : string
```
";

const OPTIONAL_H1_DOC: &str = "# Main

## first
- key: value
";

const SCOPED_LEAK_SCHEMA: &str = "# Schema

```grammar
document ::= H1(\"Root\") alpha beta
alpha    ::= H2(\"Alpha\") property+
beta     ::= H2(\"Beta\") property+
```

```types:alpha
@color : enum(red, green, blue), required
```

```types:beta
@size : integer, required
```
";

const SCOPED_LEAK_DOC: &str = "# Root

## Alpha
- color: red

## Beta
- size: 3
";

const CODE_BLOCKS_SCHEMA: &str = "# Code Blocks Schema

```grammar
document ::= H1(\"Prompts\") prompt+
prompt   ::= H2(IDENTIFIER) property+
```

```types
@system : text, required
@model  : string
```
";

const CODE_BLOCKS_DOC: &str = "# Prompts

## weid
- model: small

```system
You are Weid.

## Not a heading
- not: a property
```
";

#[test]
fn valid_simple() {
    assert_valid(SIMPLE_SCHEMA, SIMPLE_DOC);
}

#[test]
fn valid_multi_h1() {
    assert_valid(MULTI_H1_SCHEMA, MULTI_H1_DOC);
}

#[test]
fn valid_nested_h3() {
    assert_valid(NESTED_H3_SCHEMA, NESTED_H3_DOC);
}

#[test]
fn valid_prose() {
    assert_valid(PROSE_SCHEMA, PROSE_DOC);
}

#[test]
fn valid_code_blocks() {
    assert_valid(CODE_BLOCKS_SCHEMA, CODE_BLOCKS_DOC);
}

#[test]
fn valid_lists() {
    assert_valid(LISTS_SCHEMA, LISTS_DOC);
}

#[test]
fn valid_tables() {
    assert_valid(TABLES_SCHEMA, TABLES_DOC);
}

#[test]
fn valid_scoped_types() {
    assert_valid(SCOPED_TYPES_SCHEMA, SCOPED_TYPES_DOC);
}

#[test]
fn valid_optional_h1() {
    assert_valid(OPTIONAL_H1_SCHEMA, OPTIONAL_H1_DOC);
}

#[test]
fn valid_scoped_leak() {
    assert_valid(SCOPED_LEAK_SCHEMA, SCOPED_LEAK_DOC);
}

const BAD_ENUM_SCHEMA: &str = "# Schema\n\n```bnf\ndocument ::= H1(\"Config\") item+\nitem     ::= H2(IDENTIFIER) property+\n```\n\n```types\n@color : enum(red, green, blue), required\n```\n";

/// Lints `doc_text` and checks that one row of the printed table holds each
/// of the expected fields.
fn assert_reports(schema_text: &str, doc_text: &str, expected: &[&str]) {
    let schema = load_schema(schema_text, "fixture").unwrap();
    let doc = parse(doc_text);
    let errors = validate(&doc, &schema, "fixture.md");
    assert!(!errors.is_empty(), "expected invalid file to fail lint");
    let output = format_errors("structmd-lint", "fixture.schema.md", &errors);
    let found = output.lines().any(|line| {
        line.starts_with('|') && !line.contains("---") && expected.iter().all(|x| line.contains(x))
    });
    assert!(found, "expected error {:?} not found in output:\n{}", expected, output);
}

#[test]
fn invalid_missing_property() {
    assert_reports(SIMPLE_SCHEMA, "# Config\n\n## alpha\n- count: 3\n", &["missing_property", "alpha", "name"]);
}

#[test]
fn invalid_bad_enum() {
    assert_reports(BAD_ENUM_SCHEMA, "# Config\n\n## shirt\n- color: purple\n", &["invalid_value", "shirt", "color", "purple"]);
}

#[test]
fn invalid_bad_bool() {
    assert_reports(NESTED_H3_SCHEMA, "# Root\n\n## Parent\n\n### build\n- cmd: make\n- verbose: yes\n", &["invalid_value", "build", "verbose", "yes"]);
}

#[test]
fn invalid_missing_section() {
    assert_reports(SIMPLE_SCHEMA, "# Settings\n\n## alpha\n- name: a\n", &["missing_section"]);
}

#[test]
fn invalid_missing_prose() {
    assert_reports(PROSE_SCHEMA, "# Tools\n\n## fetch\n- server: fetch\n", &["missing_prose", "fetch"]);
}
