use structmd::errors::Error;
use structmd::linter::validate;
use structmd::parse::parse;
use structmd::schema::load_schema;

fn lint(schema_text: &str, doc_text: &str) -> Vec<Error> {
    let schema = load_schema(schema_text, "test").unwrap();
    let doc = parse(doc_text);
    validate(&doc, &schema, "test.md")
}

fn has_code(errors: &[Error], code: &str) -> bool {
    errors.iter().any(|e| e.code == code)
}

fn has_key(errors: &[Error], key: &str) -> bool {
    errors.iter().any(|e| e.key == key)
}

fn all_have_fix(errors: &[Error]) -> bool {
    errors.iter().all(|e| !e.fix.is_empty())
}

const TOOLS_SCHEMA: &str = "\
```grammar
document ::= H1(\"Tools\") tool+
tool     ::= H2(SNAKE_CASE) prose property* table
```

```types
@server     : string
@parameters : label
```

```table
@name : string
@type : enum(string, integer)
@required : enum(yes, no)
@desc : string
```
";

#[test]
fn valid_tools_file() {
    let errors = lint(TOOLS_SCHEMA, "\
# Tools

## my_tool

A description.

- **server:** fetch
- **parameters:**

| name | type   | required | desc  |
|------|--------|----------|-------|
| url  | string | yes      | A URL |
");
    assert!(errors.is_empty(), "unexpected errors: {:#?}", errors);
}

#[test]
fn missing_h1() {
    let errors = lint(TOOLS_SCHEMA, "## my_tool\n- server: x\n");
    assert!(has_code(&errors, "missing_section") || has_code(&errors, "wrong_heading"));
    assert!(all_have_fix(&errors));
}

#[test]
fn wrong_h1_text() {
    let errors = lint(TOOLS_SCHEMA, "# Wrong\n## my_tool\nDesc\n- server: x\n");
    assert!(!errors.is_empty());
    assert!(all_have_fix(&errors));
}

#[test]
fn snake_case_enforced() {
    let errors = lint(TOOLS_SCHEMA, "\
# Tools

## Bad Name

Description.

- server: fetch
");
    assert!(has_code(&errors, "section_count"));
    assert!(all_have_fix(&errors));
}

#[test]
fn prose_required() {
    let errors = lint(TOOLS_SCHEMA, "\
# Tools

## my_tool
- server: fetch
");
    assert!(has_code(&errors, "missing_prose"));
    assert!(all_have_fix(&errors));
}

#[test]
fn table_required_when_expects_table() {
    let errors = lint(TOOLS_SCHEMA, "\
# Tools

## my_tool

Description.

- server: fetch
- parameters:
");
    assert!(has_code(&errors, "missing_table"));
    assert!(all_have_fix(&errors));
}

#[test]
fn table_enum_validation() {
    let errors = lint(TOOLS_SCHEMA, "\
# Tools

## my_tool

Description.

- server: fetch
- parameters:

| name | type   | required | desc  |
|------|--------|----------|-------|
| x    | widget | maybe    | stuff |
");
    let invalid: Vec<_> = errors.iter().filter(|e| e.code == "invalid_value").collect();
    assert!(invalid.iter().any(|e| e.got == "widget"));
    assert!(invalid.iter().any(|e| e.got == "maybe"));
    assert!(all_have_fix(&errors));
}

const SOZU_SCHEMA: &str = "\
```grammar
document  ::= agyo tasks?
agyo      ::= H1(\"Agyo\") container servers
container ::= H2(\"Container\") property+
servers   ::= H2(\"Servers\") server+
server    ::= H3(IDENTIFIER) property+
tasks     ::= H1(\"Tasks\") task+
task      ::= H2(IDENTIFIER) prose? property+
```

```types:container
@image   : string, required
@network : string, default(\"outbound\")
@mounts  : list(string)
```

```types:server
@command : string, required
@secrets : list(string)
```

```types:task
@schedule : cron, required
@run      : string, required
@log      : bool, default(true)
```
";

#[test]
fn valid_sozu_file() {
    let errors = lint(SOZU_SCHEMA, "\
# Agyo

## Container
- image: localhost/test:latest
- network: outbound
- mounts: /tmp/a, /tmp/b

## Servers

### fetch
- command: /usr/local/bin/fetch

# Tasks

## heartbeat

A test task.

- schedule: every 5m
- run: echo hi
- log: true
");
    assert!(errors.is_empty(), "unexpected errors: {:#?}", errors);
}

#[test]
fn sozu_without_tasks_is_ok() {
    let errors = lint(SOZU_SCHEMA, "\
# Agyo

## Container
- image: localhost/test:latest

## Servers

### fetch
- command: /usr/local/bin/fetch
");
    assert!(errors.is_empty(), "unexpected errors: {:#?}", errors);
}

#[test]
fn sozu_missing_required_image() {
    let errors = lint(SOZU_SCHEMA, "\
# Agyo

## Container
- network: outbound

## Servers

### fetch
- command: /usr/local/bin/fetch
");
    assert!(has_code(&errors, "missing_property"));
    assert!(has_key(&errors, "image"));
    assert!(all_have_fix(&errors));
}

#[test]
fn sozu_missing_server_command() {
    let errors = lint(SOZU_SCHEMA, "\
# Agyo

## Container
- image: localhost/test:latest

## Servers

### fetch
- secrets: key1
");
    assert!(has_code(&errors, "missing_property"));
    assert!(has_key(&errors, "command"));
    assert!(all_have_fix(&errors));
}

#[test]
fn sozu_scoped_properties_dont_leak() {
    let errors = lint(SOZU_SCHEMA, "\
# Agyo

## Container
- image: localhost/test:latest

## Servers

### fetch
- command: /usr/local/bin/fetch
");
    assert!(errors.is_empty(), "scoped properties leaked: {:#?}", errors);
}

#[test]
fn bool_validation() {
    let errors = lint(SOZU_SCHEMA, "\
# Agyo
## Container
- image: test
## Servers
### s1
- command: /bin/s1
# Tasks
## t1
- schedule: every 5m
- run: echo hi
- log: maybe
");
    let bool_err = errors.iter().find(|e| e.key == "log").unwrap();
    assert_eq!(bool_err.code, "invalid_value");
    assert_eq!(bool_err.got, "maybe");
    assert!(bool_err.expected.contains("true"));
    assert!(!bool_err.fix.is_empty());
}

#[test]
fn cron_interval_valid() {
    let errors = lint(SOZU_SCHEMA, "\
# Agyo
## Container
- image: test
## Servers
### s1
- command: /bin/s1
# Tasks
## t1
- schedule: every 10m
- run: echo hi
");
    let cron_errors: Vec<_> = errors.iter().filter(|e| e.key == "schedule").collect();
    assert!(cron_errors.is_empty());
}

#[test]
fn cron_expression_valid() {
    let errors = lint(SOZU_SCHEMA, "\
# Agyo
## Container
- image: test
## Servers
### s1
- command: /bin/s1
# Tasks
## t1
- schedule: 0 5 * * *
- run: echo hi
");
    let cron_errors: Vec<_> = errors.iter().filter(|e| e.key == "schedule").collect();
    assert!(cron_errors.is_empty());
}

#[test]
fn cron_invalid_interval() {
    let errors = lint(SOZU_SCHEMA, "\
# Agyo
## Container
- image: test
## Servers
### s1
- command: /bin/s1
# Tasks
## t1
- schedule: every tuesday
- run: echo hi
");
    let err = errors.iter().find(|e| e.key == "schedule").unwrap();
    assert_eq!(err.code, "invalid_value");
    assert_eq!(err.got, "every tuesday");
    assert!(!err.fix.is_empty());
}

#[test]
fn cron_invalid_expression() {
    let errors = lint(SOZU_SCHEMA, "\
# Agyo
## Container
- image: test
## Servers
### s1
- command: /bin/s1
# Tasks
## t1
- schedule: at 5pm
- run: echo hi
");
    let err = errors.iter().find(|e| e.key == "schedule").unwrap();
    assert_eq!(err.code, "invalid_value");
    assert!(!err.fix.is_empty());
}

#[test]
fn list_comma_separated() {
    let errors = lint(SOZU_SCHEMA, "\
# Agyo
## Container
- image: test
- mounts: /tmp/a, /tmp/b
## Servers
### s1
- command: /bin/s1
");
    let mount_errors: Vec<_> = errors.iter().filter(|e| e.key == "mounts").collect();
    assert!(mount_errors.is_empty());
}

#[test]
fn one_or_more_section_required() {
    let schema_text = "\
```grammar
document ::= H1(\"T\") item+
item     ::= H2(IDENT) property+
```

```types
@key : string
```
";
    let errors = lint(schema_text, "# T\n");
    assert!(has_code(&errors, "section_count"));
    assert!(all_have_fix(&errors));
}

#[test]
fn every_error_has_a_fix() {
    // Intentionally broken file — every error should have a fix
    let errors = lint(SOZU_SCHEMA, "\
# Agyo
## Container
- network: outbound
## Servers
### s1
- secrets: key
# Tasks
## t1
- schedule: nope
- log: maybe
");
    assert!(!errors.is_empty());
    for err in &errors {
        assert!(
            !err.fix.is_empty(),
            "error at line {} ({}) has no fix: code={}, key={}",
            err.line, err.section, err.code, err.key
        );
    }
}

