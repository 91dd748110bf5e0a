use structmd::schema::{load_schema, parse_type_with_modifiers, parse_value_type, tokenize_grammar, NamePattern, Quantity, Schema, ValueType};

fn load(text: &str) -> Schema {
    load_schema(text, "test").unwrap()
}

// ── Grammar basics ──

#[test]
fn no_grammar_block_errors() {
    let err = load_schema("# Schema\nNo code blocks here.", "test");
    assert!(err.is_err());
    assert!(err.unwrap_err().contains("no ```grammar block"));
}

#[test]
fn simple_flat_grammar() {
    let schema = load("\
# Schema
```grammar
document ::= H1(\"Tools\") tool+
tool     ::= H2(SNAKE_CASE) prose property* table
```

```types
@server : string
```

```table
@name : string
@type : enum(string, integer)
```
");
    assert_eq!(schema.nodes.len(), 1);
    assert_eq!(schema.nodes[0].text.as_deref(), Some("Tools"));
    assert_eq!(schema.nodes[0].children.len(), 1);

    let tool = &schema.nodes[0].children[0];
    assert_eq!(tool.production_name.as_deref(), Some("tool"));
    assert!(tool.expects_prose);
    assert!(tool.expects_properties);
    assert!(tool.expects_table);
    assert!(matches!(tool.name_pattern, NamePattern::SnakeCase));
}

#[test]
fn multi_h1_grammar() {
    let schema = load("\
```grammar
document ::= agyo tasks?
agyo     ::= H1(\"Agyo\") stuff
stuff    ::= H2(\"Container\") property+
tasks    ::= H1(\"Tasks\") task+
task     ::= H2(IDENT) property+
```
");
    assert_eq!(schema.nodes.len(), 2);
    assert_eq!(schema.nodes[0].text.as_deref(), Some("Agyo"));
    assert_eq!(schema.nodes[1].text.as_deref(), Some("Tasks"));

    // tasks? should make the second H1 optional
    assert!(matches!(schema.nodes[1].quantity, Quantity::Optional));
}

// ── Quantifiers ──

#[test]
fn quantifier_one_or_more() {
    let schema = load("\
```grammar
document ::= H1(\"T\") item+
item     ::= H2(IDENT) property+
```
");
    let item = &schema.nodes[0].children[0];
    assert!(matches!(item.quantity, Quantity::OneOrMore));
}

#[test]
fn quantifier_zero_or_more() {
    let schema = load("\
```grammar
document ::= H1(\"T\") item*
item     ::= H2(IDENT) property*
```
");
    let item = &schema.nodes[0].children[0];
    assert!(matches!(item.quantity, Quantity::ZeroOrMore));
}

#[test]
fn quantifier_optional() {
    let schema = load("\
```grammar
document ::= H1(\"T\") item?
item     ::= H2(IDENT)
```
");
    let item = &schema.nodes[0].children[0];
    assert!(matches!(item.quantity, Quantity::Optional));
}

// ── Scoped properties ──

#[test]
fn scoped_types_blocks() {
    let schema = load("\
```grammar
document  ::= H1(\"Root\") alpha beta
alpha     ::= H2(\"Alpha\") property+
beta      ::= H2(\"Beta\") property+
```

```types:alpha
@color : string
```

```types:beta
@size : integer
```
");
    let alpha = &schema.nodes[0].children[0];
    let beta = &schema.nodes[0].children[1];

    let alpha_props = alpha.properties.as_ref().unwrap();
    assert!(alpha_props.contains_key("color"));
    assert!(!alpha_props.contains_key("size"));

    let beta_props = beta.properties.as_ref().unwrap();
    assert!(beta_props.contains_key("size"));
    assert!(!beta_props.contains_key("color"));
}

#[test]
fn global_types_fallback() {
    let schema = load("\
```grammar
document ::= H1(\"T\") item+
item     ::= H2(IDENT) property+
```

```types
@name : string
```
");
    // No scoped types — item should have properties = None, falls back to global
    let item = &schema.nodes[0].children[0];
    assert!(item.properties.is_none());
    assert!(schema.global_properties.contains_key("name"));
}

// ── Type parsing ──

#[test]
fn type_string() {
    assert_eq!(parse_value_type("string").unwrap(), ValueType::String);
}

#[test]
fn type_bool() {
    assert_eq!(parse_value_type("bool").unwrap(), ValueType::Bool);
}

#[test]
fn type_enum() {
    let vt = parse_value_type("enum(a, b, c)").unwrap();
    assert_eq!(
        vt,
        ValueType::Enum(vec!["a".into(), "b".into(), "c".into()])
    );
}

#[test]
fn type_list() {
    let vt = parse_value_type("list(string)").unwrap();
    assert_eq!(vt, ValueType::List(Box::new(ValueType::String)));
}

#[test]
fn type_unknown_errors() {
    assert!(parse_value_type("widget").is_err());
}

// ── Modifiers ──

#[test]
fn modifier_required() {
    let (vt, req, def) = parse_type_with_modifiers("string, required").unwrap();
    assert_eq!(vt, ValueType::String);
    assert!(req);
    assert!(def.is_none());
}

#[test]
fn modifier_default() {
    let (vt, req, def) = parse_type_with_modifiers("string, default(\"hello\")").unwrap();
    assert_eq!(vt, ValueType::String);
    assert!(!req);
    assert_eq!(def.as_deref(), Some("hello"));
}

#[test]
fn modifier_default_bool() {
    let (vt, _, def) = parse_type_with_modifiers("bool, default(true)").unwrap();
    assert_eq!(vt, ValueType::Bool);
    assert_eq!(def.as_deref(), Some("true"));
}

#[test]
fn enum_with_required_does_not_split_enum_values() {
    let (vt, req, _) =
        parse_type_with_modifiers("enum(a, b, c), required").unwrap();
    assert_eq!(
        vt,
        ValueType::Enum(vec!["a".into(), "b".into(), "c".into()])
    );
    assert!(req);
}

// ── Inline comments ──

#[test]
fn inline_comment_stripped() {
    let schema = load("\
```grammar
document ::= H1(\"T\") item+
item     ::= H2(IDENT) property+
```

```types
@image : string  # podman image name
```
");
    let props = &schema.global_properties;
    assert_eq!(props.get("image").unwrap().value_type, ValueType::String);
}

// ── H3 nesting in grammar ──

#[test]
fn h3_nests_under_h2_in_schema() {
    let schema = load("\
```grammar
document ::= H1(\"Root\") parent
parent   ::= H2(\"Parent\") child+
child    ::= H3(IDENT) property+
```

```types:child
@cmd : string
```
");
    let parent = &schema.nodes[0].children[0];
    assert_eq!(parent.children.len(), 1);

    let child = &parent.children[0];
    assert_eq!(child.production_name.as_deref(), Some("child"));
    assert!(child.expects_properties);
    assert_eq!(child.level, 3);

    let child_props = child.properties.as_ref().unwrap();
    assert!(child_props.contains_key("cmd"));
}

// ── Name patterns ──

#[test]
fn snake_case_pattern() {
    let p = NamePattern::SnakeCase;
    assert!(p.matches("hello_world"));
    assert!(p.matches("a"));
    assert!(!p.matches("Hello"));
    assert!(!p.matches("hello-world"));
    assert!(!p.matches(""));
}

#[test]
fn kebab_case_pattern() {
    let p = NamePattern::KebabCase;
    assert!(p.matches("hello-world"));
    assert!(!p.matches("hello_world"));
    assert!(!p.matches("Hello"));
}

#[test]
fn ident_pattern() {
    let p = NamePattern::Ident;
    assert!(p.matches("hello"));
    assert!(p.matches("Hello"));
    assert!(p.matches("hello_world"));
    assert!(p.matches("hello-world"));
    assert!(!p.matches("123"));
    assert!(!p.matches(""));
}

#[test]
fn exact_pattern() {
    let p = NamePattern::Exact("Container".into());
    assert!(p.matches("Container"));
    assert!(!p.matches("container"));
    assert!(!p.matches("Other"));
}

// ── Circular reference detection ──

#[test]
fn circular_reference_detected() {
    let err = load_schema("\
```grammar
document ::= a
a        ::= b
b        ::= a
```
", "test");
    assert!(err.is_err());
    assert!(err.unwrap_err().contains("circular"));
}

// ── Grammar tokenizer ──

#[test]
fn tokenizer_respects_parens() {
    let tokens = tokenize_grammar("H1(\"Hello World\") item+");
    assert_eq!(tokens, vec!["H1(\"Hello World\")", "item+"]);
}

#[test]
fn tokenizer_multiple_spaces() {
    let tokens = tokenize_grammar("a   b   c");
    assert_eq!(tokens, vec!["a", "b", "c"]);
}

// ── Full sozu-like schema ──

#[test]
fn sozu_schema_structure() {
    let schema = load("\
```grammar
document  ::= agyo tasks?
agyo      ::= H1(\"Agyo\") container servers
container ::= H2(\"Container\") property+
servers   ::= H2(\"Servers\") server+
server    ::= H3(IDENTIFIER) property+
tasks     ::= H1(\"Tasks\") task+
task      ::= H2(IDENTIFIER) prose? property+
```

```types:container
@image   : string, required
@network : string, default(\"outbound\")
@mounts  : list(string)
```

```types:server
@command : string, required
@secrets : list(string)
```

```types:task
@schedule : string, required
@run      : string, required
@log      : bool, default(true)
```
");
    // Two H1 nodes
    assert_eq!(schema.nodes.len(), 2);
    assert_eq!(schema.nodes[0].text.as_deref(), Some("Agyo"));
    assert_eq!(schema.nodes[1].text.as_deref(), Some("Tasks"));
    assert!(matches!(schema.nodes[1].quantity, Quantity::Optional));

    // Agyo has Container and Servers
    assert_eq!(schema.nodes[0].children.len(), 2);
    let container = &schema.nodes[0].children[0];
    assert_eq!(container.production_name.as_deref(), Some("container"));
    let c_props = container.properties.as_ref().unwrap();
    assert!(c_props.get("image").unwrap().required);
    assert_eq!(c_props.get("network").unwrap().default.as_deref(), Some("outbound"));
    assert_eq!(c_props.get("mounts").unwrap().value_type, ValueType::List(Box::new(ValueType::String)));

    // Servers has server children
    let servers_sec = &schema.nodes[0].children[1];
    assert_eq!(servers_sec.children.len(), 1);
    let server = &servers_sec.children[0];
    assert_eq!(server.production_name.as_deref(), Some("server"));
    let s_props = server.properties.as_ref().unwrap();
    assert!(s_props.get("command").unwrap().required);

    // Tasks
    let task = &schema.nodes[1].children[0];
    assert!(task.expects_prose);
    assert!(task.expects_properties);
    let t_props = task.properties.as_ref().unwrap();
    assert_eq!(t_props.get("schedule").unwrap().value_type, ValueType::String);
    assert_eq!(t_props.get("log").unwrap().default.as_deref(), Some("true"));

    // No global properties
    assert!(schema.global_properties.is_empty());
}

