//! Schema-driven validator for structmd documents.
//!
//! Takes a parsed [`Document`] and a loaded [`Schema`] and returns a list of
//! [`Error`]s. The document is valid if the returned list is empty.
//!
//! The meaning of validation is the spec function [`validate_spec`]: the
//! errors of [`unsorted_errors`], stably sorted by line.
use vstd::prelude::*;
use crate::errors::{derive_fix_spec, empty_formatter, error_render_spec, lemma_error_fix_rendered, Error, ErrorView};
use crate::parse::{nodes_view, H1Node, sections_view, lemma_section_view_parts, props_view, Property, Table, TableRow, strings_view, Document, DocumentView, H1NodeView, PropertyView, Section, SectionView, TableRowView, TableView};
use crate::schema::{lemma_section_view, section_schemas_view, SectionSchema, PropertyMap, TableSchema, ValueType, ColumnSchemaView, H1SchemaView, PropertyMapView, PropertySchemaView, Quantity, Schema, SchemaView, SectionSchemaView, TableSchemaView, ValueTypeView, pattern_label, pattern_matches};
use crate::text::{push_char, append_dec, chars_of, dec_string, append_str, count_words_in, f64_text_in, i64_text_in, split_ranges, starts_with_at, str_eq, string_from, string_of, to_lowercase, trim_range, u32_text_in, after, count_words, dec, ends_with, is_f64_text, is_i64_text, is_u32_text, join, lowercase, split_char, starts_with, trim};

verus! {

// ── What validation reports ──

/// What the validator reads besides the document and the schema's tree.
pub ghost struct Rules {
    /// File name written into each error.
    pub file: Seq<char>,
    /// Properties of sections whose production has no scoped `types` block.
    pub global_properties: PropertyMapView,
    /// Table of sections whose production has no scoped `table` block.
    pub global_table: Option<TableSchemaView>,
}

pub open spec fn rules_of(schema: SchemaView, file: Seq<char>) -> Rules {
    Rules {
        file,
        global_properties: schema.global_properties,
        global_table: schema.global_table,
    }
}

pub open spec fn err(
    file: Seq<char>,
    line: nat,
    section: Seq<char>,
    code: Seq<char>,
    key: Seq<char>,
    got: Seq<char>,
    expected: Seq<char>,
    fix: Seq<char>,
) -> ErrorView {
    ErrorView { file, line, section, code, key, got, expected, fix }
}

/// Where a value stands: file, line, section name and property or column name.
pub ghost struct Site {
    pub file: Seq<char>,
    pub line: nat,
    pub section: Seq<char>,
    pub field: Seq<char>,
}

pub open spec fn invalid(at: Site, got: Seq<char>, expected: Seq<char>, fix: Seq<char>) -> ErrorView {
    err(at.file, at.line, at.section, "invalid_value"@, at.field, got, expected, fix)
}

/// The name of a type as error messages give it.
pub open spec fn type_label_spec(t: ValueTypeView) -> Seq<char> {
    match t {
        ValueTypeView::Str => "string"@,
        ValueTypeView::Bool => "bool"@,
        ValueTypeView::Enum(_) => "enum"@,
        ValueTypeView::Integer => "integer"@,
        ValueTypeView::Number => "number"@,
        ValueTypeView::Text => "text"@,
        ValueTypeView::Label => "label"@,
        ValueTypeView::List(_) => "list"@,
        ValueTypeView::Path => "path"@,
        ValueTypeView::Cron => "cron"@,
    }
}

pub open spec fn comma_list(vals: Seq<Seq<char>>) -> Seq<char> {
    join(vals, ", "@)
}

/// `true` or `false` in any letter case: compared after `str::to_lowercase`.
pub open spec fn bool_ok(value: Seq<char>) -> bool {
    lowercase(value) == "true"@ || lowercase(value) == "false"@
}

pub open spec fn is_path_text(value: Seq<char>) -> bool {
    starts_with(value, "/"@) || starts_with(value, "./"@) || starts_with(value, "../"@)
}

pub open spec fn every_prefix() -> Seq<char> {
    "every "@
}

/// `every Nm`, `every Nh` (N a `u32`), or five whitespace-separated fields.
pub open spec fn cron_errors(at: Site, value: Seq<char>) -> Seq<ErrorView> {
    let v = trim(value);
    if starts_with(v, every_prefix()) {
        let rest = trim(after(v, every_prefix()));
        if (ends_with(rest, "m"@) || ends_with(rest, "h"@)) && is_u32_text(rest.drop_last()) {
            seq![]
        } else {
            seq![
                invalid(
                    at,
                    v,
                    "interval: every Nm or every Nh"@,
                    "change `"@ + at.field + "` to `every 5m`, `every 2h`, etc."@,
                ),
            ]
        }
    } else if count_words(v) != 5 {
        seq![
            invalid(
                at,
                v,
                "5-field cron or interval (every Nm/Nh)"@,
                "change `"@ + at.field + "` to `every 5m`, `every 2h`, or `0 5 * * *`"@,
            ),
        ]
    } else {
        seq![]
    }
}

/// The errors for one value of type `t`.
pub open spec fn value_errors(at: Site, value: Seq<char>, t: ValueTypeView) -> Seq<ErrorView>
    decreases t, 0int,
{
    match t {
        ValueTypeView::Label | ValueTypeView::Text => seq![],
        ValueTypeView::Str => if value.len() == 0 {
            seq![invalid(at, "(empty)"@, "non-empty string"@, "set `- "@ + at.field + ": <value>`"@)]
        } else {
            seq![]
        },
        ValueTypeView::Bool => if !bool_ok(value) {
            seq![invalid(at, value, "true or false"@, "change `"@ + at.field + "` to `true` or `false`"@)]
        } else {
            seq![]
        },
        ValueTypeView::Enum(vals) => if !vals.contains(value) {
            seq![invalid(at, value, comma_list(vals), "change `"@ + at.field + "` to one of: "@ + comma_list(vals))]
        } else {
            seq![]
        },
        ValueTypeView::Integer => if !is_i64_text(value) {
            seq![invalid(at, value, "integer"@, "change `"@ + at.field + "` to an integer"@)]
        } else {
            seq![]
        },
        ValueTypeView::Number => if !is_f64_text(value) {
            seq![invalid(at, value, "number"@, "change `"@ + at.field + "` to a number"@)]
        } else {
            seq![]
        },
        ValueTypeView::List(inner) => {
            let pieces = split_char(value, ',');
            list_errors(at, pieces, *inner, pieces.len() as int)
        },
        ValueTypeView::Path => if !is_path_text(value) {
            seq![
                invalid(
                    at,
                    value,
                    "path starting with / or ./"@,
                    "change `"@ + at.field + "` to a path (e.g. `/path/to/thing`)"@,
                ),
            ]
        } else {
            seq![]
        },
        ValueTypeView::Cron => cron_errors(at, value),
    }
}

/// The errors for the non-empty trimmed items among the first `n` comma-separated pieces.
pub open spec fn list_errors(at: Site, pieces: Seq<Seq<char>>, t: ValueTypeView, n: int) -> Seq<
    ErrorView,
>
    decreases t, n,
{
    if n <= 0 || n > pieces.len() {
        seq![]
    } else {
        let item = trim(pieces[n - 1]);
        list_errors(at, pieces, t, n - 1) + if item.len() > 0 {
            value_errors(at, item, t)
        } else {
            seq![]
        }
    }
}

// ── Properties ──

/// The first property of `ps` at or after `i` whose key is `key`.
pub open spec fn first_prop(ps: Seq<PropertyView>, key: Seq<char>, i: int) -> Option<PropertyView>
    decreases ps.len() - i,
{
    if i < 0 || i >= ps.len() {
        None
    } else if ps[i].key == key {
        Some(ps[i])
    } else {
        first_prop(ps, key, i + 1)
    }
}

/// A declared property: missing and required, or present and checked against its type.
pub open spec fn prop_errors(r: Rules, sec: SectionView, key: Seq<char>, ps: PropertySchemaView) -> Seq<ErrorView> {
    let name = sec.heading.text;
    match first_prop(sec.properties, key, 0) {
        None => if ps.required {
            let label = type_label_spec(ps.value_type);
            seq![
                err(
                    r.file,
                    sec.heading.line,
                    name,
                    "missing_property"@,
                    key,
                    seq![],
                    label,
                    "add `- "@ + key + ": <"@ + label + ">`"@,
                ),
            ]
        } else {
            seq![]
        },
        Some(p) => value_errors(Site { file: r.file, line: p.line, section: name, field: key }, p.value, ps.value_type),
    }
}

/// The errors for the first `n` declared properties, in key order.
pub open spec fn props_errors(r: Rules, sec: SectionView, pm: PropertyMapView, n: int) -> Seq<ErrorView>
    decreases n,
{
    if n <= 0 || n > pm.len() {
        seq![]
    } else {
        props_errors(r, sec, pm, n - 1) + prop_errors(r, sec, pm[n - 1].0, pm[n - 1].1)
    }
}

// ── Tables ──

pub open spec fn column_names(cols: Seq<ColumnSchemaView>) -> Seq<Seq<char>> {
    cols.map_values(|c: ColumnSchemaView| c.name)
}

/// Header check of declared column `i`: renamed (compared after `str::to_lowercase`) or missing.
pub open spec fn header_error(r: Rules, name: Seq<char>, tb: TableView, c: ColumnSchemaView, i: nat) -> Seq<ErrorView> {
    let key = "column "@ + dec(i + 1);
    if i < tb.columns.len() {
        if lowercase(tb.columns[i as int]) != lowercase(c.name) {
            seq![
                err(
                    r.file,
                    tb.header_line,
                    name,
                    "column_mismatch"@,
                    key,
                    tb.columns[i as int],
                    c.name,
                    "rename column "@ + dec(i + 1) + " to `"@ + c.name + "`"@,
                ),
            ]
        } else {
            seq![]
        }
    } else {
        seq![err(r.file, tb.header_line, name, "column_mismatch"@, key, seq![], c.name, "add column `"@ + c.name + "`"@)]
    }
}

pub open spec fn header_errors(r: Rules, name: Seq<char>, tb: TableView, cols: Seq<ColumnSchemaView>, n: int) -> Seq<
    ErrorView,
>
    decreases n,
{
    if n <= 0 || n > cols.len() {
        seq![]
    } else {
        header_errors(r, name, tb, cols, n - 1) + header_error(r, name, tb, cols[n - 1], (n - 1) as nat)
    }
}

/// The cells of a row checked against the first `n` declared columns (those the row has).
pub open spec fn cells_errors(r: Rules, name: Seq<char>, row: TableRowView, cols: Seq<ColumnSchemaView>, n: int) -> Seq<
    ErrorView,
>
    decreases n,
{
    if n <= 0 || n > cols.len() {
        seq![]
    } else {
        cells_errors(r, name, row, cols, n - 1) + if n - 1 < row.cells.len() {
            value_errors(
                Site { file: r.file, line: row.line, section: name, field: cols[n - 1].name },
                row.cells[n - 1],
                cols[n - 1].column_type,
            )
        } else {
            seq![]
        }
    }
}

pub open spec fn row_errors(r: Rules, name: Seq<char>, row: TableRowView, cols: Seq<ColumnSchemaView>, width: nat) -> Seq<
    ErrorView,
> {
    (if row.cells.len() != width {
        seq![
            err(
                r.file,
                row.line,
                name,
                "column_mismatch"@,
                seq![],
                dec(row.cells.len()),
                dec(width),
                "row should have "@ + dec(width) + " columns"@,
            ),
        ]
    } else {
        seq![]
    }) + cells_errors(r, name, row, cols, cols.len() as int)
}

pub open spec fn rows_errors(r: Rules, name: Seq<char>, tb: TableView, cols: Seq<ColumnSchemaView>, n: int) -> Seq<
    ErrorView,
>
    decreases n,
{
    if n <= 0 || n > tb.rows.len() {
        seq![]
    } else {
        rows_errors(r, name, tb, cols, n - 1) + row_errors(r, name, tb.rows[n - 1], cols, tb.columns.len())
    }
}

/// A section's table against the declared one.
pub open spec fn table_errors(r: Rules, sec: SectionView, ts: Option<TableSchemaView>) -> Seq<ErrorView> {
    let name = sec.heading.text;
    match ts {
        None => if sec.table is None {
            seq![
                err(
                    r.file,
                    sec.heading.line,
                    name,
                    "missing_table"@,
                    seq![],
                    seq![],
                    seq![],
                    "add a markdown table"@,
                ),
            ]
        } else {
            seq![]
        },
        Some(t) => match sec.table {
            None => {
                let cols = comma_list(column_names(t.columns));
                seq![
                    err(
                        r.file,
                        sec.heading.line,
                        name,
                        "missing_table"@,
                        seq![],
                        seq![],
                        cols,
                        "add table with columns: "@ + cols,
                    ),
                ]
            },
            Some(tb) => header_errors(r, name, tb, t.columns, t.columns.len() as int) + (if tb.rows.len() == 0 {
                seq![
                    err(
                        r.file,
                        tb.header_line,
                        name,
                        "row_count"@,
                        seq![],
                        "0"@,
                        "at least 1"@,
                        "add at least one data row to the table"@,
                    ),
                ]
            } else {
                seq![]
            }) + rows_errors(r, name, tb, t.columns, tb.rows.len() as int),
        },
    }
}

// ── Sections ──

pub open spec fn hashes(n: nat) -> Seq<char> {
    Seq::new(n, |i: int| '#')
}

pub open spec fn props_for(r: Rules, ss: SectionSchemaView) -> PropertyMapView {
    match ss.properties {
        Some(p) => p,
        None => r.global_properties,
    }
}

pub open spec fn table_for(r: Rules, ss: SectionSchemaView) -> Option<TableSchemaView> {
    match ss.table {
        Some(t) => Some(t),
        None => r.global_table,
    }
}

/// An empty heading text.
pub open spec fn name_errors(r: Rules, sec: SectionView) -> Seq<ErrorView> {
    if sec.heading.text.len() == 0 {
        seq![
            err(
                r.file,
                sec.heading.line,
                seq![],
                "invalid_name"@,
                seq![],
                "(empty)"@,
                seq![],
                "add a name after `"@ + hashes(sec.heading.level as nat) + "`"@,
            ),
        ]
    } else {
        seq![]
    }
}

/// Prose the schema asks for and the section lacks.
pub open spec fn prose_errors(r: Rules, sec: SectionView, ss: SectionSchemaView) -> Seq<ErrorView> {
    let name = sec.heading.text;
    if ss.expects_prose && sec.prose is None {
        seq![err(r.file, sec.heading.line, name, "missing_prose"@, seq![], seq![], seq![], "add text after `## "@ + name + "`"@)]
    } else {
        seq![]
    }
}

pub open spec fn section_props_errors(r: Rules, sec: SectionView, ss: SectionSchemaView) -> Seq<ErrorView> {
    if ss.expects_properties {
        props_errors(r, sec, props_for(r, ss), props_for(r, ss).len() as int)
    } else {
        seq![]
    }
}

pub open spec fn section_table_errors(r: Rules, sec: SectionView, ss: SectionSchemaView) -> Seq<ErrorView> {
    if ss.expects_table {
        table_errors(r, sec, table_for(r, ss))
    } else {
        seq![]
    }
}

/// The errors of one document section that matched section schema `ss`.
pub open spec fn section_errors(r: Rules, sec: SectionView, ss: SectionSchemaView) -> Seq<ErrorView>
    decreases ss, 0int,
{
    name_errors(r, sec) + prose_errors(r, sec, ss) + section_props_errors(r, sec, ss) + section_table_errors(r, sec, ss)
        + (if ss.children.len() > 0 {
        sections_errors(r, sec.children, ss.children, ss.children.len() as int)
    } else {
        seq![]
    })
}

/// A document section answers to a section schema: same level, heading matches the pattern.
pub open spec fn is_match(sec: SectionView, ss: SectionSchemaView) -> bool {
    sec.heading.level == ss.level && pattern_matches(ss.name_pattern, sec.heading.text)
}

pub open spec fn match_count(docs: Seq<SectionView>, ss: SectionSchemaView, n: int) -> nat
    decreases n,
{
    if n <= 0 || n > docs.len() {
        0
    } else {
        match_count(docs, ss, n - 1) + if is_match(docs[n - 1], ss) {
            1nat
        } else {
            0nat
        }
    }
}

pub open spec fn matched_errors(r: Rules, docs: Seq<SectionView>, ss: SectionSchemaView, n: int) -> Seq<ErrorView>
    decreases ss, n,
{
    if n <= 0 || n > docs.len() {
        seq![]
    } else {
        matched_errors(r, docs, ss, n - 1) + if is_match(docs[n - 1], ss) {
            section_errors(r, docs[n - 1], ss)
        } else {
            seq![]
        }
    }
}

pub open spec fn section_name(ss: SectionSchemaView) -> Seq<char> {
    match ss.production_name {
        Some(p) => p,
        None => "section"@,
    }
}

/// How many sections answered, against the quantity.
pub open spec fn count_errors(r: Rules, ss: SectionSchemaView, count: nat) -> Seq<ErrorView> {
    let name = section_name(ss);
    if ss.quantity == Quantity::One && count != 1 {
        seq![
            err(
                r.file,
                1,
                name,
                "section_count"@,
                seq![],
                dec(count),
                "1"@,
                "need exactly 1 H"@ + dec(ss.level as nat) + " `"@ + name + "` section"@,
            ),
        ]
    } else if ss.quantity == Quantity::OneOrMore && count == 0 {
        seq![
            err(
                r.file,
                1,
                name,
                "section_count"@,
                seq![],
                "0"@,
                "at least 1"@,
                "add at least 1 H"@ + dec(ss.level as nat) + " section matching `"@ + pattern_label(ss.name_pattern)
                    + "`"@,
            ),
        ]
    } else {
        seq![]
    }
}

/// The errors of document sections `docs` against the first `n` section schemas.
pub open spec fn sections_errors(r: Rules, docs: Seq<SectionView>, scs: Seq<SectionSchemaView>, n: int) -> Seq<
    ErrorView,
>
    decreases scs, n,
{
    if n <= 0 || n > scs.len() {
        seq![]
    } else {
        sections_errors(r, docs, scs, n - 1) + count_errors(r, scs[n - 1], match_count(docs, scs[n - 1], docs.len() as int))
            + matched_errors(r, docs, scs[n - 1], docs.len() as int)
    }
}

// ── H1 nodes ──

/// The first node at or after `i` whose heading text is `text`.
pub open spec fn find_h1(nodes: Seq<H1NodeView>, text: Seq<char>, i: int) -> Option<int>
    decreases nodes.len() - i,
{
    if i < 0 || i >= nodes.len() {
        None
    } else if nodes[i].heading is Some && nodes[i].heading->0.text == text {
        Some(i)
    } else {
        find_h1(nodes, text, i + 1)
    }
}

/// One H1 schema against the document nodes from `idx` on: the next index, and the errors.
pub open spec fn h1_step(r: Rules, nodes: Seq<H1NodeView>, hs: H1SchemaView, idx: int) -> (int, Seq<ErrorView>) {
    match hs.text {
        Some(t) => match find_h1(nodes, t, idx) {
            Some(k) => (k + 1, sections_errors(r, nodes[k].sections, hs.children, hs.children.len() as int)),
            None => (
                idx,
                if hs.quantity == Quantity::Optional || hs.quantity == Quantity::ZeroOrMore {
                    seq![]
                } else {
                    seq![
                        err(r.file, 1, seq![], "missing_section"@, seq![], seq![], "# "@ + t, "add `# "@ + t + "` section"@),
                    ]
                },
            ),
        },
        None => if 0 <= idx < nodes.len() {
            (idx + 1, sections_errors(r, nodes[idx].sections, hs.children, hs.children.len() as int))
        } else {
            (idx, seq![])
        },
    }
}

pub open spec fn h1s_errors(r: Rules, nodes: Seq<H1NodeView>, hss: Seq<H1SchemaView>, n: int) -> (int, Seq<ErrorView>)
    decreases n,
{
    if n <= 0 || n > hss.len() {
        (0, seq![])
    } else {
        let prev = h1s_errors(r, nodes, hss, n - 1);
        let step = h1_step(r, nodes, hss[n - 1], prev.0);
        (step.0, prev.1 + step.1)
    }
}

/// The errors of `doc` against `schema`, in the order they are found.
pub open spec fn unsorted_errors(doc: DocumentView, schema: SchemaView, file: Seq<char>) -> Seq<ErrorView> {
    h1s_errors(rules_of(schema, file), doc.nodes, schema.nodes, schema.nodes.len() as int).1
}

// ── Stable sort by line ──

/// `e` inserted after every error whose line is at most its own.
pub open spec fn insert_by_line(s: Seq<ErrorView>, e: ErrorView) -> Seq<ErrorView>
    decreases s.len(),
{
    if s.len() == 0 {
        seq![e]
    } else if s.last().line <= e.line {
        s.push(e)
    } else {
        insert_by_line(s.drop_last(), e).push(s.last())
    }
}

/// `sort_by_key(|e| e.line)`: a stable sort by line.
pub open spec fn sort_by_line(s: Seq<ErrorView>) -> Seq<ErrorView>
    decreases s.len(),
{
    if s.len() == 0 {
        s
    } else {
        insert_by_line(sort_by_line(s.drop_last()), s.last())
    }
}

/// What validating `doc` against `schema` returns.
pub open spec fn validate_spec(doc: DocumentView, schema: SchemaView, file: Seq<char>) -> Seq<ErrorView> {
    sort_by_line(unsorted_errors(doc, schema, file))
}


// ── Checking values ──

pub open spec fn errors_view(v: Seq<Error>) -> Seq<ErrorView> {
    v.map_values(|e: Error| e@)
}

fn push_error(errors: &mut Vec<Error>, e: Error)
    ensures
        errors_view(final(errors)@) == errors_view(old(errors)@).push(e@),
{
    let ghost before = errors_view(errors@);
    errors.push(e);
    assert(errors_view(errors@) =~= before.push(e@));
}

fn make_error(
    file: &str,
    line: usize,
    section: &str,
    code: &str,
    key: &str,
    got: &str,
    expected: &str,
    fix: String,
) -> (e: Error)
    ensures
        e@ == err(file@, line as nat, section@, code@, key@, got@, expected@, fix@),
{
    Error {
        file: string_from(file),
        line,
        section: string_from(section),
        code: string_from(code),
        key: string_from(key),
        got: string_from(got),
        expected: string_from(expected),
        fix,
    }
}

/// The empty string.
fn empty() -> (r: &'static str)
    ensures
        r@ == Seq::<char>::empty(),
{
    proof {
        reveal_strlit("");
    }
    ""
}

/// `a + b + c` as a new string.
fn concat3(a: &str, b: &str, c: &str) -> (r: String)
    ensures
        r@ == a@ + b@ + c@,
{
    let mut r = string_from(a);
    append_str(&mut r, b);
    append_str(&mut r, c);
    r
}

/// `parts` joined with `sep`.
fn join_with(parts: &Vec<String>, sep: &str) -> (r: String)
    ensures
        r@ == join(strings_view(parts@), sep@),
{
    let ghost ps = strings_view(parts@);
    let mut r = String::new();
    let mut i: usize = 0;
    assert(ps.subrange(0, 0) =~= Seq::<Seq<char>>::empty());
    while i < parts.len()
        invariant
            i <= parts@.len(),
            ps == strings_view(parts@),
            r@ == join(ps.subrange(0, i as int), sep@),
        decreases parts@.len() - i,
    {
        let ghost next = ps.subrange(0, i + 1);
        assert(next.drop_last() =~= ps.subrange(0, i as int));
        assert(next.last() == parts@[i as int]@);
        if i > 0 {
            append_str(&mut r, sep);
        } else {
            assert(next =~= seq![parts@[i as int]@]);
        }
        append_str(&mut r, parts[i].as_str());
        i = i + 1;
    }
    assert(ps.subrange(0, parts@.len() as int) =~= ps);
    r
}

fn enum_has(vals: &Vec<String>, value: &str) -> (r: bool)
    ensures
        r == strings_view(vals@).contains(value@),
{
    let mut i: usize = 0;
    while i < vals.len()
        invariant
            i <= vals@.len(),
            forall|j: int| 0 <= j < i ==> strings_view(vals@)[j] != value@,
        decreases vals@.len() - i,
    {
        if str_eq(vals[i].as_str(), value) {
            assert(strings_view(vals@)[i as int] == value@);
            return true;
        }
        i = i + 1;
    }
    false
}

fn check_cron(file: &str, line: usize, section: &str, field: &str, v: &Vec<char>, lo: usize, hi: usize, errors: &mut Vec<Error>)
    requires
        lo <= hi <= v@.len(),
    ensures
        errors_view(final(errors)@) == errors_view(old(errors)@) + cron_errors(
            Site { file: file@, line: line as nat, section: section@, field: field@ },
            v@.subrange(lo as int, hi as int),
        ),
{
    let ghost at = Site { file: file@, line: line as nat, section: section@, field: field@ };
    let (a, b) = trim_range(v, lo, hi);
    let ghost t = v@.subrange(a as int, b as int);
    let every: &[char] = &['e', 'v', 'e', 'r', 'y', ' '];
    assert(every@ =~= every_prefix()) by {
        reveal_strlit("every ");
    }
    let got = string_of(v, a, b);
    if starts_with_at(v, a, b, every) {
        assert(after(t, every_prefix()) =~= v@.subrange(a + 6, b as int));
        let (ra, rb) = trim_range(v, a + 6, b);
        let ghost rest = v@.subrange(ra as int, rb as int);
        proof {
            reveal_strlit("m");
            reveal_strlit("h");
            crate::text::lemma_ends_with_char(rest, 'm');
            crate::text::lemma_ends_with_char(rest, 'h');
            assert("m"@ =~= seq!['m']);
            assert("h"@ =~= seq!['h']);
            if rest.len() > 0 {
                assert(rest.last() == v@[rb - 1]);
                assert(rest.drop_last() =~= v@.subrange(ra as int, rb - 1));
            }
        }
        if rb > ra && (v[rb - 1] == 'm' || v[rb - 1] == 'h') && u32_text_in(v, ra, rb - 1) {
            assert(errors_view(errors@) + Seq::<ErrorView>::empty() =~= errors_view(errors@));
            return;
        }
        let fix = concat3("change `", field, "` to `every 5m`, `every 2h`, etc.");
        push_error(errors, make_error(file, line, section, "invalid_value", field, got.as_str(), "interval: every Nm or every Nh", fix));
        return;
    }
    if count_words_in(v, a, b) != 5 {
        let fix = concat3("change `", field, "` to `every 5m`, `every 2h`, or `0 5 * * *`");
        push_error(
            errors,
            make_error(file, line, section, "invalid_value", field, got.as_str(), "5-field cron or interval (every Nm/Nh)", fix),
        );
    } else {
        assert(errors_view(errors@) + Seq::<ErrorView>::empty() =~= errors_view(errors@));
    }
}

/// How deeply `list(...)` nests in a type.
pub open spec fn list_depth(t: ValueTypeView) -> nat
    decreases t,
{
    match t {
        ValueTypeView::List(inner) => 1 + list_depth(*inner),
        _ => 0,
    }
}

/// `value` checked against type `t`; what it finds is appended to `errors`.
fn check_value(
    file: &str,
    line: usize,
    section: &str,
    field: &str,
    v: &Vec<char>,
    lo: usize,
    hi: usize,
    t: &ValueType,
    errors: &mut Vec<Error>,
)
    requires
        lo <= hi <= v@.len(),
    ensures
        errors_view(final(errors)@) == errors_view(old(errors)@) + value_errors(
            Site { file: file@, line: line as nat, section: section@, field: field@ },
            v@.subrange(lo as int, hi as int),
            t@,
        ),
    decreases list_depth(t@),
{
    let ghost at = Site { file: file@, line: line as nat, section: section@, field: field@ };
    let ghost value = v@.subrange(lo as int, hi as int);
    let ghost before = errors_view(errors@);
    let got = string_of(v, lo, hi);
    match t {
        ValueType::Label => {
            assert(before + Seq::<ErrorView>::empty() =~= before);
        },
        ValueType::Text => {
            assert(before + Seq::<ErrorView>::empty() =~= before);
        },
        ValueType::String => {
            if lo == hi {
                let fix = concat3("set `- ", field, ": <value>`");
                push_error(errors, make_error(file, line, section, "invalid_value", field, "(empty)", "non-empty string", fix));
            } else {
                assert(before + Seq::<ErrorView>::empty() =~= before);
            }
        },
        ValueType::Bool => {
            let lower = to_lowercase(got.as_str());
            let ok = str_eq(lower.as_str(), "true") || str_eq(lower.as_str(), "false");
            if !ok {
                let fix = concat3("change `", field, "` to `true` or `false`");
                push_error(errors, make_error(file, line, section, "invalid_value", field, got.as_str(), "true or false", fix));
            } else {
                assert(before + Seq::<ErrorView>::empty() =~= before);
            }
        },
        ValueType::Enum(vals) => {
            assert(vals@.map_values(|s: String| s@) == strings_view(vals@));
            if !enum_has(vals, got.as_str()) {
                let listed = join_with(vals, ", ");
                let fix = concat3("change `", field, "` to one of: ");
                let mut fix = fix;
                append_str(&mut fix, listed.as_str());
                push_error(errors, make_error(file, line, section, "invalid_value", field, got.as_str(), listed.as_str(), fix));
            } else {
                assert(before + Seq::<ErrorView>::empty() =~= before);
            }
        },
        ValueType::Integer => {
            if !i64_text_in(v, lo, hi) {
                let fix = concat3("change `", field, "` to an integer");
                push_error(errors, make_error(file, line, section, "invalid_value", field, got.as_str(), "integer", fix));
            } else {
                assert(before + Seq::<ErrorView>::empty() =~= before);
            }
        },
        ValueType::Number => {
            if !f64_text_in(v, lo, hi) {
                let fix = concat3("change `", field, "` to a number");
                push_error(errors, make_error(file, line, section, "invalid_value", field, got.as_str(), "number", fix));
            } else {
                assert(before + Seq::<ErrorView>::empty() =~= before);
            }
        },
        ValueType::List(inner) => {
            assert(t@ == ValueTypeView::List(Box::new((**inner)@)));
            let ranges = split_ranges(v, lo, hi, ',');
            let ghost pieces = split_char(value, ',');
            let mut i: usize = 0;
            while i < ranges.len()
                invariant
                    i <= ranges@.len(),
                    lo <= hi <= v@.len(),
                    forall|k: int| 0 <= k < ranges@.len() ==> lo <= (#[trigger] ranges@[k]).0 <= ranges@[k].1 <= hi,
                    ranges@.map_values(|p: (usize, usize)| v@.subrange(p.0 as int, p.1 as int)) == pieces,
                    errors_view(errors@) == before + list_errors(at, pieces, (**inner)@, i as int),
                    t@ == ValueTypeView::List(Box::new((**inner)@)),
                    at == (Site { file: file@, line: line as nat, section: section@, field: field@ }),
                    pieces == split_char(value, ','),
                    value == v@.subrange(lo as int, hi as int),
                decreases ranges@.len() - i,
            {
                let (x, y) = ranges[i];
                assert(pieces[i as int] == v@.subrange(x as int, y as int));
                let (a, b) = trim_range(v, x, y);
                let ghost mid = errors_view(errors@);
                if a < b {
                    check_value(file, line, section, field, v, a, b, inner, errors);
                } else {
                    assert(mid + Seq::<ErrorView>::empty() =~= mid);
                }
                assert(before + list_errors(at, pieces, (**inner)@, i + 1) =~= before + list_errors(
                    at,
                    pieces,
                    (**inner)@,
                    i as int,
                ) + (if v@.subrange(a as int, b as int).len() > 0 {
                    value_errors(at, v@.subrange(a as int, b as int), (**inner)@)
                } else {
                    Seq::<ErrorView>::empty()
                }));
                i = i + 1;
            }
        },
        ValueType::Path => {
            let dot: &[char] = &['.', '/'];
            let dotdot: &[char] = &['.', '.', '/'];
            let ok = (lo < hi && v[lo] == '/') || starts_with_at(v, lo, hi, dot) || starts_with_at(v, lo, hi, dotdot);
            proof {
                reveal_strlit("/");
                reveal_strlit("./");
                reveal_strlit("../");
                crate::text::lemma_starts_with_char(value, '/');
                assert("/"@ =~= seq!['/']);
                assert(dot@ =~= "./"@);
                assert(dotdot@ =~= "../"@);
                if value.len() > 0 {
                    assert(value[0] == v@[lo as int]);
                }
            }
            if !ok {
                let fix = concat3("change `", field, "` to a path (e.g. `/path/to/thing`)");
                push_error(
                    errors,
                    make_error(file, line, section, "invalid_value", field, got.as_str(), "path starting with / or ./", fix),
                );
            } else {
                assert(before + Seq::<ErrorView>::empty() =~= before);
            }
        },
        ValueType::Cron => {
            check_cron(file, line, section, field, v, lo, hi, errors);
        },
    }
}


// ── Checking properties and tables ──

/// The name of a type as error messages give it.
fn type_label(t: &ValueType) -> (r: &'static str)
    ensures
        r@ == type_label_spec(t@),
{
    match t {
        ValueType::String => "string",
        ValueType::Bool => "bool",
        ValueType::Enum(_) => "enum",
        ValueType::Integer => "integer",
        ValueType::Number => "number",
        ValueType::Text => "text",
        ValueType::Label => "label",
        ValueType::List(_) => "list",
        ValueType::Path => "path",
        ValueType::Cron => "cron",
    }
}

fn find_prop(props: &Vec<Property>, key: &str) -> (r: Option<usize>)
    ensures
        match r {
            Some(i) => i < props@.len() && first_prop(props_view(props@), key@, 0) == Some(props@[i as int]@),
            None => first_prop(props_view(props@), key@, 0) is None,
        },
{
    let ghost ps = props_view(props@);
    let mut i: usize = 0;
    while i < props.len()
        invariant
            i <= props@.len(),
            ps == props_view(props@),
            first_prop(ps, key@, 0) == first_prop(ps, key@, i as int),
        decreases props@.len() - i,
    {
        if str_eq(props[i].key.as_str(), key) {
            return Some(i);
        }
        i = i + 1;
    }
    None
}

fn check_props(r: Ghost<Rules>, file: &str, sec: &Section, pm: &PropertyMap, errors: &mut Vec<Error>)
    requires
        r@.file == file@,
    ensures
        errors_view(final(errors)@) == errors_view(old(errors)@) + props_errors(
            r@,
            sec@,
            pm@,
            pm@.len() as int,
        ),
{
    let ghost before = errors_view(errors@);
    proof {
        lemma_section_view_parts(*sec);
    }
    let name = sec.heading.text.as_str();
    let lineno = sec.heading.line;
    let mut i: usize = 0;
    while i < pm.len()
        invariant
            i <= pm@.len(),
            r@.file == file@,
            name@ == sec@.heading.text,
            lineno == sec@.heading.line,
            sec@.properties == props_view(sec.properties@),
            errors_view(errors@) == before + props_errors(r@, sec@, pm@, i as int),
        decreases pm@.len() - i,
    {
        let key = pm.key_at(i);
        let ps = pm.value_at(i);
        let ghost mid = errors_view(errors@);
        match find_prop(&sec.properties, key) {
            None => {
                if ps.required {
                    let label = type_label(&ps.value_type);
                    let mut fix = concat3("add `- ", key, ": <");
                    append_str(&mut fix, label);
                    append_str(&mut fix, ">`");
                    push_error(errors, make_error(file, lineno, name, "missing_property", key, empty(), label, fix));
                } else {
                    assert(mid + Seq::<ErrorView>::empty() =~= mid);
                }
            },
            Some(k) => {
                let p = &sec.properties[k];
                let pv = chars_of(p.value.as_str());
                assert(pv@.subrange(0, pv@.len() as int) =~= pv@);
                check_value(file, p.line, name, key, &pv, 0, pv.len(), &ps.value_type, errors);
            },
        }
        assert(props_errors(r@, sec@, pm@, i + 1) == props_errors(r@, sec@, pm@, i as int) + prop_errors(
            r@,
            sec@,
            pm@[i as int].0,
            pm@[i as int].1,
        ));
        assert(before + props_errors(r@, sec@, pm@, i + 1) =~= mid + prop_errors(r@, sec@, pm@[i as int].0, pm@[i as int].1));
        i = i + 1;
    }
}

/// `"column " + (i + 1)`.
fn column_key(i: usize) -> (r: String)
    requires
        i < usize::MAX,
    ensures
        r@ == "column "@ + dec((i + 1) as nat),
{
    let mut r = string_from("column ");
    append_dec(&mut r, i + 1);
    r
}

fn check_header(r: Ghost<Rules>, file: &str, name: &str, tb: &Table, ts: &TableSchema, errors: &mut Vec<Error>)
    requires
        r@.file == file@,
    ensures
        errors_view(final(errors)@) == errors_view(old(errors)@) + header_errors(
            r@,
            name@,
            tb@,
            ts@.columns,
            ts@.columns.len() as int,
        ),
{
    let ghost before = errors_view(errors@);
    let mut i: usize = 0;
    while i < ts.columns.len()
        invariant
            i <= ts.columns@.len(),
            r@.file == file@,
            errors_view(errors@) == before + header_errors(r@, name@, tb@, ts@.columns, i as int),
        decreases ts.columns@.len() - i,
    {
        let c = &ts.columns[i];
        assert(ts@.columns[i as int] == c@);
        let ghost mid = errors_view(errors@);
        let key = column_key(i);
        if i < tb.columns.len() {
            let got = tb.columns[i].as_str();
            let a = to_lowercase(got);
            let b = to_lowercase(c.name.as_str());
            if !str_eq(a.as_str(), b.as_str()) {
                let mut fix = string_from("rename column ");
                append_dec(&mut fix, i + 1);
                append_str(&mut fix, " to `");
                append_str(&mut fix, c.name.as_str());
                append_str(&mut fix, "`");
                push_error(
                    errors,
                    make_error(file, tb.header_line, name, "column_mismatch", key.as_str(), got, c.name.as_str(), fix),
                );
                assert(errors_view(errors@) == mid + header_error(r@, name@, tb@, c@, i as nat));
            } else {
                assert(mid + Seq::<ErrorView>::empty() =~= mid);
            }
        } else {
            let fix = concat3("add column `", c.name.as_str(), "`");
            push_error(errors, make_error(file, tb.header_line, name, "column_mismatch", key.as_str(), empty(), c.name.as_str(), fix));
        }
        assert(before + header_errors(r@, name@, tb@, ts@.columns, i + 1) =~= mid + header_error(
            r@,
            name@,
            tb@,
            c@,
            i as nat,
        ));
        i = i + 1;
    }
}

fn check_row(r: Ghost<Rules>, file: &str, name: &str, row: &TableRow, width: usize, ts: &TableSchema, errors: &mut Vec<Error>)
    requires
        r@.file == file@,
    ensures
        errors_view(final(errors)@) == errors_view(old(errors)@) + row_errors(
            r@,
            name@,
            row@,
            ts@.columns,
            width as nat,
        ),
{
    let ghost before = errors_view(errors@);
    let n = row.cells.len();
    if n != width {
        let got = dec_string(n);
        let expected = dec_string(width);
        let mut fix = string_from("row should have ");
        append_dec(&mut fix, width);
        append_str(&mut fix, " columns");
        push_error(errors, make_error(file, row.line, name, "column_mismatch", empty(), got.as_str(), expected.as_str(), fix));
    } else {
        assert(before + Seq::<ErrorView>::empty() =~= before);
    }
    let ghost after_width = errors_view(errors@);
    let mut i: usize = 0;
    while i < ts.columns.len()
        invariant
            i <= ts.columns@.len(),
            r@.file == file@,
            errors_view(errors@) == after_width + cells_errors(r@, name@, row@, ts@.columns, i as int),
        decreases ts.columns@.len() - i,
    {
        let c = &ts.columns[i];
        assert(ts@.columns[i as int] == c@);
        let ghost mid = errors_view(errors@);
        if i < row.cells.len() {
            let cv = chars_of(row.cells[i].as_str());
            assert(cv@.subrange(0, cv@.len() as int) =~= cv@);
            assert(row@.cells[i as int] == cv@);
            check_value(file, row.line, name, c.name.as_str(), &cv, 0, cv.len(), &c.column_type, errors);
        } else {
            assert(mid + Seq::<ErrorView>::empty() =~= mid);
        }
        assert(after_width + cells_errors(r@, name@, row@, ts@.columns, i + 1) =~= after_width + cells_errors(
            r@,
            name@,
            row@,
            ts@.columns,
            i as int,
        ) + (if i < row@.cells.len() {
            value_errors(
                Site { file: file@, line: row@.line, section: name@, field: c@.name },
                row@.cells[i as int],
                c@.column_type,
            )
        } else {
            Seq::<ErrorView>::empty()
        }));
        i = i + 1;
    }
}

fn column_names_of(ts: &TableSchema) -> (r: Vec<String>)
    ensures
        strings_view(r@) == column_names(ts@.columns),
{
    let mut r: Vec<String> = Vec::new();
    let mut i: usize = 0;
    while i < ts.columns.len()
        invariant
            i <= ts.columns@.len(),
            strings_view(r@) == column_names(ts@.columns).take(i as int),
        decreases ts.columns@.len() - i,
    {
        let ghost before = strings_view(r@);
        r.push(ts.columns[i].name.clone());
        assert(strings_view(r@) =~= before.push(ts.columns@[i as int].name@));
        assert(column_names(ts@.columns).take(i + 1) =~= column_names(ts@.columns).take(i as int).push(
            ts@.columns[i as int].name,
        ));
        i = i + 1;
    }
    assert(column_names(ts@.columns).take(ts.columns@.len() as int) =~= column_names(ts@.columns));
    r
}

fn check_table(r: Ghost<Rules>, file: &str, sec: &Section, ts: Option<&TableSchema>, errors: &mut Vec<Error>)
    requires
        r@.file == file@,
    ensures
        errors_view(final(errors)@) == errors_view(old(errors)@) + table_errors(
            r@,
            sec@,
            match ts {
                Some(t) => Some(t@),
                None => None,
            },
        ),
{
    let ghost before = errors_view(errors@);
    proof {
        lemma_section_view_parts(*sec);
    }
    let name = sec.heading.text.as_str();
    match ts {
        None => {
            if sec.table.is_none() {
                push_error(
                    errors,
                    make_error(
                        file,
                        sec.heading.line,
                        name,
                        "missing_table",
                        empty(),
                        empty(),
                        empty(),
                        string_from("add a markdown table"),
                    ),
                );
            } else {
                assert(before + Seq::<ErrorView>::empty() =~= before);
            }
        },
        Some(t) => match &sec.table {
            None => {
                let names = column_names_of(t);
                let cols = join_with(&names, ", ");
                let mut fix = string_from("add table with columns: ");
                append_str(&mut fix, cols.as_str());
                push_error(errors, make_error(file, sec.heading.line, name, "missing_table", empty(), empty(), cols.as_str(), fix));
            },
            Some(tb) => {
                check_header(r, file, name, tb, t, errors);
                let ghost after_header = errors_view(errors@);
                if tb.rows.len() == 0 {
                    push_error(
                        errors,
                        make_error(
                            file,
                            tb.header_line,
                            name,
                            "row_count",
                            empty(),
                            "0",
                            "at least 1",
                            string_from("add at least one data row to the table"),
                        ),
                    );
                } else {
                    assert(after_header + Seq::<ErrorView>::empty() =~= after_header);
                }
                let ghost after_count = errors_view(errors@);
                let width = tb.columns.len();
                let mut i: usize = 0;
                while i < tb.rows.len()
                    invariant
                        i <= tb.rows@.len(),
                        width == tb@.columns.len(),
                        r@.file == file@,
                        errors_view(errors@) == after_count + rows_errors(r@, name@, tb@, t@.columns, i as int),
                    decreases tb.rows@.len() - i,
                {
                    assert(tb@.rows[i as int] == tb.rows@[i as int]@);
                    let ghost mid = errors_view(errors@);
                    check_row(r, file, name, &tb.rows[i], width, t, errors);
                    assert(after_count + rows_errors(r@, name@, tb@, t@.columns, i + 1) =~= mid + row_errors(
                        r@,
                        name@,
                        tb@.rows[i as int],
                        t@.columns,
                        width as nat,
                    ));
                    i = i + 1;
                }
                assert(errors_view(errors@) =~= before + (header_errors(r@, name@, tb@, t@.columns, t@.columns.len() as int)
                    + (after_count.subrange(after_header.len() as int, after_count.len() as int)) + rows_errors(
                    r@,
                    name@,
                    tb@,
                    t@.columns,
                    tb@.rows.len() as int,
                )));
            },
        },
    }
}


// ── Checking sections ──

fn hashes_string(n: u8) -> (r: String)
    ensures
        r@ == hashes(n as nat),
{
    let mut r = String::new();
    let mut i: u8 = 0;
    while i < n
        invariant
            i <= n,
            r@ == hashes(i as nat),
        decreases n - i,
    {
        push_char(&mut r, '#');
        assert(r@ =~= hashes((i + 1) as nat));
        i = i + 1;
    }
    r
}

fn is_match_exec(sec: &Section, ss: &SectionSchema) -> (b: bool)
    ensures
        b == is_match(sec@, ss@),
{
    proof {
        lemma_section_view_parts(*sec);
        lemma_section_view(*ss);
    }
    sec.heading.level == ss.level && ss.name_pattern.matches(sec.heading.text.as_str())
}

fn section_name_of(ss: &SectionSchema) -> (r: &str)
    ensures
        r@ == section_name(ss@),
{
    proof {
        lemma_section_view(*ss);
    }
    match &ss.production_name {
        Some(p) => p.as_str(),
        None => "section",
    }
}

fn check_count(r: Ghost<Rules>, file: &str, ss: &SectionSchema, count: usize, errors: &mut Vec<Error>)
    requires
        r@.file == file@,
    ensures
        errors_view(final(errors)@) == errors_view(old(errors)@) + count_errors(r@, ss@, count as nat),
{
    proof {
        lemma_section_view(*ss);
    }
    let ghost before = errors_view(errors@);
    let name = section_name_of(ss);
    if ss.quantity == Quantity::One && count != 1 {
        let got = dec_string(count);
        let mut fix = string_from("need exactly 1 H");
        append_dec(&mut fix, ss.level as usize);
        append_str(&mut fix, " `");
        append_str(&mut fix, name);
        append_str(&mut fix, "` section");
        push_error(errors, make_error(file, 1, name, "section_count", empty(), got.as_str(), "1", fix));
    } else if ss.quantity == Quantity::OneOrMore && count == 0 {
        let mut fix = string_from("add at least 1 H");
        append_dec(&mut fix, ss.level as usize);
        append_str(&mut fix, " section matching `");
        append_str(&mut fix, ss.name_pattern.label());
        append_str(&mut fix, "`");
        push_error(errors, make_error(file, 1, name, "section_count", empty(), "0", "at least 1", fix));
    } else {
        assert(before + Seq::<ErrorView>::empty() =~= before);
    }
}

fn check_name(r: Ghost<Rules>, file: &str, sec: &Section, errors: &mut Vec<Error>)
    requires
        r@.file == file@,
    ensures
        errors_view(final(errors)@) == errors_view(old(errors)@) + name_errors(r@, sec@),
{
    proof {
        lemma_section_view_parts(*sec);
    }
    let ghost before = errors_view(errors@);
    if sec.heading.text.as_str().is_empty() {
        let h = hashes_string(sec.heading.level);
        let fix = concat3("add a name after `", h.as_str(), "`");
        push_error(errors, make_error(file, sec.heading.line, empty(), "invalid_name", empty(), "(empty)", empty(), fix));
    } else {
        assert(before + Seq::<ErrorView>::empty() =~= before);
    }
}

fn check_prose(r: Ghost<Rules>, file: &str, sec: &Section, ss: &SectionSchema, errors: &mut Vec<Error>)
    requires
        r@.file == file@,
    ensures
        errors_view(final(errors)@) == errors_view(old(errors)@) + prose_errors(r@, sec@, ss@),
{
    proof {
        lemma_section_view_parts(*sec);
        lemma_section_view(*ss);
    }
    let ghost before = errors_view(errors@);
    if ss.expects_prose && sec.prose.is_none() {
        let name = sec.heading.text.as_str();
        let fix = concat3("add text after `## ", name, "`");
        push_error(errors, make_error(file, sec.heading.line, name, "missing_prose", empty(), empty(), empty(), fix));
    } else {
        assert(before + Seq::<ErrorView>::empty() =~= before);
    }
}

fn check_section_props(
    r: Ghost<Rules>,
    file: &str,
    schema: &Schema,
    sec: &Section,
    ss: &SectionSchema,
    errors: &mut Vec<Error>,
)
    requires
        r@ == rules_of(schema@, file@),
    ensures
        errors_view(final(errors)@) == errors_view(old(errors)@) + section_props_errors(r@, sec@, ss@),
{
    proof {
        lemma_section_view(*ss);
    }
    let ghost before = errors_view(errors@);
    if ss.expects_properties {
        let pm = match &ss.properties {
            Some(p) => p,
            None => &schema.global_properties,
        };
        check_props(r, file, sec, pm, errors);
    } else {
        assert(before + Seq::<ErrorView>::empty() =~= before);
    }
}

fn check_section_table(
    r: Ghost<Rules>,
    file: &str,
    schema: &Schema,
    sec: &Section,
    ss: &SectionSchema,
    errors: &mut Vec<Error>,
)
    requires
        r@ == rules_of(schema@, file@),
    ensures
        errors_view(final(errors)@) == errors_view(old(errors)@) + section_table_errors(r@, sec@, ss@),
{
    proof {
        lemma_section_view(*ss);
    }
    let ghost before = errors_view(errors@);
    if ss.expects_table {
        let ts = match &ss.table {
            Some(t) => Some(t),
            None => schema.global_table.as_ref(),
        };
        check_table(r, file, sec, ts, errors);
    } else {
        assert(before + Seq::<ErrorView>::empty() =~= before);
    }
}

#[verifier::rlimit(80)]
fn check_section(
    r: Ghost<Rules>,
    file: &str,
    schema: &Schema,
    sec: &Section,
    ss: &SectionSchema,
    errors: &mut Vec<Error>,
)
    requires
        r@ == rules_of(schema@, file@),
    ensures
        errors_view(final(errors)@) == errors_view(old(errors)@) + section_errors(r@, sec@, ss@),
    decreases ss@, 0int,
{
    proof {
        lemma_section_view_parts(*sec);
        lemma_section_view(*ss);
    }
    let ghost before = errors_view(errors@);
    check_name(r, file, sec, errors);
    let ghost e1 = errors_view(errors@);
    check_prose(r, file, sec, ss, errors);
    let ghost e2 = errors_view(errors@);
    check_section_props(r, file, schema, sec, ss, errors);
    let ghost e3 = errors_view(errors@);
    check_section_table(r, file, schema, sec, ss, errors);
    let ghost e4 = errors_view(errors@);
    assert(e4 == e3 + section_table_errors(r@, sec@, ss@));
    if ss.children.len() > 0 {
        check_sections(r, file, schema, &sec.children, &ss.children, errors);
    } else {
        assert(e4 + Seq::<ErrorView>::empty() =~= e4);
    }
    assert(errors_view(errors@) =~= before + section_errors(r@, sec@, ss@));
}

fn check_sections(
    r: Ghost<Rules>,
    file: &str,
    schema: &Schema,
    docs: &Vec<Section>,
    scs: &Vec<SectionSchema>,
    errors: &mut Vec<Error>,
)
    requires
        r@ == rules_of(schema@, file@),
    ensures
        errors_view(final(errors)@) == errors_view(old(errors)@) + sections_errors(
            r@,
            sections_view(docs@),
            section_schemas_view(scs@),
            scs@.len() as int,
        ),
    decreases section_schemas_view(scs@), 1int,
{
    let ghost before = errors_view(errors@);
    let ghost dv = sections_view(docs@);
    let ghost sv = section_schemas_view(scs@);
    let mut i: usize = 0;
    while i < scs.len()
        invariant
            i <= scs@.len(),
            r@ == rules_of(schema@, file@),
            dv == sections_view(docs@),
            sv == section_schemas_view(scs@),
            errors_view(errors@) == before + sections_errors(r@, dv, sv, i as int),
        decreases scs@.len() - i,
    {
        let ss = &scs[i];
        assert(sv[i as int] == ss@);
        let ghost e0 = errors_view(errors@);
        let mut count: usize = 0;
        let mut j: usize = 0;
        while j < docs.len()
            invariant
                j <= docs@.len(),
                count <= j,
                dv == sections_view(docs@),
                count == match_count(dv, ss@, j as int),
            decreases docs@.len() - j,
        {
            assert(dv[j as int] == docs@[j as int]@);
            if is_match_exec(&docs[j], ss) {
                count = count + 1;
            }
            j = j + 1;
        }
        check_count(r, file, ss, count, errors);
        let ghost e1 = errors_view(errors@);
        let mut j: usize = 0;
        while j < docs.len()
            invariant
                j <= docs@.len(),
                i < scs@.len(),
                r@ == rules_of(schema@, file@),
                dv == sections_view(docs@),
                sv == section_schemas_view(scs@),
                sv[i as int] == ss@,
                decreases_to!(sv => ss@),
                errors_view(errors@) == e1 + matched_errors(r@, dv, ss@, j as int),
            decreases docs@.len() - j,
        {
            assert(dv[j as int] == docs@[j as int]@);
            let ghost m0 = errors_view(errors@);
            if is_match_exec(&docs[j], ss) {
                check_section(r, file, schema, &docs[j], ss, errors);
            } else {
                assert(m0 + Seq::<ErrorView>::empty() =~= m0);
            }
            assert(e1 + matched_errors(r@, dv, ss@, j + 1) =~= m0 + (if is_match(dv[j as int], ss@) {
                section_errors(r@, dv[j as int], ss@)
            } else {
                Seq::<ErrorView>::empty()
            }));
            j = j + 1;
        }
        assert(before + sections_errors(r@, dv, sv, i + 1) =~= e0 + count_errors(r@, ss@, match_count(dv, ss@, dv.len() as int))
            + matched_errors(r@, dv, ss@, dv.len() as int));
        i = i + 1;
    }
}


// ── Validating a document ──

fn find_h1_exec(nodes: &Vec<H1Node>, text: &str, start: usize) -> (r: Option<usize>)
    ensures
        match r {
            Some(k) => k < nodes@.len() && find_h1(nodes_view(nodes@), text@, start as int) == Some(k as int),
            None => find_h1(nodes_view(nodes@), text@, start as int) is None,
        },
{
    let ghost nv = nodes_view(nodes@);
    let mut k = start;
    while k < nodes.len()
        invariant
            start <= k,
            nv == nodes_view(nodes@),
            find_h1(nv, text@, start as int) == find_h1(nv, text@, k as int),
        decreases nodes@.len() - k,
    {
        assert(nv[k as int] == nodes@[k as int]@);
        match &nodes[k].heading {
            Some(h) => {
                if str_eq(h.text.as_str(), text) {
                    return Some(k);
                }
            },
            None => {},
        }
        k = k + 1;
    }
    None
}

/// The errors of `doc` against `schema`, in the order they are found.
pub(crate) fn collect_errors(file: &str, doc: &Document, schema: &Schema) -> (errors: Vec<Error>)
    ensures
        errors_view(errors@) == unsorted_errors(doc@, schema@, file@),
{
    let ghost r = rules_of(schema@, file@);
    let ghost nodes = doc@.nodes;
    let ghost hss = schema@.nodes;
    let mut errors: Vec<Error> = Vec::new();
    assert(errors_view(errors@) =~= Seq::<ErrorView>::empty());
    let mut idx: usize = 0;
    let mut n: usize = 0;
    while n < schema.nodes.len()
        invariant
            n <= schema.nodes@.len(),
            r == rules_of(schema@, file@),
            nodes == doc@.nodes,
            hss == schema@.nodes,
            idx <= doc.nodes@.len(),
            h1s_errors(r, nodes, hss, n as int) == (idx as int, errors_view(errors@)),
        decreases schema.nodes@.len() - n,
    {
        let hs = &schema.nodes[n];
        assert(hss[n as int] == hs@);
        let ghost e0 = errors_view(errors@);
        let ghost i0 = idx as int;
        match &hs.text {
            Some(t) => match find_h1_exec(&doc.nodes, t.as_str(), idx) {
                Some(k) => {
                    let total = doc.nodes.len();
                    assert(k < total);
                    assert(nodes[k as int] == doc.nodes@[k as int]@);
                    check_sections(Ghost(r), file, schema, &doc.nodes[k].sections, &hs.children, &mut errors);
                    idx = k + 1;
                },
                None => {
                    if hs.quantity == Quantity::Optional || hs.quantity == Quantity::ZeroOrMore {
                        assert(e0 + Seq::<ErrorView>::empty() =~= e0);
                    } else {
                        let expected = concat3("# ", t.as_str(), "");
                        let fix = concat3("add `# ", t.as_str(), "` section");
                        proof {
                            reveal_strlit("");
                            assert(expected@ =~= "# "@ + t@);
                        }
                        push_error(
                            &mut errors,
                            make_error(file, 1, empty(), "missing_section", empty(), empty(), expected.as_str(), fix),
                        );
                    }
                },
            },
            None => {
                if idx < doc.nodes.len() {
                    assert(nodes[idx as int] == doc.nodes@[idx as int]@);
                    check_sections(Ghost(r), file, schema, &doc.nodes[idx].sections, &hs.children, &mut errors);
                    idx = idx + 1;
                } else {
                    assert(e0 + Seq::<ErrorView>::empty() =~= e0);
                }
            },
        }
        assert(errors_view(errors@) == e0 + h1_step(r, nodes, hss[n as int], i0).1);
        n = n + 1;
    }
    errors
}

proof fn lemma_insert_position(s: Seq<ErrorView>, e: ErrorView, p: int)
    requires
        0 <= p <= s.len(),
        forall|j: int| p <= j < s.len() ==> (#[trigger] s[j]).line > e.line,
        p == 0 || s[p - 1].line <= e.line,
    ensures
        insert_by_line(s, e) == s.take(p) + seq![e] + s.skip(p),
    decreases s.len() - p,
{
    if p == s.len() {
        if p == 0 {
            assert(s.take(p) + seq![e] + s.skip(p) =~= seq![e]);
        } else {
            assert(s.take(p) + seq![e] + s.skip(p) =~= s.push(e));
        }
    } else {
        let t = s.drop_last();
        assert forall|j: int| p <= j < t.len() implies (#[trigger] t[j]).line > e.line by {
            assert(t[j] == s[j]);
        }
        if p > 0 {
            assert(t[p - 1] == s[p - 1]);
        }
        lemma_insert_position(t, e, p);
        assert(s.take(p) + seq![e] + s.skip(p) =~= (t.take(p) + seq![e] + t.skip(p)).push(s.last()));
    }
}

/// A stable sort by line, by insertion.
pub(crate) fn sort_errors(errors: Vec<Error>) -> (r: Vec<Error>)
    ensures
        errors_view(r@) == sort_by_line(errors_view(errors@)),
{
    let ghost orig = errors_view(errors@);
    let n = errors.len();
    let mut rest = errors;
    let mut rev: Vec<Error> = Vec::new();
    while rest.len() > 0
        invariant
            rest@.len() + rev@.len() == n,
            n == orig.len(),
            errors_view(rest@) == orig.take(rest@.len() as int),
            forall|j: int| 0 <= j < rev@.len() ==> (#[trigger] rev@[j])@ == orig[n - 1 - j],
        decreases rest@.len(),
    {
        let ghost before = rest@;
        let e = rest.pop().unwrap();
        assert(e@ == orig[rest@.len() as int]) by {
            assert(errors_view(before)[before.len() - 1] == e@);
        }
        assert(errors_view(rest@) =~= orig.take(rest@.len() as int)) by {
            assert(errors_view(rest@) =~= errors_view(before).drop_last());
        }
        rev.push(e);
    }
    let mut out: Vec<Error> = Vec::new();
    let mut k: usize = 0;
    assert(errors_view(out@) =~= sort_by_line(orig.take(0)));
    while rev.len() > 0
        invariant
            k + rev@.len() == n,
            n == orig.len(),
            forall|j: int| 0 <= j < rev@.len() ==> (#[trigger] rev@[j])@ == orig[n - 1 - j],
            errors_view(out@) == sort_by_line(orig.take(k as int)),
        decreases rev@.len(),
    {
        let ghost s = errors_view(out@);
        let e = rev.pop().unwrap();
        assert(e@ == orig[k as int]);
        let mut p = out.len();
        while p > 0 && out[p - 1].line > e.line
            invariant
                p <= out@.len(),
                s == errors_view(out@),
                forall|j: int| p <= j < s.len() ==> (#[trigger] s[j]).line > e@.line,
            decreases p,
        {
            assert(s[p - 1] == out@[p - 1]@);
            p = p - 1;
        }
        proof {
            if p > 0 {
                assert(s[p - 1] == out@[p - 1]@);
            }
            lemma_insert_position(s, e@, p as int);
            assert(orig.take(k + 1).drop_last() =~= orig.take(k as int));
        }
        let ghost ev = e@;
        out.insert(p, e);
        assert(errors_view(out@) =~= s.take(p as int) + seq![ev] + s.skip(p as int));
        k = k + 1;
    }
    assert(orig.take(n as int) =~= orig);
    out
}

/// Validate `doc` against `schema` and return any errors.
///
/// `file` is used as the file name in error output.
/// Returns an empty vec if the document is valid. A `bool` property accepts
/// `true` or `false` in any letter case.
pub fn validate(doc: &Document, schema: &Schema, file: &str) -> (errors: Vec<Error>)
    ensures
        errors_view(errors@) == validate_spec(doc@, schema@, file@),
{
    let errors = collect_errors(file, doc, schema);
    sort_errors(errors)
}



// ── Every error carries a fix ──

/// Every error in `s` names file `file` and has a non-empty fix.
pub open spec fn all_fixed(s: Seq<ErrorView>, file: Seq<char>) -> bool {
    forall|i: int| 0 <= i < s.len() ==> (#[trigger] s[i]).fix.len() > 0 && s[i].file == file
}

proof fn lemma_fixed_concat(a: Seq<ErrorView>, b: Seq<ErrorView>, file: Seq<char>)
    requires
        all_fixed(a, file),
        all_fixed(b, file),
    ensures
        all_fixed(a + b, file),
{
    assert forall|i: int| 0 <= i < (a + b).len() implies (#[trigger] (a + b)[i]).fix.len() > 0 && (a + b)[i].file
        == file by {
        if i >= a.len() {
            assert((a + b)[i] == b[i - a.len()]);
        }
    }
}

proof fn lemma_cron_fixed(at: Site, value: Seq<char>)
    ensures
        all_fixed(cron_errors(at, value), at.file),
{
    reveal_strlit("change `");
}

proof fn lemma_value_fixed(at: Site, value: Seq<char>, t: ValueTypeView)
    ensures
        all_fixed(value_errors(at, value, t), at.file),
    decreases t, 0int,
{
    reveal_strlit("set `- ");
    reveal_strlit("change `");
    match t {
        ValueTypeView::List(inner) => {
            let pieces = split_char(value, ',');
            lemma_list_fixed(at, pieces, *inner, pieces.len() as int);
        },
        ValueTypeView::Cron => {
            lemma_cron_fixed(at, value);
        },
        _ => {},
    }
}

proof fn lemma_list_fixed(at: Site, pieces: Seq<Seq<char>>, t: ValueTypeView, n: int)
    ensures
        all_fixed(list_errors(at, pieces, t, n), at.file),
    decreases t, n,
{
    if 0 < n <= pieces.len() {
        lemma_list_fixed(at, pieces, t, n - 1);
        let item = trim(pieces[n - 1]);
        if item.len() > 0 {
            lemma_value_fixed(at, item, t);
            lemma_fixed_concat(list_errors(at, pieces, t, n - 1), value_errors(at, item, t), at.file);
        } else {
            lemma_fixed_concat(list_errors(at, pieces, t, n - 1), seq![], at.file);
        }
    }
}

proof fn lemma_props_fixed(r: Rules, sec: SectionView, pm: PropertyMapView, n: int)
    ensures
        all_fixed(props_errors(r, sec, pm, n), r.file),
    decreases n,
{
    reveal_strlit("add `- ");
    if 0 < n <= pm.len() {
        lemma_props_fixed(r, sec, pm, n - 1);
        let key = pm[n - 1].0;
        let ps = pm[n - 1].1;
        match first_prop(sec.properties, key, 0) {
            Some(p) => {
                lemma_value_fixed(
                    Site { file: r.file, line: p.line, section: sec.heading.text, field: key },
                    p.value,
                    ps.value_type,
                );
            },
            None => {},
        }
        lemma_fixed_concat(props_errors(r, sec, pm, n - 1), prop_errors(r, sec, key, ps), r.file);
    }
}

proof fn lemma_table_fixed(r: Rules, sec: SectionView, ts: Option<TableSchemaView>)
    ensures
        all_fixed(table_errors(r, sec, ts), r.file),
{
    reveal_strlit("add a markdown table");
    reveal_strlit("add table with columns: ");
    reveal_strlit("add at least one data row to the table");
    match (ts, sec.table) {
        (Some(t), Some(tb)) => {
            let name = sec.heading.text;
            lemma_header_fixed(r, name, tb, t.columns, t.columns.len() as int);
            lemma_rows_fixed(r, name, tb, t.columns, tb.rows.len() as int);
            let h = header_errors(r, name, tb, t.columns, t.columns.len() as int);
            let c: Seq<ErrorView> = if tb.rows.len() == 0 {
                seq![
                    err(
                        r.file,
                        tb.header_line,
                        name,
                        "row_count"@,
                        seq![],
                        "0"@,
                        "at least 1"@,
                        "add at least one data row to the table"@,
                    ),
                ]
            } else {
                seq![]
            };
            lemma_fixed_concat(h, c, r.file);
            lemma_fixed_concat(h + c, rows_errors(r, name, tb, t.columns, tb.rows.len() as int), r.file);
        },
        _ => {},
    }
}

proof fn lemma_header_fixed(r: Rules, name: Seq<char>, tb: TableView, cols: Seq<ColumnSchemaView>, n: int)
    ensures
        all_fixed(header_errors(r, name, tb, cols, n), r.file),
    decreases n,
{
    reveal_strlit("rename column ");
    reveal_strlit("add column `");
    if 0 < n <= cols.len() {
        lemma_header_fixed(r, name, tb, cols, n - 1);
        lemma_fixed_concat(header_errors(r, name, tb, cols, n - 1), header_error(r, name, tb, cols[n - 1], (n - 1) as nat), r.file);
    }
}

proof fn lemma_cells_fixed(r: Rules, name: Seq<char>, row: TableRowView, cols: Seq<ColumnSchemaView>, n: int)
    ensures
        all_fixed(cells_errors(r, name, row, cols, n), r.file),
    decreases n,
{
    if 0 < n <= cols.len() {
        lemma_cells_fixed(r, name, row, cols, n - 1);
        let at = Site { file: r.file, line: row.line, section: name, field: cols[n - 1].name };
        if n - 1 < row.cells.len() {
            lemma_value_fixed(at, row.cells[n - 1], cols[n - 1].column_type);
            lemma_fixed_concat(
                cells_errors(r, name, row, cols, n - 1),
                value_errors(at, row.cells[n - 1], cols[n - 1].column_type),
                r.file,
            );
        } else {
            lemma_fixed_concat(cells_errors(r, name, row, cols, n - 1), seq![], r.file);
        }
    }
}

proof fn lemma_rows_fixed(r: Rules, name: Seq<char>, tb: TableView, cols: Seq<ColumnSchemaView>, n: int)
    ensures
        all_fixed(rows_errors(r, name, tb, cols, n), r.file),
    decreases n,
{
    reveal_strlit("row should have ");
    if 0 < n <= tb.rows.len() {
        lemma_rows_fixed(r, name, tb, cols, n - 1);
        let row = tb.rows[n - 1];
        lemma_cells_fixed(r, name, row, cols, cols.len() as int);
        let w: Seq<ErrorView> = if row.cells.len() != tb.columns.len() {
            seq![
                err(
                    r.file,
                    row.line,
                    name,
                    "column_mismatch"@,
                    seq![],
                    dec(row.cells.len()),
                    dec(tb.columns.len()),
                    "row should have "@ + dec(tb.columns.len()) + " columns"@,
                ),
            ]
        } else {
            seq![]
        };
        lemma_fixed_concat(w, cells_errors(r, name, row, cols, cols.len() as int), r.file);
        lemma_fixed_concat(rows_errors(r, name, tb, cols, n - 1), row_errors(r, name, row, cols, tb.columns.len()), r.file);
    }
}

proof fn lemma_section_fixed(r: Rules, sec: SectionView, ss: SectionSchemaView)
    ensures
        all_fixed(section_errors(r, sec, ss), r.file),
    decreases ss, 0int,
{
    reveal_strlit("add a name after `");
    reveal_strlit("add text after `## ");
    let a = name_errors(r, sec);
    let b = prose_errors(r, sec, ss);
    let c = section_props_errors(r, sec, ss);
    let d = section_table_errors(r, sec, ss);
    if ss.expects_properties {
        lemma_props_fixed(r, sec, props_for(r, ss), props_for(r, ss).len() as int);
    }
    if ss.expects_table {
        lemma_table_fixed(r, sec, table_for(r, ss));
    }
    let e: Seq<ErrorView> = if ss.children.len() > 0 {
        lemma_sections_fixed(r, sec.children, ss.children, ss.children.len() as int);
        sections_errors(r, sec.children, ss.children, ss.children.len() as int)
    } else {
        seq![]
    };
    lemma_fixed_concat(a, b, r.file);
    lemma_fixed_concat(a + b, c, r.file);
    lemma_fixed_concat(a + b + c, d, r.file);
    lemma_fixed_concat(a + b + c + d, e, r.file);
}

proof fn lemma_matched_fixed(r: Rules, docs: Seq<SectionView>, ss: SectionSchemaView, n: int)
    ensures
        all_fixed(matched_errors(r, docs, ss, n), r.file),
    decreases ss, n,
{
    if 0 < n <= docs.len() {
        lemma_matched_fixed(r, docs, ss, n - 1);
        if is_match(docs[n - 1], ss) {
            lemma_section_fixed(r, docs[n - 1], ss);
            lemma_fixed_concat(matched_errors(r, docs, ss, n - 1), section_errors(r, docs[n - 1], ss), r.file);
        } else {
            lemma_fixed_concat(matched_errors(r, docs, ss, n - 1), seq![], r.file);
        }
    }
}

proof fn lemma_sections_fixed(r: Rules, docs: Seq<SectionView>, scs: Seq<SectionSchemaView>, n: int)
    ensures
        all_fixed(sections_errors(r, docs, scs, n), r.file),
    decreases scs, n,
{
    reveal_strlit("need exactly 1 H");
    reveal_strlit("add at least 1 H");
    if 0 < n <= scs.len() {
        lemma_sections_fixed(r, docs, scs, n - 1);
        lemma_matched_fixed(r, docs, scs[n - 1], docs.len() as int);
        let a = sections_errors(r, docs, scs, n - 1);
        let b = count_errors(r, scs[n - 1], match_count(docs, scs[n - 1], docs.len() as int));
        lemma_fixed_concat(a, b, r.file);
        lemma_fixed_concat(a + b, matched_errors(r, docs, scs[n - 1], docs.len() as int), r.file);
    }
}

proof fn lemma_h1s_fixed(r: Rules, nodes: Seq<H1NodeView>, hss: Seq<H1SchemaView>, n: int)
    ensures
        all_fixed(h1s_errors(r, nodes, hss, n).1, r.file),
    decreases n,
{
    reveal_strlit("add `# ");
    if 0 < n <= hss.len() {
        lemma_h1s_fixed(r, nodes, hss, n - 1);
        let prev = h1s_errors(r, nodes, hss, n - 1);
        let hs = hss[n - 1];
        match hs.text {
            Some(t) => match find_h1(nodes, t, prev.0) {
                Some(k) => {
                    lemma_sections_fixed(r, nodes[k].sections, hs.children, hs.children.len() as int);
                },
                None => {},
            },
            None => {
                if 0 <= prev.0 < nodes.len() {
                    lemma_sections_fixed(r, nodes[prev.0].sections, hs.children, hs.children.len() as int);
                }
            },
        }
        lemma_fixed_concat(prev.1, h1_step(r, nodes, hs, prev.0).1, r.file);
    }
}

proof fn lemma_insert_keeps(s: Seq<ErrorView>, e: ErrorView)
    ensures
        insert_by_line(s, e).to_multiset() == s.to_multiset().insert(e),
    decreases s.len(),
{
    broadcast use vstd::seq_lib::group_to_multiset_ensures;

    if s.len() == 0 {
        assert(seq![e] =~= Seq::<ErrorView>::empty().push(e));
    } else if s.last().line <= e.line {
    } else {
        lemma_insert_keeps(s.drop_last(), e);
        assert(s =~= s.drop_last().push(s.last()));
    }
}

/// Sorting by line keeps exactly the errors it is given.
pub proof fn lemma_sort_is_permutation(s: Seq<ErrorView>)
    ensures
        sort_by_line(s).to_multiset() == s.to_multiset(),
    decreases s.len(),
{
    broadcast use vstd::seq_lib::group_to_multiset_ensures;

    if s.len() > 0 {
        lemma_sort_is_permutation(s.drop_last());
        lemma_insert_keeps(sort_by_line(s.drop_last()), s.last());
        assert(s =~= s.drop_last().push(s.last()));
    }
}

/// Every error the validator reports names the file it was given and carries
/// a non-empty fix, so that a reader (human or program) always has a next step.
pub proof fn lemma_every_error_has_fix(doc: DocumentView, schema: SchemaView, file: Seq<char>)
    ensures
        all_fixed(validate_spec(doc, schema, file), file),
{
    let u = unsorted_errors(doc, schema, file);
    lemma_h1s_fixed(rules_of(schema, file), doc.nodes, schema.nodes, schema.nodes.len() as int);
    lemma_sort_is_permutation(u);
    let s = sort_by_line(u);
    assert forall|i: int| 0 <= i < s.len() implies (#[trigger] s[i]).fix.len() > 0 && s[i].file == file by {
        broadcast use vstd::seq_lib::group_to_multiset_ensures;

        assert(s.to_multiset().count(s[i]) > 0);
        assert(u.to_multiset().count(s[i]) > 0);
        assert(u.contains(s[i]));
    }
}


// ── Errors come out in line order ──

/// Lines never decrease along `s`.
pub open spec fn by_line(s: Seq<ErrorView>) -> bool {
    forall|i: int, j: int| 0 <= i < j < s.len() ==> (#[trigger] s[i]).line <= (#[trigger] s[j]).line
}

/// The errors of `s` on line `l`, in their order in `s`.
pub open spec fn on_line(s: Seq<ErrorView>, l: nat) -> Seq<ErrorView>
    decreases s.len(),
{
    if s.len() == 0 {
        seq![]
    } else {
        on_line(s.drop_last(), l) + if s.last().line == l {
            seq![s.last()]
        } else {
            seq![]
        }
    }
}

proof fn lemma_insert_on_line(s: Seq<ErrorView>, e: ErrorView, l: nat)
    ensures
        on_line(insert_by_line(s, e), l) == on_line(s, l) + if e.line == l {
            seq![e]
        } else {
            seq![]
        },
    decreases s.len(),
{
    let tail: Seq<ErrorView> = if e.line == l {
        seq![e]
    } else {
        seq![]
    };
    if s.len() == 0 {
        assert(seq![e].drop_last() =~= Seq::<ErrorView>::empty());
        assert(on_line(seq![e], l) =~= on_line(Seq::<ErrorView>::empty(), l) + tail);
    } else if s.last().line <= e.line {
        assert(s.push(e).drop_last() =~= s);
    } else {
        lemma_insert_on_line(s.drop_last(), e, l);
        let r = insert_by_line(s.drop_last(), e).push(s.last());
        assert(r.drop_last() =~= insert_by_line(s.drop_last(), e));
        let lt: Seq<ErrorView> = if s.last().line == l {
            seq![s.last()]
        } else {
            seq![]
        };
        assert(on_line(s.drop_last(), l) + tail + lt =~= on_line(s.drop_last(), l) + lt + tail);
    }
}

proof fn lemma_insert_by_line_sorted(s: Seq<ErrorView>, e: ErrorView)
    requires
        by_line(s),
    ensures
        by_line(insert_by_line(s, e)),
    decreases s.len(),
{
    broadcast use vstd::seq_lib::group_to_multiset_ensures;

    if s.len() == 0 {
    } else if s.last().line <= e.line {
        let r = s.push(e);
        assert forall|i: int, j: int| 0 <= i < j < r.len() implies (#[trigger] r[i]).line <= (#[trigger] r[j]).line by {
            if j == s.len() {
                if i < s.len() - 1 {
                    assert(s[i].line <= s[s.len() - 1].line);
                }
            }
        }
    } else {
        let t = s.drop_last();
        assert forall|i: int, j: int| 0 <= i < j < t.len() implies (#[trigger] t[i]).line <= (#[trigger] t[j]).line by {
            assert(t[i] == s[i] && t[j] == s[j]);
        }
        lemma_insert_by_line_sorted(t, e);
        lemma_insert_keeps(t, e);
        let m = insert_by_line(t, e);
        let r = m.push(s.last());
        assert forall|i: int, j: int| 0 <= i < j < r.len() implies (#[trigger] r[i]).line <= (#[trigger] r[j]).line by {
            if j == m.len() {
                let x = m[i];
                assert(m.to_multiset().count(x) > 0);
                if x != e {
                    assert(t.to_multiset().count(x) > 0);
                    assert(t.contains(x));
                    let k = choose|k: int| 0 <= k < t.len() && t[k] == x;
                    assert(s[k] == x);
                    assert(s[k].line <= s[s.len() - 1].line);
                }
            }
        }
    }
}

/// What the validator returns is sorted by line; it holds exactly the errors
/// found, and the errors on any one line keep the order in which they were found.
pub proof fn lemma_errors_in_line_order(doc: DocumentView, schema: SchemaView, file: Seq<char>)
    ensures
        by_line(validate_spec(doc, schema, file)),
        validate_spec(doc, schema, file).to_multiset() == unsorted_errors(
            doc,
            schema,
            file,
        ).to_multiset(),
        forall|l: nat|
            #[trigger] on_line(validate_spec(doc, schema, file), l) == on_line(
                unsorted_errors(doc, schema, file),
                l,
            ),
{
    let u = unsorted_errors(doc, schema, file);
    lemma_sort_by_line_sorted(u);
    lemma_sort_is_permutation(u);
    assert forall|l: nat| #[trigger] on_line(sort_by_line(u), l) == on_line(u, l) by {
        lemma_sort_on_line(u, l);
    }
}

/// Sorting by line orders the errors by line.
pub proof fn lemma_sort_by_line_sorted(s: Seq<ErrorView>)
    ensures
        by_line(sort_by_line(s)),
    decreases s.len(),
{
    if s.len() > 0 {
        lemma_sort_by_line_sorted(s.drop_last());
        lemma_insert_by_line_sorted(sort_by_line(s.drop_last()), s.last());
    }
}

/// Sorting by line keeps the order of the errors on each line.
pub proof fn lemma_sort_on_line(s: Seq<ErrorView>, l: nat)
    ensures
        on_line(sort_by_line(s), l) == on_line(s, l),
    decreases s.len(),
{
    if s.len() > 0 {
        lemma_sort_on_line(s.drop_last(), l);
        lemma_insert_on_line(sort_by_line(s.drop_last()), s.last(), l);
    }
}


/// Rendered for output (as `format_errors` does), each error of the validator
/// shows the fix the validator wrote for it, never an empty one.
pub proof fn lemma_rendered_fix_is_validator_fix(
    doc: DocumentView,
    schema: SchemaView,
    file: Seq<char>,
    i: int,
)
    requires
        0 <= i < validate_spec(doc, schema, file).len(),
    ensures
        derive_fix_spec(error_render_spec(empty_formatter(), validate_spec(doc, schema, file)[i]))
            == validate_spec(doc, schema, file)[i].fix,
        validate_spec(doc, schema, file)[i].fix.len() > 0,
{
    lemma_every_error_has_fix(doc, schema, file);
    lemma_error_fix_rendered(validate_spec(doc, schema, file)[i]);
}


// ── What an empty error list promises ──

/// `every Nm` or `every Nh` with N a `u32`, or five whitespace-separated fields.
pub open spec fn cron_ok(value: Seq<char>) -> bool {
    let v = trim(value);
    if starts_with(v, every_prefix()) {
        let rest = trim(after(v, every_prefix()));
        (ends_with(rest, "m"@) || ends_with(rest, "h"@)) && is_u32_text(rest.drop_last())
    } else {
        count_words(v) == 5
    }
}

/// A value is of type `t`.
pub open spec fn value_conforms(value: Seq<char>, t: ValueTypeView) -> bool
    decreases t, 0int,
{
    match t {
        ValueTypeView::Label | ValueTypeView::Text => true,
        ValueTypeView::Str => value.len() > 0,
        ValueTypeView::Bool => bool_ok(value),
        ValueTypeView::Enum(vals) => vals.contains(value),
        ValueTypeView::Integer => is_i64_text(value),
        ValueTypeView::Number => is_f64_text(value),
        ValueTypeView::List(inner) => {
            let pieces = split_char(value, ',');
            list_conforms(pieces, *inner, pieces.len() as int)
        },
        ValueTypeView::Path => is_path_text(value),
        ValueTypeView::Cron => cron_ok(value),
    }
}

/// Each non-empty trimmed item among the first `n` pieces is of type `t`.
pub open spec fn list_conforms(pieces: Seq<Seq<char>>, t: ValueTypeView, n: int) -> bool
    decreases t, n,
{
    if n <= 0 || n > pieces.len() {
        true
    } else {
        list_conforms(pieces, t, n - 1) && (trim(pieces[n - 1]).len() > 0 ==> value_conforms(
            trim(pieces[n - 1]),
            t,
        ))
    }
}

/// A declared property: present if required, and of its type if present.
pub open spec fn prop_conforms(sec: SectionView, key: Seq<char>, ps: PropertySchemaView) -> bool {
    match first_prop(sec.properties, key, 0) {
        None => !ps.required,
        Some(p) => value_conforms(p.value, ps.value_type),
    }
}

pub open spec fn props_conform(sec: SectionView, pm: PropertyMapView) -> bool {
    forall|i: int| 0 <= i < pm.len() ==> prop_conforms(sec, (#[trigger] pm[i]).0, pm[i].1)
}

/// Each declared column is there, named alike up to `str::to_lowercase`.
pub open spec fn headers_conform(tb: TableView, cols: Seq<ColumnSchemaView>) -> bool {
    forall|i: int|
        0 <= i < cols.len() ==> i < tb.columns.len() && lowercase(tb.columns[i]) == lowercase(
            (#[trigger] cols[i]).name,
        )
}

pub open spec fn cells_conform(row: TableRowView, cols: Seq<ColumnSchemaView>) -> bool {
    forall|i: int|
        0 <= i < cols.len() && i < row.cells.len() ==> value_conforms(
            row.cells[i],
            (#[trigger] cols[i]).column_type,
        )
}

/// The section has a table; where columns are declared, the table has them, at
/// least one row, and rows as wide as the header whose cells are of their
/// column's type.
pub open spec fn table_conforms(sec: SectionView, ts: Option<TableSchemaView>) -> bool {
    match ts {
        None => sec.table is Some,
        Some(t) => match sec.table {
            None => false,
            Some(tb) => {
                &&& headers_conform(tb, t.columns)
                &&& tb.rows.len() > 0
                &&& forall|j: int|
                    0 <= j < tb.rows.len() ==> (#[trigger] tb.rows[j]).cells.len() == tb.columns.len()
                        && cells_conform(tb.rows[j], t.columns)
            },
        },
    }
}

/// A section that answered to `ss` has a name, the prose, properties and table
/// `ss` asks for, and children that conform to `ss`'s children.
pub open spec fn section_conforms(r: Rules, sec: SectionView, ss: SectionSchemaView) -> bool
    decreases ss, 0int,
{
    &&& sec.heading.text.len() > 0
    &&& (ss.expects_prose ==> sec.prose is Some)
    &&& (ss.expects_properties ==> props_conform(sec, props_for(r, ss)))
    &&& (ss.expects_table ==> table_conforms(sec, table_for(r, ss)))
    &&& (ss.children.len() > 0 ==> sections_conform(r, sec.children, ss.children, ss.children.len() as int))
}

/// How many sections answered satisfies the quantity.
pub open spec fn count_ok(q: Quantity, count: nat) -> bool {
    &&& (q == Quantity::One ==> count == 1)
    &&& (q == Quantity::OneOrMore ==> count >= 1)
}

pub open spec fn matched_conform(r: Rules, docs: Seq<SectionView>, ss: SectionSchemaView, n: int) -> bool
    decreases ss, n,
{
    if n <= 0 || n > docs.len() {
        true
    } else {
        matched_conform(r, docs, ss, n - 1) && (is_match(docs[n - 1], ss) ==> section_conforms(r, docs[n - 1], ss))
    }
}

pub open spec fn sections_conform(r: Rules, docs: Seq<SectionView>, scs: Seq<SectionSchemaView>, n: int) -> bool
    decreases scs, n,
{
    if n <= 0 || n > scs.len() {
        true
    } else {
        &&& sections_conform(r, docs, scs, n - 1)
        &&& count_ok(scs[n - 1].quantity, match_count(docs, scs[n - 1], docs.len() as int))
        &&& matched_conform(r, docs, scs[n - 1], docs.len() as int)
    }
}

/// One H1 schema against the document from node `idx` on: where the walk goes
/// next, and whether the H1 is there (unless optional) with conforming sections.
pub open spec fn h1_conforms(r: Rules, nodes: Seq<H1NodeView>, hs: H1SchemaView, idx: int) -> (int, bool) {
    match hs.text {
        Some(t) => match find_h1(nodes, t, idx) {
            Some(k) => (k + 1, sections_conform(r, nodes[k].sections, hs.children, hs.children.len() as int)),
            None => (idx, hs.quantity == Quantity::Optional || hs.quantity == Quantity::ZeroOrMore),
        },
        None => if 0 <= idx < nodes.len() {
            (idx + 1, sections_conform(r, nodes[idx].sections, hs.children, hs.children.len() as int))
        } else {
            (idx, true)
        },
    }
}

pub open spec fn h1s_conform(r: Rules, nodes: Seq<H1NodeView>, hss: Seq<H1SchemaView>, n: int) -> (int, bool)
    decreases n,
{
    if n <= 0 || n > hss.len() {
        (0, true)
    } else {
        let prev = h1s_conform(r, nodes, hss, n - 1);
        let step = h1_conforms(r, nodes, hss[n - 1], prev.0);
        (step.0, prev.1 && step.1)
    }
}

/// The document has the structure the schema promises.
pub open spec fn doc_conforms(doc: DocumentView, schema: SchemaView) -> bool {
    h1s_conform(rules_of(schema, seq![]), doc.nodes, schema.nodes, schema.nodes.len() as int).1
}

proof fn lemma_value_iff(at: Site, value: Seq<char>, t: ValueTypeView)
    ensures
        (value_errors(at, value, t).len() == 0) == value_conforms(value, t),
    decreases t, 0int,
{
    match t {
        ValueTypeView::List(inner) => {
            let pieces = split_char(value, ',');
            lemma_list_iff(at, pieces, *inner, pieces.len() as int);
        },
        _ => {},
    }
}

proof fn lemma_list_iff(at: Site, pieces: Seq<Seq<char>>, t: ValueTypeView, n: int)
    ensures
        (list_errors(at, pieces, t, n).len() == 0) == list_conforms(pieces, t, n),
    decreases t, n,
{
    if 0 < n <= pieces.len() {
        lemma_list_iff(at, pieces, t, n - 1);
        let item = trim(pieces[n - 1]);
        if item.len() > 0 {
            lemma_value_iff(at, item, t);
        }
    }
}

proof fn lemma_props_iff(r: Rules, sec: SectionView, pm: PropertyMapView, n: int)
    requires
        0 <= n <= pm.len(),
    ensures
        (props_errors(r, sec, pm, n).len() == 0) == forall|i: int|
            0 <= i < n ==> prop_conforms(sec, (#[trigger] pm[i]).0, pm[i].1),
    decreases n,
{
    if n > 0 {
        lemma_props_iff(r, sec, pm, n - 1);
        let key = pm[n - 1].0;
        let ps = pm[n - 1].1;
        match first_prop(sec.properties, key, 0) {
            Some(p) => lemma_value_iff(
                Site { file: r.file, line: p.line, section: sec.heading.text, field: key },
                p.value,
                ps.value_type,
            ),
            None => {},
        }
        if props_errors(r, sec, pm, n).len() == 0 {
            assert forall|i: int| 0 <= i < n implies prop_conforms(sec, (#[trigger] pm[i]).0, pm[i].1) by {
                if i < n - 1 {
                    assert(props_errors(r, sec, pm, n - 1).len() == 0);
                }
            }
        } else if forall|i: int| 0 <= i < n ==> prop_conforms(sec, (#[trigger] pm[i]).0, pm[i].1) {
            assert(prop_conforms(sec, pm[n - 1].0, pm[n - 1].1));
        }
    }
}

proof fn lemma_header_iff(r: Rules, name: Seq<char>, tb: TableView, cols: Seq<ColumnSchemaView>, n: int)
    requires
        0 <= n <= cols.len(),
    ensures
        (header_errors(r, name, tb, cols, n).len() == 0) == forall|i: int|
            0 <= i < n ==> i < tb.columns.len() && lowercase(tb.columns[i]) == lowercase((#[trigger] cols[i]).name),
    decreases n,
{
    if n > 0 {
        lemma_header_iff(r, name, tb, cols, n - 1);
        if header_errors(r, name, tb, cols, n).len() == 0 {
            assert forall|i: int| 0 <= i < n implies i < tb.columns.len() && lowercase(tb.columns[i]) == lowercase(
                (#[trigger] cols[i]).name,
            ) by {
                if i < n - 1 {
                    assert(header_errors(r, name, tb, cols, n - 1).len() == 0);
                }
            }
        } else if forall|i: int|
            0 <= i < n ==> i < tb.columns.len() && lowercase(tb.columns[i]) == lowercase((#[trigger] cols[i]).name) {
            assert(n - 1 < tb.columns.len() && lowercase(tb.columns[n - 1]) == lowercase(cols[n - 1].name));
        }
    }
}

proof fn lemma_cells_iff(r: Rules, name: Seq<char>, row: TableRowView, cols: Seq<ColumnSchemaView>, n: int)
    requires
        0 <= n <= cols.len(),
    ensures
        (cells_errors(r, name, row, cols, n).len() == 0) == forall|i: int|
            0 <= i < n && i < row.cells.len() ==> value_conforms(
                row.cells[i],
                (#[trigger] cols[i]).column_type,
            ),
    decreases n,
{
    if n > 0 {
        lemma_cells_iff(r, name, row, cols, n - 1);
        let at = Site { file: r.file, line: row.line, section: name, field: cols[n - 1].name };
        if n - 1 < row.cells.len() {
            lemma_value_iff(at, row.cells[n - 1], cols[n - 1].column_type);
        }
        if cells_errors(r, name, row, cols, n).len() == 0 {
            assert forall|i: int| 0 <= i < n && i < row.cells.len() implies value_conforms(
                row.cells[i],
                (#[trigger] cols[i]).column_type,
            ) by {
                if i < n - 1 {
                    assert(cells_errors(r, name, row, cols, n - 1).len() == 0);
                }
            }
        } else if forall|i: int|
            0 <= i < n && i < row.cells.len() ==> value_conforms(row.cells[i], (#[trigger] cols[i]).column_type) {
            if n - 1 < row.cells.len() {
                assert(value_conforms(row.cells[n - 1], cols[n - 1].column_type));
            }
        }
    }
}

proof fn lemma_rows_iff(r: Rules, name: Seq<char>, tb: TableView, cols: Seq<ColumnSchemaView>, n: int)
    requires
        0 <= n <= tb.rows.len(),
    ensures
        (rows_errors(r, name, tb, cols, n).len() == 0) == forall|j: int|
            0 <= j < n ==> (#[trigger] tb.rows[j]).cells.len() == tb.columns.len() && cells_conform(
                tb.rows[j],
                cols,
            ),
    decreases n,
{
    if n > 0 {
        lemma_rows_iff(r, name, tb, cols, n - 1);
        let row = tb.rows[n - 1];
        lemma_cells_iff(r, name, row, cols, cols.len() as int);
        if rows_errors(r, name, tb, cols, n).len() == 0 {
            assert forall|j: int| 0 <= j < n implies (#[trigger] tb.rows[j]).cells.len() == tb.columns.len()
                && cells_conform(tb.rows[j], cols) by {
                if j < n - 1 {
                    assert(rows_errors(r, name, tb, cols, n - 1).len() == 0);
                }
            }
        } else if forall|j: int|
            0 <= j < n ==> (#[trigger] tb.rows[j]).cells.len() == tb.columns.len() && cells_conform(
                tb.rows[j],
                cols,
            ) {
            assert(tb.rows[n - 1].cells.len() == tb.columns.len() && cells_conform(tb.rows[n - 1], cols));
        }
    }
}

proof fn lemma_table_iff(r: Rules, sec: SectionView, ts: Option<TableSchemaView>)
    ensures
        (table_errors(r, sec, ts).len() == 0) == table_conforms(sec, ts),
{
    match (ts, sec.table) {
        (Some(t), Some(tb)) => {
            let name = sec.heading.text;
            lemma_header_iff(r, name, tb, t.columns, t.columns.len() as int);
            lemma_rows_iff(r, name, tb, t.columns, tb.rows.len() as int);
        },
        _ => {},
    }
}

proof fn lemma_section_iff(r: Rules, sec: SectionView, ss: SectionSchemaView)
    ensures
        (section_errors(r, sec, ss).len() == 0) == section_conforms(r, sec, ss),
    decreases ss, 0int,
{
    if ss.expects_properties {
        lemma_props_iff(r, sec, props_for(r, ss), props_for(r, ss).len() as int);
    }
    if ss.expects_table {
        lemma_table_iff(r, sec, table_for(r, ss));
    }
    if ss.children.len() > 0 {
        lemma_sections_iff(r, sec.children, ss.children, ss.children.len() as int);
    }
}

proof fn lemma_matched_iff(r: Rules, docs: Seq<SectionView>, ss: SectionSchemaView, n: int)
    ensures
        (matched_errors(r, docs, ss, n).len() == 0) == matched_conform(r, docs, ss, n),
    decreases ss, n,
{
    if 0 < n <= docs.len() {
        lemma_matched_iff(r, docs, ss, n - 1);
        if is_match(docs[n - 1], ss) {
            lemma_section_iff(r, docs[n - 1], ss);
        }
    }
}

proof fn lemma_sections_iff(r: Rules, docs: Seq<SectionView>, scs: Seq<SectionSchemaView>, n: int)
    ensures
        (sections_errors(r, docs, scs, n).len() == 0) == sections_conform(r, docs, scs, n),
    decreases scs, n,
{
    if 0 < n <= scs.len() {
        lemma_sections_iff(r, docs, scs, n - 1);
        lemma_matched_iff(r, docs, scs[n - 1], docs.len() as int);
    }
}

proof fn lemma_h1s_iff(r: Rules, nodes: Seq<H1NodeView>, hss: Seq<H1SchemaView>, n: int)
    ensures
        h1s_errors(r, nodes, hss, n).0 == h1s_conform(r, nodes, hss, n).0,
        (h1s_errors(r, nodes, hss, n).1.len() == 0) == h1s_conform(r, nodes, hss, n).1,
    decreases n,
{
    if 0 < n <= hss.len() {
        lemma_h1s_iff(r, nodes, hss, n - 1);
        let idx = h1s_errors(r, nodes, hss, n - 1).0;
        let hs = hss[n - 1];
        match hs.text {
            Some(t) => match find_h1(nodes, t, idx) {
                Some(k) => lemma_sections_iff(r, nodes[k].sections, hs.children, hs.children.len() as int),
                None => {},
            },
            None => if 0 <= idx < nodes.len() {
                lemma_sections_iff(r, nodes[idx].sections, hs.children, hs.children.len() as int);
            },
        }
    }
}

/// Which errors come out depends on the file name only through the `file` field.
proof fn lemma_conform_file_free(doc: DocumentView, schema: SchemaView, file: Seq<char>)
    ensures
        h1s_conform(rules_of(schema, file), doc.nodes, schema.nodes, schema.nodes.len() as int).1
            == doc_conforms(doc, schema),
{
    let r1 = rules_of(schema, file);
    let r2 = rules_of(schema, seq![]);
    lemma_h1s_conform_same(r1, r2, doc.nodes, schema.nodes, schema.nodes.len() as int);
}

proof fn lemma_h1s_conform_same(r1: Rules, r2: Rules, nodes: Seq<H1NodeView>, hss: Seq<H1SchemaView>, n: int)
    requires
        r1.global_properties == r2.global_properties,
        r1.global_table == r2.global_table,
    ensures
        h1s_conform(r1, nodes, hss, n) == h1s_conform(r2, nodes, hss, n),
    decreases n,
{
    if 0 < n <= hss.len() {
        lemma_h1s_conform_same(r1, r2, nodes, hss, n - 1);
        let idx = h1s_conform(r1, nodes, hss, n - 1).0;
        let hs = hss[n - 1];
        match hs.text {
            Some(t) => match find_h1(nodes, t, idx) {
                Some(k) => lemma_sections_conform_same(r1, r2, nodes[k].sections, hs.children, hs.children.len() as int),
                None => {},
            },
            None => if 0 <= idx < nodes.len() {
                lemma_sections_conform_same(r1, r2, nodes[idx].sections, hs.children, hs.children.len() as int);
            },
        }
    }
}

proof fn lemma_section_conform_same(r1: Rules, r2: Rules, sec: SectionView, ss: SectionSchemaView)
    requires
        r1.global_properties == r2.global_properties,
        r1.global_table == r2.global_table,
    ensures
        section_conforms(r1, sec, ss) == section_conforms(r2, sec, ss),
    decreases ss, 0int,
{
    if ss.children.len() > 0 {
        lemma_sections_conform_same(r1, r2, sec.children, ss.children, ss.children.len() as int);
    }
}

proof fn lemma_matched_conform_same(r1: Rules, r2: Rules, docs: Seq<SectionView>, ss: SectionSchemaView, n: int)
    requires
        r1.global_properties == r2.global_properties,
        r1.global_table == r2.global_table,
    ensures
        matched_conform(r1, docs, ss, n) == matched_conform(r2, docs, ss, n),
    decreases ss, n,
{
    if 0 < n <= docs.len() {
        lemma_matched_conform_same(r1, r2, docs, ss, n - 1);
        lemma_section_conform_same(r1, r2, docs[n - 1], ss);
    }
}

proof fn lemma_sections_conform_same(r1: Rules, r2: Rules, docs: Seq<SectionView>, scs: Seq<SectionSchemaView>, n: int)
    requires
        r1.global_properties == r2.global_properties,
        r1.global_table == r2.global_table,
    ensures
        sections_conform(r1, docs, scs, n) == sections_conform(r2, docs, scs, n),
    decreases scs, n,
{
    if 0 < n <= scs.len() {
        lemma_sections_conform_same(r1, r2, docs, scs, n - 1);
        lemma_matched_conform_same(r1, r2, docs, scs[n - 1], docs.len() as int);
    }
}

/// A document passes validation exactly when it has the structure the schema
/// promises ([`doc_conforms`]): each required H1 is there, in schema order;
/// each section production is matched as often as its quantifier allows; each
/// matched section has a name, and the prose, required properties, well-typed
/// values and table (declared columns, at least one row, rows as wide as the
/// header, well-typed cells) that its production asks for.
pub proof fn lemma_valid_iff_conforms(doc: DocumentView, schema: SchemaView, file: Seq<char>)
    ensures
        (validate_spec(doc, schema, file).len() == 0) == doc_conforms(doc, schema),
{
    let u = unsorted_errors(doc, schema, file);
    lemma_h1s_iff(rules_of(schema, file), doc.nodes, schema.nodes, schema.nodes.len() as int);
    lemma_conform_file_free(doc, schema, file);
    lemma_sort_is_permutation(u);
    sort_by_line(u).to_multiset_ensures();
    u.to_multiset_ensures();
    assert(sort_by_line(u).len() == u.len());
}


// ── What validation does not look at ──

proof fn lemma_first_prop_insert(ps: Seq<PropertyView>, p: PropertyView, i: int, key: Seq<char>, j: int)
    requires
        0 <= i <= ps.len(),
        0 <= j <= ps.len(),
        p.key != key,
    ensures
        first_prop(ps.insert(i, p), key, if j < i {
            j
        } else {
            j + 1
        }) == first_prop(ps, key, j),
    decreases ps.len() - j,
{
    let q = ps.insert(i, p);
    let jq = if j < i {
        j
    } else {
        j + 1
    };
    if j < ps.len() {
        lemma_first_prop_insert(ps, p, i, key, j + 1);
        assert(q[jq] == ps[j]);
        if j + 1 == i {
            assert(q[i] == p);
            assert(first_prop(q, key, i) == first_prop(q, key, i + 1));
        }
    }
}

/// Properties whose keys the schema does not declare are ignored: adding one
/// to a section, anywhere among its properties, changes none of its errors.
pub proof fn lemma_unknown_property_ignored(r: Rules, sec: SectionView, ss: SectionSchemaView, p: PropertyView, i: int)
    requires
        0 <= i <= sec.properties.len(),
        forall|j: int| 0 <= j < props_for(r, ss).len() ==> (#[trigger] props_for(r, ss)[j]).0 != p.key,
    ensures
        section_errors(r, SectionView { properties: sec.properties.insert(i, p), ..sec }, ss) == section_errors(
            r,
            sec,
            ss,
        ),
{
    let sec2 = SectionView { properties: sec.properties.insert(i, p), ..sec };
    let pm = props_for(r, ss);
    assert forall|k: int| 0 <= k < pm.len() implies #[trigger] first_prop(sec2.properties, pm[k].0, 0) == first_prop(
        sec.properties,
        pm[k].0,
        0,
    ) by {
        lemma_first_prop_insert(sec.properties, p, i, pm[k].0, 0);
        if i == 0 {
            assert(sec2.properties[0] == p);
        }
    }
    lemma_props_same(r, sec2, sec, pm, pm.len() as int);
}

proof fn lemma_props_same(r: Rules, s1: SectionView, s2: SectionView, pm: PropertyMapView, n: int)
    requires
        0 <= n <= pm.len(),
        s1.heading == s2.heading,
        forall|k: int| 0 <= k < pm.len() ==> #[trigger] first_prop(s1.properties, pm[k].0, 0) == first_prop(
            s2.properties,
            pm[k].0,
            0,
        ),
    ensures
        props_errors(r, s1, pm, n) == props_errors(r, s2, pm, n),
    decreases n,
{
    if n > 0 {
        lemma_props_same(r, s1, s2, pm, n - 1);
        assert(first_prop(s1.properties, pm[n - 1].0, 0) == first_prop(s2.properties, pm[n - 1].0, 0));
    }
}

/// Two lists of properties alike but for the `bold` flag.
pub open spec fn alike_but_bold(a: Seq<PropertyView>, b: Seq<PropertyView>) -> bool {
    &&& a.len() == b.len()
    &&& forall|i: int|
        0 <= i < a.len() ==> (#[trigger] a[i]).key == b[i].key && a[i].value == b[i].value && a[i].line == b[i].line
}

proof fn lemma_first_prop_bold(a: Seq<PropertyView>, b: Seq<PropertyView>, key: Seq<char>, i: int)
    requires
        alike_but_bold(a, b),
    ensures
        first_prop(a, key, i) is Some == first_prop(b, key, i) is Some,
        first_prop(a, key, i) is Some ==> first_prop(a, key, i)->0.value == first_prop(b, key, i)->0.value
            && first_prop(a, key, i)->0.line == first_prop(b, key, i)->0.line,
    decreases a.len() - i,
{
    if 0 <= i < a.len() {
        assert(a[i].key == b[i].key);
        lemma_first_prop_bold(a, b, key, i + 1);
    }
}

proof fn lemma_props_bold(r: Rules, s1: SectionView, s2: SectionView, pm: PropertyMapView, n: int)
    requires
        0 <= n <= pm.len(),
        s1.heading == s2.heading,
        alike_but_bold(s1.properties, s2.properties),
    ensures
        props_errors(r, s1, pm, n) == props_errors(r, s2, pm, n),
    decreases n,
{
    if n > 0 {
        lemma_props_bold(r, s1, s2, pm, n - 1);
        lemma_first_prop_bold(s1.properties, s2.properties, pm[n - 1].0, 0);
    }
}


/// `s` with every property, its own and its descendants', written plain.
pub open spec fn plain_section(s: SectionView) -> SectionView
    decreases s,
{
    SectionView {
        properties: s.properties.map_values(|p: PropertyView| PropertyView { bold: false, ..p }),
        children: Seq::new(
            s.children.len(),
            |i: int|
                if 0 <= i < s.children.len() {
                    plain_section(s.children[i])
                } else {
                    arbitrary()
                },
        ),
        ..s
    }
}

pub open spec fn plain_node(n: H1NodeView) -> H1NodeView {
    H1NodeView {
        properties: n.properties.map_values(|p: PropertyView| PropertyView { bold: false, ..p }),
        sections: n.sections.map_values(|s: SectionView| plain_section(s)),
        ..n
    }
}

/// The document with every property written plain (no `**key:**`).
pub open spec fn plain_document(d: DocumentView) -> DocumentView {
    DocumentView { nodes: d.nodes.map_values(|n: H1NodeView| plain_node(n)) }
}

proof fn lemma_plain_alike(s: SectionView)
    ensures
        alike_but_bold(plain_section(s).properties, s.properties),
        plain_section(s).heading == s.heading,
        plain_section(s).prose == s.prose,
        plain_section(s).table == s.table,
        plain_section(s).children == s.children.map_values(|c: SectionView| plain_section(c)),
{
    assert(plain_section(s).children =~= s.children.map_values(|c: SectionView| plain_section(c)));
}

proof fn lemma_section_plain(r: Rules, sec: SectionView, ss: SectionSchemaView)
    ensures
        section_errors(r, plain_section(sec), ss) == section_errors(r, sec, ss),
    decreases ss, 0int,
{
    let p = plain_section(sec);
    lemma_plain_alike(sec);
    let pm = props_for(r, ss);
    lemma_props_bold(r, p, sec, pm, pm.len() as int);
    if ss.children.len() > 0 {
        lemma_sections_plain(r, sec.children, ss.children, ss.children.len() as int);
    }
}

proof fn lemma_match_count_plain(docs: Seq<SectionView>, ss: SectionSchemaView, n: int)
    requires
        0 <= n <= docs.len(),
    ensures
        match_count(docs.map_values(|c: SectionView| plain_section(c)), ss, n) == match_count(docs, ss, n),
    decreases n,
{
    if n > 0 {
        lemma_match_count_plain(docs, ss, n - 1);
        lemma_plain_alike(docs[n - 1]);
    }
}

proof fn lemma_matched_plain(r: Rules, docs: Seq<SectionView>, ss: SectionSchemaView, n: int)
    requires
        0 <= n <= docs.len(),
    ensures
        matched_errors(r, docs.map_values(|c: SectionView| plain_section(c)), ss, n) == matched_errors(r, docs, ss, n),
    decreases ss, n,
{
    if n > 0 {
        lemma_matched_plain(r, docs, ss, n - 1);
        lemma_plain_alike(docs[n - 1]);
        lemma_section_plain(r, docs[n - 1], ss);
    }
}

proof fn lemma_sections_plain(r: Rules, docs: Seq<SectionView>, scs: Seq<SectionSchemaView>, n: int)
    ensures
        sections_errors(r, docs.map_values(|c: SectionView| plain_section(c)), scs, n) == sections_errors(
            r,
            docs,
            scs,
            n,
        ),
    decreases scs, n,
{
    if 0 < n <= scs.len() {
        lemma_sections_plain(r, docs, scs, n - 1);
        lemma_match_count_plain(docs, scs[n - 1], docs.len() as int);
        lemma_matched_plain(r, docs, scs[n - 1], docs.len() as int);
    }
}

proof fn lemma_find_h1_plain(nodes: Seq<H1NodeView>, t: Seq<char>, i: int)
    ensures
        find_h1(nodes.map_values(|n: H1NodeView| plain_node(n)), t, i) == find_h1(nodes, t, i),
    decreases nodes.len() - i,
{
    if 0 <= i < nodes.len() {
        lemma_find_h1_plain(nodes, t, i + 1);
    }
}

proof fn lemma_h1s_plain(r: Rules, nodes: Seq<H1NodeView>, hss: Seq<H1SchemaView>, n: int)
    ensures
        h1s_errors(r, nodes.map_values(|n: H1NodeView| plain_node(n)), hss, n) == h1s_errors(r, nodes, hss, n),
    decreases n,
{
    let pn = nodes.map_values(|n: H1NodeView| plain_node(n));
    if 0 < n <= hss.len() {
        lemma_h1s_plain(r, nodes, hss, n - 1);
        let idx = h1s_errors(r, nodes, hss, n - 1).0;
        let hs = hss[n - 1];
        match hs.text {
            Some(t) => {
                lemma_find_h1_plain(nodes, t, idx);
                match find_h1(nodes, t, idx) {
                    Some(k) => {
                        lemma_find_h1_found(nodes, t, idx);
                        lemma_sections_plain(r, nodes[k].sections, hs.children, hs.children.len() as int);
                        assert(pn[k].sections == nodes[k].sections.map_values(|c: SectionView| plain_section(c)));
                    },
                    None => {},
                }
            },
            None => if 0 <= idx < nodes.len() {
                lemma_sections_plain(r, nodes[idx].sections, hs.children, hs.children.len() as int);
                assert(pn[idx].sections == nodes[idx].sections.map_values(|c: SectionView| plain_section(c)));
            },
        }
    }
}

proof fn lemma_find_h1_found(nodes: Seq<H1NodeView>, t: Seq<char>, i: int)
    requires
        find_h1(nodes, t, i) is Some,
    ensures
        0 <= find_h1(nodes, t, i)->0 < nodes.len(),
    decreases nodes.len() - i,
{
    if 0 <= i < nodes.len() && !(nodes[i].heading is Some && nodes[i].heading->0.text == t) {
        lemma_find_h1_found(nodes, t, i + 1);
    }
}

proof fn lemma_plain_same_errors(doc: DocumentView, schema: SchemaView, file: Seq<char>)
    ensures
        validate_spec(plain_document(doc), schema, file) == validate_spec(doc, schema, file),
{
    lemma_h1s_plain(rules_of(schema, file), doc.nodes, schema.nodes, schema.nodes.len() as int);
}

/// Bold and plain properties are equivalent: two documents that differ only in
/// which properties are written `- **key:** value` rather than `- key: value`
/// get the same errors.
pub proof fn lemma_bold_is_plain(d1: DocumentView, d2: DocumentView, schema: SchemaView, file: Seq<char>)
    requires
        plain_document(d1) == plain_document(d2),
    ensures
        validate_spec(d1, schema, file) == validate_spec(d2, schema, file),
{
    lemma_plain_same_errors(d1, schema, file);
    lemma_plain_same_errors(d2, schema, file);
}


// ── Value errors stay at their site ──

/// Every error in `s` is an `invalid_value` error at site `at`.
pub open spec fn all_at_site(s: Seq<ErrorView>, at: Site) -> bool {
    forall|i: int|
        0 <= i < s.len() ==> (#[trigger] s[i]).code == "invalid_value"@ && s[i].file == at.file && s[i].line == at.line
            && s[i].section == at.section && s[i].key == at.field
}

proof fn lemma_site_concat(a: Seq<ErrorView>, b: Seq<ErrorView>, at: Site)
    requires
        all_at_site(a, at),
        all_at_site(b, at),
    ensures
        all_at_site(a + b, at),
{
    assert forall|i: int| 0 <= i < (a + b).len() implies #[trigger] (a + b)[i] == if i < a.len() {
        a[i]
    } else {
        b[i - a.len()]
    } by {}
}

/// A value's errors are all `invalid_value` errors at the value's own site
/// (file, line, section and property or column name), and a value that is not
/// a list gets at most one.
pub proof fn lemma_value_errors_site(at: Site, value: Seq<char>, t: ValueTypeView)
    ensures
        all_at_site(value_errors(at, value, t), at),
        !(t is List) ==> value_errors(at, value, t).len() <= 1,
    decreases t, 0int,
{
    match t {
        ValueTypeView::List(inner) => {
            let pieces = split_char(value, ',');
            lemma_list_errors_site(at, pieces, *inner, pieces.len() as int);
        },
        _ => {},
    }
}

proof fn lemma_list_errors_site(at: Site, pieces: Seq<Seq<char>>, t: ValueTypeView, n: int)
    ensures
        all_at_site(list_errors(at, pieces, t, n), at),
    decreases t, n,
{
    if 0 < n <= pieces.len() {
        lemma_list_errors_site(at, pieces, t, n - 1);
        let item = trim(pieces[n - 1]);
        if item.len() > 0 {
            lemma_value_errors_site(at, item, t);
            lemma_site_concat(list_errors(at, pieces, t, n - 1), value_errors(at, item, t), at);
        } else {
            lemma_site_concat(list_errors(at, pieces, t, n - 1), seq![], at);
        }
    }
}


} // verus!
