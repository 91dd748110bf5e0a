//! Structured error reporting in structmd format.
//!
//! Any program can report errors as structured markdown by:
//! 1. Defining an error enum
//! 2. Implementing `Diagnostic` on it
//! 3. Calling `render()` or `render_all()` in main
use vstd::prelude::*;
use crate::text::{append_dec, append_str, dec, join, push_char, str_eq, string_from};

verus! {

// ── Diagnostic trait ──

/// Implement this on your error enum to enable structmd error output.
/// Each variant writes its fields to the formatter.
pub trait Diagnostic {
    /// What [`Diagnostic::render`] leaves in a formatter that held `before`.
    /// An implementation checked by Verus defines it, and its `render` must then
    /// meet it. The default names no particular formatter: an implementation
    /// that keeps it has nothing it could prove of its `render`.
    open spec fn render_spec(&self, before: FormatterView) -> FormatterView {
        arbitrary()
    }

    fn render(&self, f: &mut ErrorFormatter)
        ensures
            final(f)@ == self.render_spec(old(f)@),
    ;
}

// ── ErrorFormatter ──

/// Collects error fields and renders them as structmd properties.
/// Used inside `Diagnostic::render()` implementations.
pub struct ErrorFormatter {
    code: String,
    line: Option<usize>,
    fields: Vec<(String, String)>,
    fix_override: Option<String>,
}

pub ghost struct FormatterView {
    pub code: Seq<char>,
    pub line: Option<nat>,
    pub fields: Seq<(Seq<char>, Seq<char>)>,
    pub fix_override: Option<Seq<char>>,
}

pub open spec fn pairs_view(v: Seq<(String, String)>) -> Seq<(Seq<char>, Seq<char>)> {
    v.map_values(|p: (String, String)| (p.0@, p.1@))
}

impl View for ErrorFormatter {
    type V = FormatterView;

    closed spec fn view(&self) -> FormatterView {
        FormatterView {
            code: self.code@,
            line: match self.line {
                Some(l) => Some(l as nat),
                None => None,
            },
            fields: pairs_view(self.fields@),
            fix_override: match self.fix_override {
                Some(f) => Some(f@),
                None => None,
            },
        }
    }
}

pub open spec fn empty_formatter() -> FormatterView {
    FormatterView { code: seq![], line: None, fields: seq![], fix_override: None }
}

/// The value of the first field named `key`.
pub open spec fn get_field_from(fields: Seq<(Seq<char>, Seq<char>)>, key: Seq<char>, i: int) -> Option<
    Seq<char>,
>
    decreases fields.len() - i,
{
    if i < 0 || i >= fields.len() {
        None
    } else if fields[i].0 == key {
        Some(fields[i].1)
    } else {
        get_field_from(fields, key, i + 1)
    }
}

pub open spec fn get_field_spec(f: FormatterView, key: Seq<char>) -> Option<Seq<char>> {
    get_field_from(f.fields, key, 0)
}

pub open spec fn field_or(f: FormatterView, key: Seq<char>, default: Seq<char>) -> Seq<char> {
    match get_field_spec(f, key) {
        Some(v) => v,
        None => default,
    }
}

/// The fix text of an error: the override if one was set, else text derived
/// from the error code and fields.
pub open spec fn derive_fix_spec(f: FormatterView) -> Seq<char> {
    match f.fix_override {
        Some(fix) => fix,
        None => {
            let key = field_or(f, "key"@, seq![]);
            if f.code == "missing_property"@ {
                "add `- "@ + key + ": <value>`"@
            } else if f.code == "missing_section"@ {
                "add `"@ + field_or(f, "expected"@, "section"@) + "` section"@
            } else if f.code == "missing_prose"@ {
                "add text after `## "@ + field_or(f, "section"@, "heading"@) + "`"@
            } else if f.code == "missing_table"@ {
                "add a markdown table"@
            } else if f.code == "invalid_value"@ {
                let expected = field_or(f, "expected"@, seq![]);
                if key.len() > 0 && expected == "bool"@ {
                    "change `"@ + key + "` to `true` or `false`"@
                } else if key.len() > 0 && expected.len() > 0 {
                    "change `"@ + key + "` to "@ + expected
                } else if key.len() > 0 {
                    "fix the value of `"@ + key + "`"@
                } else {
                    "fix the value"@
                }
            } else if f.code == "invalid_name"@ {
                "rename to match the expected pattern"@
            } else if f.code == "io_error"@ {
                "check that the file exists and is readable"@
            } else if f.code == "column_mismatch"@ {
                "rename column to `"@ + field_or(f, "expected"@, "column"@) + "`"@
            } else if f.code == "row_count"@ {
                "add at least one data row to the table"@
            } else if f.code == "section_count"@ {
                "add the required sections"@
            } else {
                seq![]
            }
        },
    }
}

pub open spec fn property_line(key: Seq<char>, value: Seq<char>) -> Seq<char> {
    "- "@ + key + ": "@ + value + "\n"@
}

pub open spec fn field_lines(fields: Seq<(Seq<char>, Seq<char>)>) -> Seq<char>
    decreases fields.len(),
{
    if fields.len() == 0 {
        seq![]
    } else {
        field_lines(fields.drop_last()) + property_line(fields.last().0, fields.last().1)
    }
}

/// One error written as structmd properties (the verbose format).
pub open spec fn write_to_spec(f: FormatterView) -> Seq<char> {
    let line_part = match f.line {
        Some(l) => "- line: "@ + dec(l) + "\n"@,
        None => seq![],
    };
    let fix = derive_fix_spec(f);
    line_part + field_lines(f.fields) + "- code: "@ + f.code + "\n"@ + if fix.len() > 0 {
        "- fix: "@ + fix + "\n"@
    } else {
        seq![]
    }
}

impl ErrorFormatter {
    /// An empty formatter, as handed to `Diagnostic::render`.
    pub fn new() -> (f: Self)
        ensures
            f@ == empty_formatter(),
    {
        let f = ErrorFormatter { code: String::new(), line: None, fields: Vec::new(), fix_override: None };
        assert(f@.fields =~= Seq::<(Seq<char>, Seq<char>)>::empty());
        f
    }

    /// Set the error code (e.g. "missing_property", "invalid_value", "io_error").
    pub fn code(&mut self, code: &str)
        ensures
            final(self)@ == (FormatterView { code: code@, ..old(self)@ }),
    {
        self.code = string_from(code);
    }

    /// Set the line number where the error occurred.
    pub fn line(&mut self, line: usize)
        ensures
            final(self)@ == (FormatterView { line: Some(line as nat), ..old(self)@ }),
    {
        self.line = Some(line);
    }

    /// Add a named field to the error output.
    pub fn field(&mut self, key: &str, value: &str)
        ensures
            final(self)@ == (FormatterView { fields: old(self)@.fields.push((key@, value@)), ..old(self)@ }),
    {
        let ghost old_fields = self.fields@;
        self.fields.push((string_from(key), string_from(value)));
        assert(pairs_view(self.fields@) =~= pairs_view(old_fields).push((key@, value@)));
    }

    /// Override the auto-generated fix text.
    pub fn fix(&mut self, fix: &str)
        ensures
            final(self)@ == (FormatterView { fix_override: Some(fix@), ..old(self)@ }),
    {
        self.fix_override = Some(string_from(fix));
    }

    fn get_field(&self, key: &str) -> (r: Option<&str>)
        ensures
            match r {
                Some(v) => get_field_spec(self@, key@) == Some(v@),
                None => get_field_spec(self@, key@) is None,
            },
    {
        let mut i: usize = 0;
        while i < self.fields.len()
            invariant
                i <= self.fields@.len(),
                get_field_spec(self@, key@) == get_field_from(self@.fields, key@, i as int),
            decreases self.fields@.len() - i,
        {
            assert(self@.fields[i as int] == (self.fields@[i as int].0@, self.fields@[i as int].1@));
            if str_eq(self.fields[i].0.as_str(), key) {
                return Some(self.fields[i].1.as_str());
            }
            i = i + 1;
        }
        None
    }

    fn field_or(&self, key: &str, default: &str) -> (r: String)
        ensures
            r@ == field_or(self@, key@, default@),
    {
        match self.get_field(key) {
            Some(v) => string_from(v),
            None => string_from(default),
        }
    }

    fn derive_fix(&self) -> (r: String)
        ensures
            r@ == derive_fix_spec(self@),
    {
        proof {
            reveal_strlit("");
        }
        if let Some(fix) = &self.fix_override {
            return fix.clone();
        }
        let key = self.field_or("key", "");
        let code = self.code.as_str();
        let mut out = String::new();
        if str_eq(code, "missing_property") {
            append_str(&mut out, "add `- ");
            append_str(&mut out, key.as_str());
            append_str(&mut out, ": <value>`");
        } else if str_eq(code, "missing_section") {
            let expected = self.field_or("expected", "section");
            append_str(&mut out, "add `");
            append_str(&mut out, expected.as_str());
            append_str(&mut out, "` section");
        } else if str_eq(code, "missing_prose") {
            let section = self.field_or("section", "heading");
            append_str(&mut out, "add text after `## ");
            append_str(&mut out, section.as_str());
            append_str(&mut out, "`");
        } else if str_eq(code, "missing_table") {
            append_str(&mut out, "add a markdown table");
        } else if str_eq(code, "invalid_value") {
            let expected = self.field_or("expected", "");
            assert(""@ =~= Seq::<char>::empty());
            assert(expected@ == field_or(self@, "expected"@, seq![]));
            assert(key@ == field_or(self@, "key"@, seq![]));
            if !key.as_str().is_empty() && str_eq(expected.as_str(), "bool") {
                append_str(&mut out, "change `");
                append_str(&mut out, key.as_str());
                append_str(&mut out, "` to `true` or `false`");
                assert(out@ =~= "change `"@ + key@ + "` to `true` or `false`"@);
                assert(out@ == derive_fix_spec(self@));
            } else if !key.as_str().is_empty() && !expected.as_str().is_empty() {
                append_str(&mut out, "change `");
                append_str(&mut out, key.as_str());
                append_str(&mut out, "` to ");
                append_str(&mut out, expected.as_str());
                assert(out@ =~= "change `"@ + key@ + "` to "@ + expected@);
                assert(out@ == derive_fix_spec(self@));
            } else if !key.as_str().is_empty() {
                append_str(&mut out, "fix the value of `");
                append_str(&mut out, key.as_str());
                append_str(&mut out, "`");
                assert(out@ =~= "fix the value of `"@ + key@ + "`"@);
                assert(out@ == derive_fix_spec(self@));
            } else {
                append_str(&mut out, "fix the value");
                assert(out@ =~= "fix the value"@);
                assert(out@ == derive_fix_spec(self@));
            }
        } else if str_eq(code, "invalid_name") {
            append_str(&mut out, "rename to match the expected pattern");
        } else if str_eq(code, "io_error") {
            append_str(&mut out, "check that the file exists and is readable");
        } else if str_eq(code, "column_mismatch") {
            let expected = self.field_or("expected", "column");
            append_str(&mut out, "rename column to `");
            append_str(&mut out, expected.as_str());
            append_str(&mut out, "`");
        } else if str_eq(code, "row_count") {
            append_str(&mut out, "add at least one data row to the table");
        } else if str_eq(code, "section_count") {
            append_str(&mut out, "add the required sections");
        }
        proof {
            reveal_strlit("");
        }
        out
    }

    fn write_to(&self, out: &mut String)
        ensures
            final(out)@ == old(out)@ + write_to_spec(self@),
    {
        let ghost start = out@;
        if let Some(line) = self.line {
            append_str(out, "- line: ");
            append_dec(out, line);
            append_str(out, "\n");
        }
        let ghost after_line = out@;
        let mut i: usize = 0;
        while i < self.fields.len()
            invariant
                i <= self.fields@.len(),
                out@ == after_line + field_lines(self@.fields.take(i as int)),
            decreases self.fields@.len() - i,
        {
            assert(self@.fields.take(i + 1).drop_last() =~= self@.fields.take(i as int));
            assert(self@.fields[i as int] == (self.fields@[i as int].0@, self.fields@[i as int].1@));
            append_str(out, "- ");
            append_str(out, self.fields[i].0.as_str());
            append_str(out, ": ");
            append_str(out, self.fields[i].1.as_str());
            append_str(out, "\n");
            i = i + 1;
        }
        assert(self@.fields.take(self@.fields.len() as int) =~= self@.fields);
        append_str(out, "- code: ");
        append_str(out, self.code.as_str());
        append_str(out, "\n");
        let fix = self.derive_fix();
        if !fix.as_str().is_empty() {
            append_str(out, "- fix: ");
            append_str(out, fix.as_str());
            append_str(out, "\n");
        }
        proof {
            let line_part = match self@.line {
                Some(l) => "- line: "@ + dec(l) + "\n"@,
                None => seq![],
            };
            assert(after_line =~= start + line_part);
        }
        assert(out@ =~= start + write_to_spec(self@));
    }
}

// ── Dense table ──

pub open spec fn any_line(fs: Seq<FormatterView>) -> bool {
    exists|i: int| 0 <= i < fs.len() && (#[trigger] fs[i]).line is Some
}

pub open spec fn any_field(fs: Seq<FormatterView>, key: Seq<char>) -> bool {
    exists|i: int| 0 <= i < fs.len() && get_field_spec(#[trigger] fs[i], key) is Some
}

pub open spec fn opt_col(present: bool, name: Seq<char>) -> Seq<Seq<char>> {
    if present {
        seq![name]
    } else {
        seq![]
    }
}

/// The columns of the dense table: those with data in some error, plus `code` and `fix`.
pub open spec fn table_columns(fs: Seq<FormatterView>) -> Seq<Seq<char>> {
    opt_col(any_line(fs), "line"@) + opt_col(any_field(fs, "file"@), "file"@) + opt_col(
        any_field(fs, "section"@),
        "section"@,
    ) + seq!["code"@] + opt_col(any_field(fs, "key"@), "key"@) + opt_col(
        any_field(fs, "got"@),
        "got"@,
    ) + seq!["fix"@]
}

pub open spec fn line_cell(f: FormatterView) -> Seq<char> {
    match f.line {
        Some(l) => dec(l),
        None => seq![],
    }
}

/// The cells of one error's row of the dense table.
pub open spec fn row_cells(f: FormatterView, fs: Seq<FormatterView>) -> Seq<Seq<char>> {
    opt_col(any_line(fs), line_cell(f)) + opt_col(any_field(fs, "file"@), field_or(f, "file"@, seq![]))
        + opt_col(any_field(fs, "section"@), field_or(f, "section"@, seq![])) + seq![f.code]
        + opt_col(any_field(fs, "key"@), field_or(f, "key"@, seq![])) + opt_col(
        any_field(fs, "got"@),
        field_or(f, "got"@, seq![]),
    ) + seq![derive_fix_spec(f)]
}

pub open spec fn table_row(cells: Seq<Seq<char>>) -> Seq<char> {
    "| "@ + join(cells, " | "@) + " |\n"@
}

pub open spec fn dashes(n: nat) -> Seq<char> {
    Seq::new(n, |i: int| '-')
}

pub open spec fn separator_row(cols: Seq<Seq<char>>) -> Seq<char> {
    "|"@ + join(cols.map_values(|c: Seq<char>| dashes(c.len() + 2)), "|"@) + "|\n"@
}

pub open spec fn table_rows(fs: Seq<FormatterView>, all: Seq<FormatterView>) -> Seq<char>
    decreases fs.len(),
{
    if fs.len() == 0 {
        seq![]
    } else {
        table_rows(fs.drop_last(), all) + table_row(row_cells(fs.last(), all))
    }
}

pub open spec fn table_title(source: Seq<char>, n: nat) -> Seq<char> {
    "# "@ + source + " \u{2014} "@ + dec(n) + " error(s)\n\n"@
}

/// The dense markdown table of a list of rendered errors.
pub open spec fn table_text(source: Seq<char>, fs: Seq<FormatterView>) -> Seq<char> {
    table_title(source, fs.len()) + table_row(table_columns(fs)) + separator_row(table_columns(fs))
        + table_rows(fs, fs)
}

// ── Verbose format ──

pub open spec fn verbose_sections(fs: Seq<FormatterView>) -> Seq<char>
    decreases fs.len(),
{
    if fs.len() == 0 {
        seq![]
    } else {
        verbose_sections(fs.drop_last()) + "\n## error-"@ + dec(fs.len()) + "\n\n"@ + write_to_spec(
            fs.last(),
        )
    }
}

/// The verbose format: one `##` section per error.
pub open spec fn verbose_text(source: Seq<char>, fs: Seq<FormatterView>) -> Seq<char> {
    "# "@ + source + "\n\n"@ + dec(fs.len()) + " error(s)\n"@ + verbose_sections(fs)
}

pub open spec fn formatters_view(v: Seq<ErrorFormatter>) -> Seq<FormatterView> {
    v.map_values(|f: ErrorFormatter| f@)
}


/// Appends `parts` joined with `sep` to `out`.
fn append_joined(out: &mut String, parts: &Vec<String>, sep: &str)
    ensures
        final(out)@ == old(out)@ + join(parts@.map_values(|s: String| s@), sep@),
{
    let ghost ps = parts@.map_values(|s: String| s@);
    let ghost start = out@;
    let mut i: usize = 0;
    while i < parts.len()
        invariant
            i <= parts@.len(),
            ps == parts@.map_values(|s: String| s@),
            out@ == start + join(ps.take(i as int), sep@),
        decreases parts@.len() - i,
    {
        assert(ps.take(i + 1).drop_last() =~= ps.take(i as int));
        assert(ps[i as int] == parts@[i as int]@);
        if i > 0 {
            append_str(out, sep);
        } else {
            assert(ps.take(1) =~= seq![ps[0]]);
            assert(join(ps.take(0), sep@) =~= Seq::<char>::empty());
        }
        append_str(out, parts[i].as_str());
        i = i + 1;
    }
    assert(ps.take(parts@.len() as int) =~= ps);
}

fn any_line_exec(fs: &Vec<ErrorFormatter>) -> (r: bool)
    ensures
        r == any_line(formatters_view(fs@)),
{
    let ghost fv = formatters_view(fs@);
    let mut i: usize = 0;
    while i < fs.len()
        invariant
            i <= fs@.len(),
            fv == formatters_view(fs@),
            forall|j: int| 0 <= j < i ==> (#[trigger] fv[j]).line is None,
        decreases fs@.len() - i,
    {
        assert(fv[i as int] == fs@[i as int]@);
        if fs[i].line.is_some() {
            return true;
        }
        i = i + 1;
    }
    false
}

fn any_field_exec(fs: &Vec<ErrorFormatter>, key: &str) -> (r: bool)
    ensures
        r == any_field(formatters_view(fs@), key@),
{
    let ghost fv = formatters_view(fs@);
    let mut i: usize = 0;
    while i < fs.len()
        invariant
            i <= fs@.len(),
            fv == formatters_view(fs@),
            forall|j: int| 0 <= j < i ==> get_field_spec(#[trigger] fv[j], key@) is None,
        decreases fs@.len() - i,
    {
        assert(fv[i as int] == fs@[i as int]@);
        if fs[i].get_field(key).is_some() {
            return true;
        }
        i = i + 1;
    }
    false
}

fn push_opt(v: &mut Vec<String>, present: bool, s: String)
    ensures
        final(v)@.map_values(|x: String| x@) == old(v)@.map_values(|x: String| x@) + opt_col(
            present,
            s@,
        ),
{
    let ghost old_v = v@;
    if present {
        v.push(s);
        assert(v@.map_values(|x: String| x@) =~= old_v.map_values(|x: String| x@) + seq![s@]);
    } else {
        assert(v@.map_values(|x: String| x@) =~= old_v.map_values(|x: String| x@) + Seq::<
            Seq<char>,
        >::empty());
    }
}

fn row_string(
    f: &ErrorFormatter,
    has_line: bool,
    has_file: bool,
    has_section: bool,
    has_key: bool,
    has_got: bool,
    Ghost(fv): Ghost<Seq<FormatterView>>,
) -> (r: String)
    requires
        has_line == any_line(fv),
        has_file == any_field(fv, "file"@),
        has_section == any_field(fv, "section"@),
        has_key == any_field(fv, "key"@),
        has_got == any_field(fv, "got"@),
    ensures
        r@ == table_row(row_cells(f@, fv)),
{
    let mut cells: Vec<String> = Vec::new();
    let line_cell = match f.line {
        Some(l) => crate::text::dec_string(l),
        None => String::new(),
    };
    push_opt(&mut cells, has_line, line_cell);
    push_opt(&mut cells, has_file, f.field_or("file", ""));
    push_opt(&mut cells, has_section, f.field_or("section", ""));
    push_opt(&mut cells, true, f.code.clone());
    push_opt(&mut cells, has_key, f.field_or("key", ""));
    push_opt(&mut cells, has_got, f.field_or("got", ""));
    push_opt(&mut cells, true, f.derive_fix());
    proof {
        reveal_strlit("");
        assert(""@ =~= Seq::<char>::empty());
    }
    assert(cells@.map_values(|x: String| x@) =~= row_cells(f@, fv));
    let mut out = String::new();
    append_str(&mut out, "| ");
    append_joined(&mut out, &cells, " | ");
    append_str(&mut out, " |\n");
    assert(out@ =~= table_row(row_cells(f@, fv)));
    out
}

/// Renders already-formatted errors as a dense markdown table.
pub fn render_table(source: &str, formatted: &Vec<ErrorFormatter>) -> (r: String)
    ensures
        r@ == table_text(source@, formatters_view(formatted@)),
{
    let ghost fv = formatters_view(formatted@);
    let has_line = any_line_exec(formatted);
    let has_file = any_field_exec(formatted, "file");
    let has_section = any_field_exec(formatted, "section");
    let has_key = any_field_exec(formatted, "key");
    let has_got = any_field_exec(formatted, "got");

    let mut out = String::new();
    append_str(&mut out, "# ");
    append_str(&mut out, source);
    append_str(&mut out, " \u{2014} ");
    append_dec(&mut out, formatted.len());
    append_str(&mut out, " error(s)\n\n");
    assert(out@ =~= table_title(source@, fv.len()));

    let mut cols: Vec<String> = Vec::new();
    push_opt(&mut cols, has_line, string_from("line"));
    push_opt(&mut cols, has_file, string_from("file"));
    push_opt(&mut cols, has_section, string_from("section"));
    push_opt(&mut cols, true, string_from("code"));
    push_opt(&mut cols, has_key, string_from("key"));
    push_opt(&mut cols, has_got, string_from("got"));
    push_opt(&mut cols, true, string_from("fix"));
    let ghost cv = cols@.map_values(|x: String| x@);
    assert(cv =~= table_columns(fv));

    let ghost before_header = out@;
    append_str(&mut out, "| ");
    append_joined(&mut out, &cols, " | ");
    append_str(&mut out, " |\n");
    assert(out@ =~= before_header + table_row(cv));

    let mut dash_cells: Vec<String> = Vec::new();
    let mut k: usize = 0;
    while k < cols.len()
        invariant
            k <= cols@.len(),
            cv == cols@.map_values(|x: String| x@),
            dash_cells@.map_values(|x: String| x@) == cv.take(k as int).map_values(
                |c: Seq<char>| dashes(c.len() + 2),
            ),
        decreases cols@.len() - k,
    {
        let n = crate::text::chars_of(cols[k].as_str()).len();
        let mut d = String::new();
        push_char(&mut d, '-');
        push_char(&mut d, '-');
        assert(d@ =~= dashes(2));
        let mut j: usize = 0;
        while j < n
            invariant
                j <= n,
                d@ == dashes((j + 2) as nat),
            decreases n - j,
        {
            push_char(&mut d, '-');
            assert(d@ =~= dashes((j + 3) as nat));
            j = j + 1;
        }
        assert(cv[k as int] == cols@[k as int]@);
        let ghost old_d = dash_cells@;
        dash_cells.push(d);
        assert(dash_cells@.map_values(|x: String| x@) =~= old_d.map_values(|x: String| x@).push(
            dashes(cv[k as int].len() + 2),
        ));
        assert(cv.take(k + 1).map_values(|c: Seq<char>| dashes(c.len() + 2)) =~= cv.take(
            k as int,
        ).map_values(|c: Seq<char>| dashes(c.len() + 2)).push(dashes(cv[k as int].len() + 2)));
        k = k + 1;
    }
    assert(cv.take(cols@.len() as int) =~= cv);
    let ghost before_sep = out@;
    append_str(&mut out, "|");
    append_joined(&mut out, &dash_cells, "|");
    append_str(&mut out, "|\n");
    assert(out@ =~= before_sep + separator_row(cv));

    let ghost before_rows = out@;
    let mut i: usize = 0;
    while i < formatted.len()
        invariant
            i <= formatted@.len(),
            fv == formatters_view(formatted@),
            has_line == any_line(fv),
            has_file == any_field(fv, "file"@),
            has_section == any_field(fv, "section"@),
            has_key == any_field(fv, "key"@),
            has_got == any_field(fv, "got"@),
            out@ == before_rows + table_rows(fv.take(i as int), fv),
        decreases formatted@.len() - i,
    {
        let f = &formatted[i];
        assert(fv[i as int] == f@);
        assert(fv.take(i + 1).drop_last() =~= fv.take(i as int));
        let row = row_string(f, has_line, has_file, has_section, has_key, has_got, Ghost(fv));
        append_str(&mut out, row.as_str());
        i = i + 1;
    }
    assert(fv.take(formatted@.len() as int) =~= fv);
    out
}

/// What each of `errors` writes into a fresh formatter, in order.
pub open spec fn rendered_dyn(errors: Seq<&dyn Diagnostic>) -> Seq<FormatterView> {
    Seq::new(errors.len(), |j: int| errors[j].render_spec(empty_formatter()))
}

/// What each of `errors` writes into a fresh formatter, in order.
pub open spec fn rendered_all<E: Diagnostic>(errors: Seq<E>) -> Seq<FormatterView> {
    Seq::new(errors.len(), |j: int| errors[j].render_spec(empty_formatter()))
}

/// Renders each error into a fresh formatter.
fn format_all(errors: &[&dyn Diagnostic]) -> (r: Vec<ErrorFormatter>)
    ensures
        formatters_view(r@) == rendered_dyn(errors@),
{
    let mut formatted: Vec<ErrorFormatter> = Vec::new();
    let mut i: usize = 0;
    while i < errors.len()
        invariant
            i <= errors@.len(),
            formatters_view(formatted@) == rendered_dyn(errors@).take(i as int),
        decreases errors@.len() - i,
    {
        let mut f = ErrorFormatter::new();
        errors[i].render(&mut f);
        let ghost before = formatters_view(formatted@);
        formatted.push(f);
        assert(formatters_view(formatted@) =~= before.push(f@));
        assert(rendered_dyn(errors@).take(i + 1) =~= rendered_dyn(errors@).take(i as int).push(f@));
        i = i + 1;
    }
    assert(rendered_dyn(errors@).take(errors@.len() as int) =~= rendered_dyn(errors@));
    formatted
}

/// Renders each error into a fresh formatter.
fn format_each<E: Diagnostic>(errors: &[E]) -> (r: Vec<ErrorFormatter>)
    ensures
        formatters_view(r@) == rendered_all(errors@),
{
    let mut formatted: Vec<ErrorFormatter> = Vec::new();
    let mut i: usize = 0;
    while i < errors.len()
        invariant
            i <= errors@.len(),
            formatters_view(formatted@) == rendered_all(errors@).take(i as int),
        decreases errors@.len() - i,
    {
        let mut f = ErrorFormatter::new();
        errors[i].render(&mut f);
        let ghost before = formatters_view(formatted@);
        formatted.push(f);
        assert(formatters_view(formatted@) =~= before.push(f@));
        assert(rendered_all(errors@).take(i + 1) =~= rendered_all(errors@).take(i as int).push(f@));
        i = i + 1;
    }
    assert(rendered_all(errors@).take(errors@.len() as int) =~= rendered_all(errors@));
    formatted
}

// ── Render functions ──

/// Render a single error as a dense markdown table (default).
pub fn render(source: &str, error: &dyn Diagnostic) -> (r: String)
    ensures
        r@ == table_text(source@, seq![error.render_spec(empty_formatter())]),
{
    let mut f = ErrorFormatter::new();
    error.render(&mut f);
    let mut formatted: Vec<ErrorFormatter> = Vec::new();
    formatted.push(f);
    assert(formatters_view(formatted@) =~= seq![error.render_spec(empty_formatter())]);
    render_table(source, &formatted)
}

/// Render multiple errors as a dense markdown table (default): one row per
/// error, in order, from what each error writes into a fresh formatter.
pub fn render_all(source: &str, errors: &[&dyn Diagnostic]) -> (r: String)
    ensures
        r@ == table_text(source@, rendered_dyn(errors@)),
{
    let formatted = format_all(errors);
    render_table(source, &formatted)
}

/// Render a Vec of errors as a dense markdown table (default).
pub fn render_vec<E: Diagnostic>(source: &str, errors: &[E]) -> (r: String)
    ensures
        r@ == table_text(source@, rendered_all(errors@)),
{
    let formatted = format_each(errors);
    render_table(source, &formatted)
}

/// Renders already-formatted errors in the verbose format.
pub fn render_sections(source: &str, formatted: &Vec<ErrorFormatter>) -> (r: String)
    ensures
        r@ == verbose_text(source@, formatters_view(formatted@)),
{
    let ghost fv = formatters_view(formatted@);
    let mut out = String::new();
    append_str(&mut out, "# ");
    append_str(&mut out, source);
    append_str(&mut out, "\n\n");
    append_dec(&mut out, formatted.len());
    append_str(&mut out, " error(s)\n");
    let ghost head = out@;
    let mut i: usize = 0;
    while i < formatted.len()
        invariant
            i <= formatted@.len(),
            fv == formatters_view(formatted@),
            out@ == head + verbose_sections(fv.take(i as int)),
        decreases formatted@.len() - i,
    {
        assert(fv.take(i + 1).drop_last() =~= fv.take(i as int));
        assert(fv[i as int] == formatted@[i as int]@);
        append_str(&mut out, "\n## error-");
        append_dec(&mut out, i + 1);
        append_str(&mut out, "\n\n");
        formatted[i].write_to(&mut out);
        i = i + 1;
    }
    assert(fv.take(formatted@.len() as int) =~= fv);
    out
}

/// Render a single error as verbose structmd (one section per error).
pub fn render_verbose(source: &str, error: &dyn Diagnostic) -> (r: String)
    ensures
        r@ == verbose_text(source@, seq![error.render_spec(empty_formatter())]),
{
    let mut f = ErrorFormatter::new();
    error.render(&mut f);
    let mut formatted: Vec<ErrorFormatter> = Vec::new();
    formatted.push(f);
    assert(formatters_view(formatted@) =~= seq![error.render_spec(empty_formatter())]);
    render_sections(source, &formatted)
}

/// Render multiple errors as verbose structmd (one section per error, in order).
pub fn render_all_verbose(source: &str, errors: &[&dyn Diagnostic]) -> (r: String)
    ensures
        r@ == verbose_text(source@, rendered_dyn(errors@)),
{
    let formatted = format_all(errors);
    render_sections(source, &formatted)
}

/// Render a Vec of errors as verbose structmd (one section per error, in order).
pub fn render_vec_verbose<E: Diagnostic>(source: &str, errors: &[E]) -> (r: String)
    ensures
        r@ == verbose_text(source@, rendered_all(errors@)),
{
    let formatted = format_each(errors);
    render_sections(source, &formatted)
}

// ── Flat error struct used by the validators ──

/// Flat error struct used by the validators.
/// Implements Diagnostic so it can be rendered with the same formatter.
#[derive(Debug)]
pub struct Error {
    pub file: String,
    pub line: usize,
    pub section: String,
    pub code: String,
    pub key: String,
    pub got: String,
    pub expected: String,
    pub fix: String,
}

pub ghost struct ErrorView {
    pub file: Seq<char>,
    pub line: nat,
    pub section: Seq<char>,
    pub code: Seq<char>,
    pub key: Seq<char>,
    pub got: Seq<char>,
    pub expected: Seq<char>,
    pub fix: Seq<char>,
}

impl View for Error {
    type V = ErrorView;

    open spec fn view(&self) -> ErrorView {
        ErrorView {
            file: self.file@,
            line: self.line as nat,
            section: self.section@,
            code: self.code@,
            key: self.key@,
            got: self.got@,
            expected: self.expected@,
            fix: self.fix@,
        }
    }
}

/// An error with only file, line, section and code set.
pub open spec fn new_error(file: Seq<char>, line: nat, section: Seq<char>, code: Seq<char>) -> ErrorView {
    ErrorView { file, line, section, code, key: seq![], got: seq![], expected: seq![], fix: seq![] }
}

impl Error {
    pub fn new(file: &str, line: usize, section: &str, code: &str) -> (e: Self)
        ensures
            e@ == new_error(file@, line as nat, section@, code@),
    {
        Error {
            file: string_from(file),
            line,
            section: string_from(section),
            code: string_from(code),
            key: String::new(),
            got: String::new(),
            expected: String::new(),
            fix: String::new(),
        }
    }

    pub fn with_key(self, key: &str) -> (e: Self)
        ensures
            e@ == (ErrorView { key: key@, ..self@ }),
    {
        let mut e = self;
        e.key = string_from(key);
        e
    }

    pub fn with_got(self, got: &str) -> (e: Self)
        ensures
            e@ == (ErrorView { got: got@, ..self@ }),
    {
        let mut e = self;
        e.got = string_from(got);
        e
    }

    pub fn with_expected(self, expected: &str) -> (e: Self)
        ensures
            e@ == (ErrorView { expected: expected@, ..self@ }),
    {
        let mut e = self;
        e.expected = string_from(expected);
        e
    }

    pub fn with_fix(self, fix: &str) -> (e: Self)
        ensures
            e@ == (ErrorView { fix: fix@, ..self@ }),
    {
        let mut e = self;
        e.fix = string_from(fix);
        e
    }

    /// One-line description: `file:line: [section] code key=... got=...`.
    pub fn to_display_string(&self) -> (r: String)
        ensures
            r@ == display_spec(self@),
    {
        let mut out = String::new();
        append_str(&mut out, self.file.as_str());
        append_str(&mut out, ":");
        append_dec(&mut out, self.line);
        append_str(&mut out, ": [");
        append_str(&mut out, self.section.as_str());
        append_str(&mut out, "] ");
        append_str(&mut out, self.code.as_str());
        let ghost mid = out@;
        if !self.key.as_str().is_empty() {
            append_str(&mut out, " key=");
            append_str(&mut out, self.key.as_str());
        }
        let ghost mid2 = out@;
        if !self.got.as_str().is_empty() {
            append_str(&mut out, " got=");
            append_str(&mut out, self.got.as_str());
        }
        assert(out@ =~= display_spec(self@));
        out
    }
}

pub open spec fn display_spec(e: ErrorView) -> Seq<char> {
    e.file + ":"@ + dec(e.line) + ": ["@ + e.section + "] "@ + e.code + (if e.key.len() > 0 {
        " key="@ + e.key
    } else {
        seq![]
    }) + (if e.got.len() > 0 {
        " got="@ + e.got
    } else {
        seq![]
    })
}

pub open spec fn push_field_if(f: FormatterView, cond: bool, key: Seq<char>, value: Seq<char>) -> FormatterView {
    if cond {
        FormatterView { fields: f.fields.push((key, value)), ..f }
    } else {
        f
    }
}

/// What `Error::render` writes into a formatter: the code, the line when it
/// is non-zero, each non-empty field, and the fix as an override when set.
pub open spec fn error_render_spec(f: FormatterView, e: ErrorView) -> FormatterView {
    let f1 = FormatterView { code: e.code, ..f };
    let f2 = if e.line > 0 {
        FormatterView { line: Some(e.line), ..f1 }
    } else {
        f1
    };
    let f3 = push_field_if(f2, e.file.len() > 0, "file"@, e.file);
    let f4 = push_field_if(f3, e.section.len() > 0, "section"@, e.section);
    let f5 = push_field_if(f4, e.key.len() > 0, "key"@, e.key);
    let f6 = push_field_if(f5, e.got.len() > 0, "got"@, e.got);
    let f7 = push_field_if(f6, e.expected.len() > 0, "expected"@, e.expected);
    if e.fix.len() > 0 {
        FormatterView { fix_override: Some(e.fix), ..f7 }
    } else {
        f7
    }
}

impl Diagnostic for Error {
    open spec fn render_spec(&self, before: FormatterView) -> FormatterView {
        error_render_spec(before, self@)
    }

    fn render(&self, f: &mut ErrorFormatter) {
        f.code(self.code.as_str());
        if self.line > 0 {
            f.line(self.line);
        }
        if !self.file.as_str().is_empty() {
            f.field("file", self.file.as_str());
        }
        if !self.section.as_str().is_empty() {
            f.field("section", self.section.as_str());
        }
        if !self.key.as_str().is_empty() {
            f.field("key", self.key.as_str());
        }
        if !self.got.as_str().is_empty() {
            f.field("got", self.got.as_str());
        }
        if !self.expected.as_str().is_empty() {
            f.field("expected", self.expected.as_str());
        }
        if !self.fix.as_str().is_empty() {
            f.fix(self.fix.as_str());
        }
    }
}

pub open spec fn rendered_errors(errors: Seq<Error>) -> Seq<FormatterView> {
    errors.map_values(|e: Error| error_render_spec(empty_formatter(), e@))
}

/// Format a list of Error structs as a dense markdown table.
pub fn format_errors(source: &str, _schema: &str, errors: &[Error]) -> (r: String)
    ensures
        r@ == table_text(source@, rendered_errors(errors@)),
{
    let mut formatted: Vec<ErrorFormatter> = Vec::new();
    let mut i: usize = 0;
    while i < errors.len()
        invariant
            i <= errors@.len(),
            formatters_view(formatted@) == rendered_errors(errors@).take(i as int),
        decreases errors@.len() - i,
    {
        let mut f = ErrorFormatter::new();
        errors[i].render(&mut f);
        let ghost old_f = formatted@;
        formatted.push(f);
        assert(formatters_view(formatted@) =~= formatters_view(old_f).push(f@));
        assert(rendered_errors(errors@).take(i + 1) =~= rendered_errors(errors@).take(i as int).push(
            error_render_spec(empty_formatter(), errors@[i as int]@),
        ));
        i = i + 1;
    }
    assert(rendered_errors(errors@).take(errors@.len() as int) =~= rendered_errors(errors@));
    render_table(source, &formatted)
}

// ── Fix text ──

/// A fix set with [`ErrorFormatter::fix`] is the fix that is written, whatever
/// the code and fields.
pub proof fn lemma_fix_override_wins(f: FormatterView, fix: Seq<char>)
    requires
        f.fix_override == Some(fix),
    ensures
        derive_fix_spec(f) == fix,
{
}

/// An [`Error`] that carries a fix is rendered with exactly that fix.
pub proof fn lemma_error_fix_rendered(e: ErrorView)
    requires
        e.fix.len() > 0,
    ensures
        derive_fix_spec(error_render_spec(empty_formatter(), e)) == e.fix,
{
}

/// An [`Error`] without a fix of its own, coded `missing_property` and naming a
/// key, is rendered with the fix ``add `- key: <value>` ``.
pub proof fn lemma_missing_property_fix(e: ErrorView)
    requires
        e.fix.len() == 0,
        e.code == "missing_property"@,
        e.key.len() > 0,
    ensures
        derive_fix_spec(error_render_spec(empty_formatter(), e)) == "add `- "@ + e.key + ": <value>`"@,
{
    reveal_strlit("file");
    reveal_strlit("section");
    reveal_strlit("key");
    let f = error_render_spec(empty_formatter(), e);
    let f2 = if e.line > 0 {
        FormatterView { line: Some(e.line), ..FormatterView { code: e.code, ..empty_formatter() } }
    } else {
        FormatterView { code: e.code, ..empty_formatter() }
    };
    let f3 = push_field_if(f2, e.file.len() > 0, "file"@, e.file);
    let f4 = push_field_if(f3, e.section.len() > 0, "section"@, e.section);
    let f5 = push_field_if(f4, e.key.len() > 0, "key"@, e.key);
    assert(f4.fields.len() <= 2);
    assert("file"@.len() != "key"@.len() && "section"@.len() != "key"@.len());
    assert forall|i: int| 0 <= i < f4.fields.len() implies (#[trigger] f4.fields[i]).0 != "key"@ by {
        if f3.fields.len() == 1 && i == 0 {
            assert(f4.fields[0] == f3.fields[0]);
        }
    }
    assert(forall|i: int| 0 <= i < f4.fields.len() ==> (#[trigger] f4.fields[i]).0 != "key"@);
    lemma_get_field_after(f.fields, "key"@, f4.fields.len() as int);
    assert(f.fields[f4.fields.len() as int] == ("key"@, e.key));
}

/// `get_field_from` skips a prefix that does not hold `key`.
proof fn lemma_get_field_after(fields: Seq<(Seq<char>, Seq<char>)>, key: Seq<char>, n: int)
    requires
        0 <= n < fields.len(),
        forall|i: int| 0 <= i < n ==> (#[trigger] fields[i]).0 != key,
        fields[n].0 == key,
    ensures
        get_field_from(fields, key, 0) == Some(fields[n].1),
{
    lemma_get_field_skip(fields, key, 0, n);
}

proof fn lemma_get_field_skip(fields: Seq<(Seq<char>, Seq<char>)>, key: Seq<char>, i: int, n: int)
    requires
        0 <= i <= n < fields.len(),
        forall|j: int| i <= j < n ==> (#[trigger] fields[j]).0 != key,
        fields[n].0 == key,
    ensures
        get_field_from(fields, key, i) == Some(fields[n].1),
    decreases n - i,
{
    if i < n {
        lemma_get_field_skip(fields, key, i + 1, n);
    }
}


/// `format_errors` prints the same table as `render_vec` over the same errors.
pub proof fn lemma_format_errors_is_render_vec(source: Seq<char>, errors: Seq<Error>)
    ensures
        table_text(source, rendered_errors(errors)) == table_text(source, rendered_all(errors)),
{
    assert(rendered_errors(errors) =~= rendered_all(errors));
}

/// With no override, the derived fix is empty exactly for codes it does not know.
pub proof fn lemma_derived_fix_empty_iff_unknown(f: FormatterView)
    requires
        f.fix_override is None,
    ensures
        (derive_fix_spec(f).len() == 0) == !(f.code == "missing_property"@ || f.code == "missing_section"@
            || f.code == "missing_prose"@ || f.code == "missing_table"@ || f.code == "invalid_value"@
            || f.code == "invalid_name"@ || f.code == "io_error"@ || f.code == "column_mismatch"@
            || f.code == "row_count"@ || f.code == "section_count"@),
{
    reveal_strlit("add `- ");
    reveal_strlit("add `");
    reveal_strlit("add text after `## ");
    reveal_strlit("add a markdown table");
    reveal_strlit("change `");
    reveal_strlit("fix the value of `");
    reveal_strlit("fix the value");
    reveal_strlit("rename to match the expected pattern");
    reveal_strlit("check that the file exists and is readable");
    reveal_strlit("rename column to `");
    reveal_strlit("add at least one data row to the table");
    reveal_strlit("add the required sections");
}

// ── Layout of the verbose format ──

/// The `## error-k` section of an error: its heading, then its property lines.
pub open spec fn verbose_block(k: nat, f: FormatterView) -> Seq<char> {
    "\n## error-"@ + dec(k) + "\n\n"@ + write_to_spec(f)
}

/// In the verbose format, section `## error-(i+1)` holds exactly the property
/// lines of the `i`-th error: the sections of the first `i + 1` errors are those
/// of the first `i`, followed by the block of error `i`. With no error there is
/// no section.
pub proof fn lemma_verbose_section_per_error(fs: Seq<FormatterView>, i: int)
    requires
        0 <= i < fs.len(),
    ensures
        verbose_sections(fs.take(i + 1)) == verbose_sections(fs.take(i)) + verbose_block((i + 1) as nat, fs[i]),
        verbose_sections(Seq::<FormatterView>::empty()) == Seq::<char>::empty(),
{
    let t = fs.take(i + 1);
    assert(t.drop_last() =~= fs.take(i));
    assert(t.last() == fs[i]);
    assert(verbose_sections(t.drop_last()) + "\n## error-"@ + dec(t.len()) + "\n\n"@ + write_to_spec(t.last())
        =~= verbose_sections(fs.take(i)) + verbose_block((i + 1) as nat, fs[i]));
}

// ── Columns of the dense table ──

/// A field column of the dense table is there exactly when some error has that
/// field (`line` when some error has a line), `code` and `fix` always are, and
/// in every row the cell under a column is that error's value for it.
pub proof fn lemma_table_columns(fs: Seq<FormatterView>, f: FormatterView, name: Seq<char>)
    requires
        name == "file"@ || name == "section"@ || name == "key"@ || name == "got"@,
    ensures
        table_columns(fs).contains(name) == exists|i: int| 0 <= i < fs.len() && get_field_spec(#[trigger] fs[i], name) is Some,
        table_columns(fs).contains("line"@) == exists|i: int| 0 <= i < fs.len() && (#[trigger] fs[i]).line is Some,
        table_columns(fs).contains("code"@),
        table_columns(fs).contains("fix"@),
        row_cells(f, fs).len() == table_columns(fs).len(),
        forall|j: int|
            0 <= j < table_columns(fs).len() ==> {
                let c = #[trigger] table_columns(fs)[j];
                let cell = row_cells(f, fs)[j];
                &&& (c == "line"@ ==> cell == line_cell(f))
                &&& (c == "file"@ || c == "section"@ || c == "key"@ || c == "got"@ ==> cell == field_or(f, c, seq![]))
                &&& (c == "code"@ ==> cell == f.code)
                &&& (c == "fix"@ ==> cell == derive_fix_spec(f))
            },
{
    reveal_strlit("line");
    reveal_strlit("file");
    reveal_strlit("section");
    reveal_strlit("code");
    reveal_strlit("key");
    reveal_strlit("got");
    reveal_strlit("fix");
    let l = any_line(fs);
    let fi = any_field(fs, "file"@);
    let se = any_field(fs, "section"@);
    let ke = any_field(fs, "key"@);
    let go = any_field(fs, "got"@);
    let cols = table_columns(fs);
    let cells = row_cells(f, fs);
    let names: Seq<Seq<char>> = seq!["line"@, "file"@, "section"@, "code"@, "key"@, "got"@, "fix"@];
    let vals: Seq<Seq<char>> = seq![
        line_cell(f),
        field_or(f, "file"@, seq![]),
        field_or(f, "section"@, seq![]),
        f.code,
        field_or(f, "key"@, seq![]),
        field_or(f, "got"@, seq![]),
        derive_fix_spec(f),
    ];
    let keep: Seq<bool> = seq![l, fi, se, true, ke, go, true];
    assert forall|x: int, y: int| 0 <= x < 7 && 0 <= y < 7 && x != y implies #[trigger] names[x] != #[trigger] names[y] by {
        assert(names[x].len() != names[y].len() || names[x][0] != names[y][0]);
    }
    lemma_table_parts(fs, f);
    assert(cols == select(keep, names, 7));
    assert(cells == select(keep, vals, 7));
    lemma_select_pairs(keep, names, vals, 7);
    assert(keep[0] == cols.contains(names[0]));
    assert(keep[1] == cols.contains(names[1]));
    assert(keep[2] == cols.contains(names[2]));
    assert(keep[3] == cols.contains(names[3]));
    assert(keep[4] == cols.contains(names[4]));
    assert(keep[5] == cols.contains(names[5]));
    assert(keep[6] == cols.contains(names[6]));
}

/// The dense table's columns and a row's cells, as selections of the same positions.
proof fn lemma_table_parts(fs: Seq<FormatterView>, f: FormatterView)
    ensures
        table_columns(fs) == select(
            seq![any_line(fs), any_field(fs, "file"@), any_field(fs, "section"@), true, any_field(fs, "key"@), any_field(fs, "got"@), true],
            seq!["line"@, "file"@, "section"@, "code"@, "key"@, "got"@, "fix"@],
            7,
        ),
        row_cells(f, fs) == select(
            seq![any_line(fs), any_field(fs, "file"@), any_field(fs, "section"@), true, any_field(fs, "key"@), any_field(fs, "got"@), true],
            seq![
                line_cell(f),
                field_or(f, "file"@, seq![]),
                field_or(f, "section"@, seq![]),
                f.code,
                field_or(f, "key"@, seq![]),
                field_or(f, "got"@, seq![]),
                derive_fix_spec(f),
            ],
            7,
        ),
{
    reveal_with_fuel(select, 8);
    let keep: Seq<bool> = seq![any_line(fs), any_field(fs, "file"@), any_field(fs, "section"@), true, any_field(fs, "key"@), any_field(fs, "got"@), true];
    let names: Seq<Seq<char>> = seq!["line"@, "file"@, "section"@, "code"@, "key"@, "got"@, "fix"@];
    let vals: Seq<Seq<char>> = seq![
        line_cell(f),
        field_or(f, "file"@, seq![]),
        field_or(f, "section"@, seq![]),
        f.code,
        field_or(f, "key"@, seq![]),
        field_or(f, "got"@, seq![]),
        derive_fix_spec(f),
    ];
    assert(select(keep, names, 7) =~= table_columns(fs));
    assert(select(keep, vals, 7) =~= row_cells(f, fs));
}

/// Selecting the same positions of `names` and `vals` keeps them paired, and
/// with distinct names, a name is selected exactly when its position is kept.
proof fn lemma_select_pairs(keep: Seq<bool>, names: Seq<Seq<char>>, vals: Seq<Seq<char>>, n: int)
    requires
        0 <= n <= keep.len(),
        n <= names.len(),
        n <= vals.len(),
        forall|x: int, y: int| 0 <= x < n && 0 <= y < n && x != y ==> #[trigger] names[x] != #[trigger] names[y],
    ensures
        select(keep, names, n).len() == select(keep, vals, n).len(),
        forall|j: int, k: int|
            0 <= j < select(keep, names, n).len() && 0 <= k < n && #[trigger] select(keep, names, n)[j] == #[trigger] names[k]
                ==> select(keep, vals, n)[j] == vals[k],
        forall|k: int| 0 <= k < n ==> (select(keep, names, n).contains(#[trigger] names[k]) == keep[k]),
    decreases n,
{
    if n > 0 {
        lemma_select_pairs(keep, names, vals, n - 1);
        let a = select(keep, names, n - 1);
        let b = select(keep, vals, n - 1);
        let a2 = select(keep, names, n);
        let b2 = select(keep, vals, n);
        assert forall|j: int, k: int|
            0 <= j < a2.len() && 0 <= k < n && #[trigger] a2[j] == #[trigger] names[k] implies b2[j] == vals[k] by {
            if j < a.len() {
                assert(a2[j] == a[j] && b2[j] == b[j]);
                if k == n - 1 {
                    // a[j] is some names[m] with m < n - 1, distinct from names[n - 1]
                    lemma_select_from(keep, names, n - 1, j);
                }
            } else {
                assert(a2[j] == names[n - 1] && b2[j] == vals[n - 1]);
            }
        }
        assert forall|k: int| 0 <= k < n implies (a2.contains(#[trigger] names[k]) == keep[k]) by {
            if k < n - 1 {
                if a2.contains(names[k]) {
                    let j = choose|j: int| 0 <= j < a2.len() && a2[j] == names[k];
                    if j >= a.len() {
                        assert(a2[j] == names[n - 1]);
                    } else {
                        assert(a[j] == a2[j]);
                    }
                }
                if a.contains(names[k]) {
                    let j = choose|j: int| 0 <= j < a.len() && a[j] == names[k];
                    assert(a2[j] == a[j]);
                }
            } else {
                if keep[n - 1] {
                    assert(a2[a.len() as int] == names[n - 1]);
                } else {
                    assert(a2 =~= a);
                    if a.contains(names[n - 1]) {
                        let j = choose|j: int| 0 <= j < a.len() && a[j] == names[n - 1];
                        lemma_select_from(keep, names, n - 1, j);
                    }
                }
            }
        }
    }
}

/// Each selected entry is one of the entries below `n`.
proof fn lemma_select_from(keep: Seq<bool>, xs: Seq<Seq<char>>, n: int, j: int)
    requires
        0 <= n <= keep.len(),
        n <= xs.len(),
        0 <= j < select(keep, xs, n).len(),
    ensures
        exists|m: int| 0 <= m < n && select(keep, xs, n)[j] == #[trigger] xs[m],
    decreases n,
{
    let a = select(keep, xs, n - 1);
    if j < a.len() {
        assert(select(keep, xs, n)[j] == a[j]);
        lemma_select_from(keep, xs, n - 1, j);
    } else {
        assert(select(keep, xs, n)[j] == xs[n - 1]);
    }
}

/// The entries of `xs` at the kept positions below `n`.
pub open spec fn select(keep: Seq<bool>, xs: Seq<Seq<char>>, n: int) -> Seq<Seq<char>>
    decreases n,
{
    if n <= 0 {
        seq![]
    } else {
        select(keep, xs, n - 1) + if keep[n - 1] {
            seq![xs[n - 1]]
        } else {
            seq![]
        }
    }
}


} // verus!
