//! structmd parser: produces an untyped document tree from markdown text.
//!
//! The parser is permissive: it extracts structure without validating.
//! Validation is done separately against a schema.
//!
//! The parser is line-oriented and single-pass. Its meaning is the spec
//! function [`spec_parse`]: a fold of [`step`] over the lines of the text,
//! followed by [`finish`].
use vstd::prelude::*;
use crate::text::{str_eq, chars_of, contains_char_in, ends_with_at, find_in, line_ranges, push_char, split_ranges, starts_with_at, string_of, trim_matches_range, trim_range, after, before_suffix, ends_with, find, has_char, join, lines, split_char, starts_with, trim, trim_matches};

verus! {

// ── Document tree ──

#[derive(Debug)]
pub struct Document {
    pub nodes: Vec<H1Node>,
}

#[derive(Debug)]
pub struct H1Node {
    pub heading: Option<Heading>,
    pub prose: Option<String>,
    pub properties: Vec<Property>,
    pub sections: Vec<Section>,
}

#[derive(Debug)]
pub struct Heading {
    pub level: u8,
    pub text: String,
    pub line: usize,
}

#[derive(Debug)]
pub struct Section {
    pub heading: Heading,
    pub prose: Option<String>,
    pub prose_line: Option<usize>,
    pub properties: Vec<Property>,
    pub table: Option<Table>,
    pub children: Vec<Section>,
}

#[derive(Debug)]
pub struct Property {
    pub key: String,
    pub value: String,
    pub bold: bool,
    pub line: usize,
}

#[derive(Debug)]
pub struct Table {
    pub header_line: usize,
    pub columns: Vec<String>,
    pub rows: Vec<TableRow>,
}

#[derive(Debug)]
pub struct TableRow {
    pub line: usize,
    pub cells: Vec<String>,
}

// ── Mathematical model of the tree ──

pub ghost struct HeadingView {
    pub level: u8,
    pub text: Seq<char>,
    pub line: nat,
}

pub ghost struct PropertyView {
    pub key: Seq<char>,
    pub value: Seq<char>,
    pub bold: bool,
    pub line: nat,
}

pub ghost struct TableRowView {
    pub line: nat,
    pub cells: Seq<Seq<char>>,
}

pub ghost struct TableView {
    pub header_line: nat,
    pub columns: Seq<Seq<char>>,
    pub rows: Seq<TableRowView>,
}

pub ghost struct SectionView {
    pub heading: HeadingView,
    pub prose: Option<Seq<char>>,
    pub prose_line: Option<nat>,
    pub properties: Seq<PropertyView>,
    pub table: Option<TableView>,
    pub children: Seq<SectionView>,
}

pub ghost struct H1NodeView {
    pub heading: Option<HeadingView>,
    pub prose: Option<Seq<char>>,
    pub properties: Seq<PropertyView>,
    pub sections: Seq<SectionView>,
}

pub ghost struct DocumentView {
    pub nodes: Seq<H1NodeView>,
}

pub open spec fn strings_view(v: Seq<String>) -> Seq<Seq<char>> {
    v.map_values(|s: String| s@)
}

pub open spec fn opt_string_view(o: Option<String>) -> Option<Seq<char>> {
    match o {
        Some(s) => Some(s@),
        None => None,
    }
}

pub open spec fn opt_line_view(o: Option<usize>) -> Option<nat> {
    match o {
        Some(l) => Some(l as nat),
        None => None,
    }
}

impl View for Heading {
    type V = HeadingView;

    open spec fn view(&self) -> HeadingView {
        HeadingView { level: self.level, text: self.text@, line: self.line as nat }
    }
}

impl View for Property {
    type V = PropertyView;

    open spec fn view(&self) -> PropertyView {
        PropertyView { key: self.key@, value: self.value@, bold: self.bold, line: self.line as nat }
    }
}

pub open spec fn props_view(v: Seq<Property>) -> Seq<PropertyView> {
    v.map_values(|p: Property| p@)
}

impl View for TableRow {
    type V = TableRowView;

    open spec fn view(&self) -> TableRowView {
        TableRowView { line: self.line as nat, cells: strings_view(self.cells@) }
    }
}

impl View for Table {
    type V = TableView;

    open spec fn view(&self) -> TableView {
        TableView {
            header_line: self.header_line as nat,
            columns: strings_view(self.columns@),
            rows: self.rows@.map_values(|r: TableRow| r@),
        }
    }
}

pub open spec fn opt_table_view(o: Option<Table>) -> Option<TableView> {
    match o {
        Some(t) => Some(t@),
        None => None,
    }
}

pub open spec fn section_view(s: Section) -> SectionView
    decreases s,
{
    SectionView {
        heading: s.heading@,
        prose: opt_string_view(s.prose),
        prose_line: opt_line_view(s.prose_line),
        properties: props_view(s.properties@),
        table: opt_table_view(s.table),
        children: Seq::new(
            s.children@.len(),
            |i: int|
                if 0 <= i < s.children@.len() {
                    section_view(s.children@[i])
                } else {
                    arbitrary()
                },
        ),
    }
}

/// The view of a section, field by field.
pub proof fn lemma_section_view_parts(s: Section)
    ensures
        s@.heading == s.heading@,
        s@.prose == opt_string_view(s.prose),
        s@.properties == props_view(s.properties@),
        s@.table == opt_table_view(s.table),
        s@.children == sections_view(s.children@),
{
    assert(s@.children =~= sections_view(s.children@));
}

impl View for Section {
    type V = SectionView;

    open spec fn view(&self) -> SectionView {
        section_view(*self)
    }
}

pub open spec fn sections_view(v: Seq<Section>) -> Seq<SectionView> {
    v.map_values(|s: Section| s@)
}

pub open spec fn opt_heading_view(o: Option<Heading>) -> Option<HeadingView> {
    match o {
        Some(h) => Some(h@),
        None => None,
    }
}

impl View for H1Node {
    type V = H1NodeView;

    open spec fn view(&self) -> H1NodeView {
        H1NodeView {
            heading: opt_heading_view(self.heading),
            prose: opt_string_view(self.prose),
            properties: props_view(self.properties@),
            sections: sections_view(self.sections@),
        }
    }
}

pub open spec fn nodes_view(v: Seq<H1Node>) -> Seq<H1NodeView> {
    v.map_values(|n: H1Node| n@)
}

impl View for Document {
    type V = DocumentView;

    open spec fn view(&self) -> DocumentView {
        DocumentView { nodes: nodes_view(self.nodes@) }
    }
}

// ── Line prefixes ──

pub open spec fn fence_mark() -> Seq<char> {
    seq!['`', '`', '`']
}

pub open spec fn h1_mark() -> Seq<char> {
    seq!['#', ' ']
}

pub open spec fn h2_mark() -> Seq<char> {
    seq!['#', '#', ' ']
}

pub open spec fn h3_mark() -> Seq<char> {
    seq!['#', '#', '#', ' ']
}

pub open spec fn item_mark() -> Seq<char> {
    seq!['-', ' ']
}

pub open spec fn bold_open() -> Seq<char> {
    seq!['*', '*']
}

pub open spec fn bold_close() -> Seq<char> {
    seq![':', '*', '*']
}

pub open spec fn colon_space() -> Seq<char> {
    seq![':', ' ']
}

// ── Properties ──

/// `- key: value`, `- key:` or `- **key:** value`, given the text after `- `.
pub open spec fn parse_property_spec(text: Seq<char>, line: nat) -> Option<PropertyView> {
    let rest = after(text, bold_open());
    if starts_with(text, bold_open()) && find(rest, bold_close()) is Some {
        let k = find(rest, bold_close())->0;
        Some(
            PropertyView {
                key: rest.subrange(0, k),
                value: trim(rest.subrange(k + 3, rest.len() as int)),
                bold: true,
                line,
            },
        )
    } else if find(text, colon_space()) is Some && find(text, colon_space())->0 > 0 && !has_char(
        text.subrange(0, find(text, colon_space())->0),
        ' ',
    ) {
        let k = find(text, colon_space())->0;
        Some(
            PropertyView {
                key: text.subrange(0, k),
                value: trim(text.subrange(k + 2, text.len() as int)),
                bold: false,
                line,
            },
        )
    } else if ends_with(text, seq![':']) && text.len() > 1 && !has_char(
        before_suffix(text, seq![':']),
        ' ',
    ) {
        Some(
            PropertyView {
                key: before_suffix(text, seq![':']),
                value: seq![],
                bold: false,
                line,
            },
        )
    } else {
        None
    }
}

// ── Prose ──

pub open spec fn first_nonblank(buf: Seq<Seq<char>>, i: int) -> int
    decreases buf.len() - i,
{
    if i < 0 || i >= buf.len() {
        buf.len() as int
    } else if buf[i].len() > 0 {
        i
    } else {
        first_nonblank(buf, i + 1)
    }
}

pub open spec fn nonblank_end(buf: Seq<Seq<char>>, n: int) -> int
    decreases n,
{
    if n <= 0 || n > buf.len() {
        0
    } else if buf[n - 1].len() > 0 {
        n
    } else {
        nonblank_end(buf, n - 1)
    }
}

/// Captured prose: leading and trailing blank lines stripped, the rest joined
/// with newlines.
pub open spec fn trim_prose_spec(buf: Seq<Seq<char>>) -> Seq<char> {
    let a = first_nonblank(buf, 0);
    let b = nonblank_end(buf, buf.len() as int);
    if a >= b {
        seq![]
    } else {
        join(buf.subrange(a, b), seq!['\n'])
    }
}

// ── Tables ──

pub open spec fn table_cells(t: Seq<char>) -> Seq<Seq<char>> {
    split_char(trim_matches(t, '|'), '|').map_values(|c: Seq<char>| trim(c))
}

pub open spec fn is_separator_char(c: char) -> bool {
    c == '-' || c == ' ' || c == ':'
}

/// A table row made only of `-`, ` ` and `:` is the header separator.
pub open spec fn is_separator_row(cells: Seq<Seq<char>>) -> bool {
    forall|i: int, j: int|
        0 <= i < cells.len() && 0 <= j < cells[i].len() ==> is_separator_char(#[trigger] cells[i][j])
}

// ── Parser state ──

pub ghost struct PState {
    pub nodes: Seq<H1NodeView>,
    pub h2: Option<SectionView>,
    pub h3: Option<SectionView>,
    pub in_table: bool,
    pub in_fence: bool,
    pub fence_key: Option<Seq<char>>,
    pub fence_buf: Seq<Seq<char>>,
    pub fence_start: nat,
    pub prose_buf: Seq<Seq<char>>,
    pub prose_start: Option<nat>,
    pub collecting: bool,
    /// Tags of the fences closed into the current section since its heading.
    pub fence_keys: Seq<Seq<char>>,
}

pub open spec fn init_state() -> PState {
    PState {
        nodes: seq![],
        h2: None,
        h3: None,
        in_table: false,
        in_fence: false,
        fence_key: None,
        fence_buf: seq![],
        fence_start: 0,
        prose_buf: seq![],
        prose_start: None,
        collecting: false,
        fence_keys: seq![],
    }
}

pub open spec fn implicit_node() -> H1NodeView {
    H1NodeView { heading: None, prose: None, properties: seq![], sections: seq![] }
}

pub open spec fn new_section(level: u8, text: Seq<char>, line: nat) -> SectionView {
    SectionView {
        heading: HeadingView { level, text, line },
        prose: None,
        prose_line: None,
        properties: seq![],
        table: None,
        children: seq![],
    }
}

pub open spec fn with_prose(sec: SectionView, text: Seq<char>, start: Option<nat>) -> SectionView {
    SectionView { prose: Some(text), prose_line: start, ..sec }
}

pub open spec fn with_node_prose(n: H1NodeView, text: Seq<char>) -> H1NodeView {
    H1NodeView { prose: Some(text), ..n }
}

/// Attach buffered prose to the innermost open section, or to the last H1 node.
pub open spec fn flush_prose_st(st: PState) -> PState {
    let t = trim_prose_spec(st.prose_buf);
    if t.len() == 0 {
        st
    } else if st.h3 is Some {
        PState { h3: Some(with_prose(st.h3->0, t, st.prose_start)), ..st }
    } else if st.h2 is Some {
        PState { h2: Some(with_prose(st.h2->0, t, st.prose_start)), ..st }
    } else if st.nodes.len() > 0 {
        PState {
            nodes: st.nodes.update(st.nodes.len() - 1, with_node_prose(st.nodes.last(), t)),
            ..st
        }
    } else {
        st
    }
}

pub open spec fn clear_prose_st(st: PState) -> PState {
    PState { prose_buf: seq![], prose_start: None, ..st }
}

pub open spec fn with_child(sec: SectionView, child: SectionView) -> SectionView {
    SectionView { children: sec.children.push(child), ..sec }
}

/// Close the open H3 section, nesting it under the open H2 (if any).
pub open spec fn flush_h3_st(st: PState) -> PState {
    match st.h3 {
        Some(child) => match st.h2 {
            Some(parent) => PState { h2: Some(with_child(parent, child)), h3: None, ..st },
            None => PState { h3: None, ..st },
        },
        None => st,
    }
}

pub open spec fn ensure_node_spec(nodes: Seq<H1NodeView>) -> Seq<H1NodeView> {
    if nodes.len() == 0 {
        seq![implicit_node()]
    } else {
        nodes
    }
}

pub open spec fn with_section(n: H1NodeView, sec: SectionView) -> H1NodeView {
    H1NodeView { sections: n.sections.push(sec), ..n }
}

/// Close the open H2 section, appending it to the last H1 node.
pub open spec fn push_h2_st(st: PState) -> PState {
    match st.h2 {
        Some(sec) => {
            let ns = ensure_node_spec(st.nodes);
            PState { nodes: ns.update(ns.len() - 1, with_section(ns.last(), sec)), h2: None, ..st }
        },
        None => st,
    }
}

pub open spec fn with_property(sec: SectionView, p: PropertyView) -> SectionView {
    SectionView { properties: sec.properties.push(p), ..sec }
}

pub open spec fn with_node_property(n: H1NodeView, p: PropertyView) -> H1NodeView {
    H1NodeView { properties: n.properties.push(p), ..n }
}

/// Attach a property to the innermost open section, or to the last H1 node.
pub open spec fn add_prop_st(st: PState, p: PropertyView) -> PState {
    if st.h3 is Some {
        PState { h3: Some(with_property(st.h3->0, p)), ..st }
    } else if st.h2 is Some {
        PState { h2: Some(with_property(st.h2->0, p)), ..st }
    } else if st.nodes.len() > 0 {
        PState {
            nodes: st.nodes.update(st.nodes.len() - 1, with_node_property(st.nodes.last(), p)),
            ..st
        }
    } else {
        st
    }
}

pub open spec fn collect_prose_st(st: PState, t: Seq<char>, lineno: nat) -> PState {
    if t.len() > 0 {
        PState {
            prose_start: if st.prose_start is None {
                Some(lineno)
            } else {
                st.prose_start
            },
            prose_buf: st.prose_buf.push(t),
            ..st
        }
    } else if st.prose_start is Some {
        PState { prose_buf: st.prose_buf.push(seq![]), ..st }
    } else {
        st
    }
}

pub open spec fn with_table(sec: SectionView, t: TableView) -> SectionView {
    SectionView { table: Some(t), ..sec }
}

pub open spec fn with_row(sec: SectionView, r: TableRowView) -> SectionView {
    match sec.table {
        Some(t) => SectionView { table: Some(TableView { rows: t.rows.push(r), ..t }), ..sec },
        None => sec,
    }
}

/// Apply `f` to the innermost open section.
pub open spec fn set_table_st(st: PState, t: TableView) -> PState {
    if st.h3 is Some {
        PState { h3: Some(with_table(st.h3->0, t)), ..st }
    } else {
        PState { h2: Some(with_table(st.h2->0, t)), ..st }
    }
}

pub open spec fn add_row_st(st: PState, r: TableRowView) -> PState {
    if st.h3 is Some {
        PState { h3: Some(with_row(st.h3->0, r)), ..st }
    } else {
        PState { h2: Some(with_row(st.h2->0, r)), ..st }
    }
}

/// `ps` without the properties named `key`.
pub open spec fn drop_key(ps: Seq<PropertyView>, key: Seq<char>) -> Seq<PropertyView>
    decreases ps.len(),
{
    if ps.len() == 0 {
        ps
    } else {
        drop_key(ps.drop_last(), key) + if ps.last().key == key {
            seq![]
        } else {
            seq![ps.last()]
        }
    }
}

pub open spec fn with_fence_property(sec: SectionView, p: PropertyView) -> SectionView {
    SectionView { properties: drop_key(sec.properties, p.key).push(p), ..sec }
}

pub open spec fn with_node_fence_property(n: H1NodeView, p: PropertyView) -> H1NodeView {
    H1NodeView { properties: drop_key(n.properties, p.key).push(p), ..n }
}

/// A fence's property goes to the innermost open section (else the last H1
/// node) in place of any property there with the same key; its key is noted so
/// that later list items of that key are dropped too.
pub open spec fn add_fence_prop_st(st: PState, p: PropertyView) -> PState {
    let st1 = PState { fence_keys: st.fence_keys.push(p.key), ..st };
    if st.h3 is Some {
        PState { h3: Some(with_fence_property(st.h3->0, p)), ..st1 }
    } else if st.h2 is Some {
        PState { h2: Some(with_fence_property(st.h2->0, p)), ..st1 }
    } else if st.nodes.len() > 0 {
        PState {
            nodes: st.nodes.update(st.nodes.len() - 1, with_node_fence_property(st.nodes.last(), p)),
            ..st1
        }
    } else {
        st1
    }
}

/// A list-item property, unless a fence with its key came first in this section.
pub open spec fn add_item_prop_st(st: PState, p: PropertyView) -> PState {
    if st.fence_keys.contains(p.key) {
        st
    } else {
        add_prop_st(st, p)
    }
}

/// The line that closes a fence (exactly three backticks, after trimming).
pub open spec fn fence_close(st: PState) -> PState {
    let st1 = PState { in_fence: false, ..st };
    match st.fence_key {
        Some(key) => add_fence_prop_st(
            PState { fence_key: None, fence_buf: seq![], ..st1 },
            PropertyView { key, value: join(st.fence_buf, seq!['\n']), bold: false, line: st.fence_start },
        ),
        None => st1,
    }
}

/// A line starting with three backticks outside a fence: a tag without spaces
/// opens a tagged fence, anything else an untagged one.
pub open spec fn fence_open(st: PState, t: Seq<char>, lineno: nat) -> PState {
    let info = trim(after(t, fence_mark()));
    if info.len() > 0 && !has_char(info, ' ') {
        PState { in_fence: true, fence_key: Some(info), fence_start: lineno, fence_buf: seq![], ..st }
    } else {
        PState { in_fence: true, fence_key: None, ..st }
    }
}

/// A line inside a code fence.
pub open spec fn fence_body(st: PState, line: Seq<char>) -> PState {
    if st.fence_key is Some {
        PState { fence_buf: st.fence_buf.push(line), ..st }
    } else {
        st
    }
}

/// Close everything up to the H1 level before a new heading.
pub open spec fn close_for_heading(st: PState) -> PState {
    PState { fence_keys: seq![], ..flush_h3_st(clear_prose_st(flush_prose_st(st))) }
}

/// Heading text is what follows the `# `, `## ` or `### ` marker on the trimmed
/// line: trailing whitespace is gone, blanks right after the marker are kept.
pub open spec fn h1_line(st: PState, t: Seq<char>, lineno: nat) -> PState {
    let s1 = push_h2_st(close_for_heading(st));
    PState {
        nodes: s1.nodes.push(
            H1NodeView {
                heading: Some(HeadingView { level: 1, text: after(t, h1_mark()), line: lineno }),
                prose: None,
                properties: seq![],
                sections: seq![],
            },
        ),
        collecting: true,
        in_table: false,
        ..s1
    }
}

pub open spec fn h2_line(st: PState, t: Seq<char>, lineno: nat) -> PState {
    let s1 = push_h2_st(close_for_heading(st));
    PState {
        h2: Some(new_section(2, after(t, h2_mark()), lineno)),
        collecting: true,
        in_table: false,
        ..s1
    }
}

pub open spec fn h3_line(st: PState, t: Seq<char>, lineno: nat) -> PState {
    let s1 = close_for_heading(st);
    PState {
        h3: Some(new_section(3, after(t, h3_mark()), lineno)),
        collecting: true,
        in_table: false,
        ..s1
    }
}

/// A non-heading line while no H2/H3 section is open.
pub open spec fn top_line(st: PState, t: Seq<char>, lineno: nat) -> PState {
    if starts_with(t, item_mark()) {
        let s1 = PState { collecting: false, ..clear_prose_st(flush_prose_st(st)) };
        match parse_property_spec(after(t, item_mark()), lineno) {
            Some(p) => add_item_prop_st(s1, p),
            None => s1,
        }
    } else if st.collecting {
        collect_prose_st(st, t, lineno)
    } else {
        st
    }
}

/// Stop collecting prose at the first structural element of a section.
pub open spec fn end_prose_st(st: PState) -> PState {
    if st.collecting {
        PState { collecting: false, ..clear_prose_st(flush_prose_st(st)) }
    } else {
        st
    }
}

/// A non-heading line inside an open H2/H3 section.
pub open spec fn section_line(st: PState, t: Seq<char>, lineno: nat) -> PState {
    if starts_with(t, item_mark()) && parse_property_spec(after(t, item_mark()), lineno) is Some {
        let p = parse_property_spec(after(t, item_mark()), lineno)->0;
        PState { in_table: false, ..add_item_prop_st(end_prose_st(st), p) }
    } else if starts_with(t, seq!['|']) {
        let s1 = end_prose_st(st);
        let cells = table_cells(t);
        if is_separator_row(cells) {
            s1
        } else if !s1.in_table {
            PState {
                in_table: true,
                ..set_table_st(s1, TableView { header_line: lineno, columns: cells, rows: seq![] })
            }
        } else {
            add_row_st(s1, TableRowView { line: lineno, cells })
        }
    } else if !st.in_table && st.collecting {
        collect_prose_st(st, t, lineno)
    } else {
        st
    }
}

/// One line of input, numbered from 1.
pub open spec fn step(st: PState, line: Seq<char>, lineno: nat) -> PState {
    let t = trim(line);
    if st.in_fence {
        if t == fence_mark() {
            fence_close(st)
        } else {
            fence_body(st, line)
        }
    } else if starts_with(t, fence_mark()) {
        fence_open(end_prose_st(st), t, lineno)
    } else if starts_with(t, h1_mark()) && !starts_with(t, h2_mark()) {
        h1_line(st, t, lineno)
    } else if starts_with(t, h3_mark()) {
        h3_line(st, t, lineno)
    } else if starts_with(t, h2_mark()) {
        h2_line(st, t, lineno)
    } else if st.h3 is None && st.h2 is None {
        top_line(st, t, lineno)
    } else {
        section_line(st, t, lineno)
    }
}

/// The state after the first `n` lines.
pub open spec fn run(ls: Seq<Seq<char>>, n: nat) -> PState
    decreases n,
{
    if n == 0 || n > ls.len() {
        init_state()
    } else {
        step(run(ls, (n - 1) as nat), ls[n - 1], n)
    }
}

/// Flush everything still open at the end of the text.
pub open spec fn finish(st: PState) -> DocumentView {
    DocumentView { nodes: push_h2_st(flush_h3_st(flush_prose_st(st))).nodes }
}

/// The document tree of `text`.
pub open spec fn spec_parse(text: Seq<char>) -> DocumentView {
    finish(run(lines(text), lines(text).len()))
}


// ── Shape of the tree ──

/// An H3 section: level 3, heading on a line in `1..=max`, no children.
pub open spec fn h3_shaped(s: SectionView, max: nat) -> bool {
    &&& s.heading.level == 3
    &&& 1 <= s.heading.line <= max
    &&& s.children.len() == 0
}

/// An H2 section: level 2, heading on a line in `1..=max`, children H3 sections.
pub open spec fn h2_shaped(s: SectionView, max: nat) -> bool {
    &&& s.heading.level == 2
    &&& 1 <= s.heading.line <= max
    &&& forall|i: int| 0 <= i < s.children.len() ==> h3_shaped(#[trigger] s.children[i], max)
}

/// An H1 node: a level-1 heading on a line in `1..=max` (or none, for content
/// before the first H1), whose sections are H2 sections.
pub open spec fn node_shaped(n: H1NodeView, max: nat) -> bool {
    &&& (n.heading is Some ==> n.heading->0.level == 1 && 1 <= n.heading->0.line <= max)
    &&& forall|i: int| 0 <= i < n.sections.len() ==> h2_shaped(#[trigger] n.sections[i], max)
}

/// Every node is shaped as [`node_shaped`] says, and only the first may lack a heading.
pub open spec fn nodes_shaped(nodes: Seq<H1NodeView>, max: nat) -> bool {
    forall|i: int| 0 <= i < nodes.len() ==> node_shaped(#[trigger] nodes[i], max) && (i > 0 ==> nodes[i].heading is Some)
}

/// The document tree of a text of `max` lines nests as headings promise.
pub open spec fn doc_shaped(d: DocumentView, max: nat) -> bool {
    nodes_shaped(d.nodes, max)
}

pub open spec fn state_shaped(st: PState, max: nat) -> bool {
    &&& nodes_shaped(st.nodes, max)
    &&& (st.h2 is Some ==> h2_shaped(st.h2->0, max))
    &&& (st.h3 is Some ==> h3_shaped(st.h3->0, max))
}

proof fn lemma_shaped_weaken(st: PState, a: nat, b: nat)
    requires
        state_shaped(st, a),
        a <= b,
    ensures
        state_shaped(st, b),
{
    assert forall|i: int| 0 <= i < st.nodes.len() implies node_shaped(#[trigger] st.nodes[i], b) && (i > 0
        ==> st.nodes[i].heading is Some) by {
        let n = st.nodes[i];
        assert forall|j: int| 0 <= j < n.sections.len() implies h2_shaped(#[trigger] n.sections[j], b) by {
            let sec = n.sections[j];
            assert(h2_shaped(sec, a));
            assert forall|k: int| 0 <= k < sec.children.len() implies h3_shaped(#[trigger] sec.children[k], b) by {
                assert(h3_shaped(sec.children[k], a));
            }
        }
    }
    if st.h2 is Some {
        let sec = st.h2->0;
        assert forall|k: int| 0 <= k < sec.children.len() implies h3_shaped(#[trigger] sec.children[k], b) by {
            assert(h3_shaped(sec.children[k], a));
        }
    }
}

proof fn lemma_update_last_node(nodes: Seq<H1NodeView>, n: H1NodeView, max: nat)
    requires
        nodes.len() > 0,
        nodes_shaped(nodes, max),
        node_shaped(n, max),
        nodes.len() > 1 ==> n.heading is Some,
        n.heading == nodes.last().heading,
    ensures
        nodes_shaped(nodes.update(nodes.len() - 1, n), max),
{
    let u = nodes.update(nodes.len() - 1, n);
    assert forall|i: int| 0 <= i < u.len() implies node_shaped(#[trigger] u[i], max) && (i > 0 ==> u[i].heading is Some) by {
        if i != nodes.len() - 1 {
            assert(u[i] == nodes[i]);
        }
    }
}

proof fn lemma_flush_prose_shaped(st: PState, max: nat)
    requires
        state_shaped(st, max),
    ensures
        state_shaped(flush_prose_st(st), max),
{
    let t = trim_prose_spec(st.prose_buf);
    if t.len() > 0 && st.h3 is None && st.h2 is None && st.nodes.len() > 0 {
        let n = with_node_prose(st.nodes.last(), t);
        assert(n.sections == st.nodes.last().sections);
        lemma_update_last_node(st.nodes, n, max);
    }
}

proof fn lemma_add_prop_shaped(st: PState, p: PropertyView, max: nat)
    requires
        state_shaped(st, max),
    ensures
        state_shaped(add_prop_st(st, p), max),
        state_shaped(add_item_prop_st(st, p), max),
        state_shaped(add_fence_prop_st(st, p), max),
{
    if st.h3 is None && st.h2 is None && st.nodes.len() > 0 {
        let n = with_node_property(st.nodes.last(), p);
        assert(n.sections == st.nodes.last().sections);
        lemma_update_last_node(st.nodes, n, max);
        let n2 = with_node_fence_property(st.nodes.last(), p);
        assert(n2.sections == st.nodes.last().sections);
        lemma_update_last_node(st.nodes, n2, max);
    }
}

proof fn lemma_flush_h3_shaped(st: PState, max: nat)
    requires
        state_shaped(st, max),
    ensures
        state_shaped(flush_h3_st(st), max),
{
    if st.h3 is Some && st.h2 is Some {
        let parent = st.h2->0;
        let child = st.h3->0;
        let c = with_child(parent, child);
        assert forall|i: int| 0 <= i < c.children.len() implies h3_shaped(#[trigger] c.children[i], max) by {
            if i < parent.children.len() {
                assert(c.children[i] == parent.children[i]);
            }
        }
    }
}

proof fn lemma_push_h2_shaped(st: PState, max: nat)
    requires
        state_shaped(st, max),
    ensures
        state_shaped(push_h2_st(st), max),
{
    if st.h2 is Some {
        let sec = st.h2->0;
        let ns = ensure_node_spec(st.nodes);
        assert forall|i: int| 0 <= i < ns.len() implies node_shaped(#[trigger] ns[i], max) && (i > 0 ==> ns[i].heading is Some) by {
            if st.nodes.len() == 0 {
                assert(ns[i] == implicit_node());
            }
        }
        let last = ns.last();
        let n = with_section(last, sec);
        assert forall|i: int| 0 <= i < n.sections.len() implies h2_shaped(#[trigger] n.sections[i], max) by {
            if i < last.sections.len() {
                assert(n.sections[i] == last.sections[i]);
            }
        }
        if ns.len() > 1 {
            assert(ns[ns.len() - 1].heading is Some);
        }
        lemma_update_last_node(ns, n, max);
    }
}

proof fn lemma_close_shaped(st: PState, max: nat)
    requires
        state_shaped(st, max),
    ensures
        state_shaped(close_for_heading(st), max),
{
    lemma_flush_prose_shaped(st, max);
    lemma_flush_h3_shaped(clear_prose_st(flush_prose_st(st)), max);
}

proof fn lemma_step_shaped(st: PState, line: Seq<char>, lineno: nat)
    requires
        state_shaped(st, lineno),
        lineno >= 1,
    ensures
        state_shaped(step(st, line, lineno), lineno),
{
    let t = trim(line);
    if st.in_fence {
        if t == fence_mark() && st.fence_key is Some {
            let st1 = PState { in_fence: false, fence_key: None, fence_buf: seq![], ..st };
            lemma_add_prop_shaped(
                st1,
                PropertyView { key: st.fence_key->0, value: join(st.fence_buf, seq!['\n']), bold: false, line: st.fence_start },
                lineno,
            );
        }
    } else if starts_with(t, fence_mark()) {
        lemma_flush_prose_shaped(st, lineno);
    } else if starts_with(t, h1_mark()) && !starts_with(t, h2_mark()) {
        lemma_close_shaped(st, lineno);
        lemma_push_h2_shaped(close_for_heading(st), lineno);
        let s1 = push_h2_st(close_for_heading(st));
        let n = H1NodeView {
            heading: Some(HeadingView { level: 1, text: after(t, h1_mark()), line: lineno }),
            prose: None,
            properties: seq![],
            sections: seq![],
        };
        let ns = s1.nodes.push(n);
        assert forall|i: int| 0 <= i < ns.len() implies node_shaped(#[trigger] ns[i], lineno) && (i > 0 ==> ns[i].heading is Some) by {
            if i < s1.nodes.len() {
                assert(ns[i] == s1.nodes[i]);
            }
        }
    } else if starts_with(t, h3_mark()) {
        lemma_close_shaped(st, lineno);
    } else if starts_with(t, h2_mark()) {
        lemma_close_shaped(st, lineno);
        lemma_push_h2_shaped(close_for_heading(st), lineno);
    } else if st.h3 is None && st.h2 is None {
        if starts_with(t, item_mark()) {
            lemma_flush_prose_shaped(st, lineno);
            let s1 = PState { collecting: false, ..clear_prose_st(flush_prose_st(st)) };
            match parse_property_spec(after(t, item_mark()), lineno) {
                Some(p) => lemma_add_prop_shaped(s1, p, lineno),
                None => {},
            }
        }
    } else {
        lemma_flush_prose_shaped(st, lineno);
        if starts_with(t, item_mark()) && parse_property_spec(after(t, item_mark()), lineno) is Some {
            let p = parse_property_spec(after(t, item_mark()), lineno)->0;
            lemma_add_prop_shaped(end_prose_st(st), p, lineno);
        }
    }
}

proof fn lemma_run_shaped(ls: Seq<Seq<char>>, n: nat)
    ensures
        state_shaped(run(ls, n), if n <= ls.len() {
            n
        } else {
            0
        }),
    decreases n,
{
    if n > 0 && n <= ls.len() {
        lemma_run_shaped(ls, (n - 1) as nat);
        lemma_shaped_weaken(run(ls, (n - 1) as nat), (n - 1) as nat, n);
        lemma_step_shaped(run(ls, (n - 1) as nat), ls[n - 1], n);
    } else {
        assert(run(ls, n) == init_state());
    }
}

/// Whatever the text, the parsed tree nests as headings promise: H1 nodes hold
/// H2 sections, H2 sections hold H3 sections, and H3 sections hold nothing;
/// only the first node (content before any H1) may lack a heading; and every
/// heading's line number is a line of the text.
pub proof fn lemma_parse_shape(text: Seq<char>)
    ensures
        doc_shaped(spec_parse(text), lines(text).len()),
{
    let ls = lines(text);
    let n = ls.len();
    let st = run(ls, n);
    lemma_run_shaped(ls, n);
    lemma_flush_prose_shaped(st, n);
    lemma_flush_h3_shaped(flush_prose_st(st), n);
    lemma_push_h2_shaped(flush_h3_st(flush_prose_st(st)), n);
}

// ── What prose is captured ──

/// The state after `collect_prose_st` has seen the first `n` of `ls` (line `k` numbered `k`).
pub open spec fn collect_run(st: PState, ls: Seq<Seq<char>>, n: int) -> PState
    decreases n,
{
    if n <= 0 || n > ls.len() {
        st
    } else {
        collect_prose_st(collect_run(st, ls, n - 1), ls[n - 1], n as nat)
    }
}

proof fn lemma_collect_run_buf(st: PState, ls: Seq<Seq<char>>, a: int, k: int)
    requires
        st.prose_buf.len() == 0,
        st.prose_start is None,
        0 <= a <= ls.len(),
        0 <= k <= ls.len(),
        forall|i: int| 0 <= i < a ==> (#[trigger] ls[i]).len() == 0,
        a < ls.len() ==> ls[a].len() > 0,
    ensures
        k <= a ==> collect_run(st, ls, k).prose_buf.len() == 0 && collect_run(st, ls, k).prose_start is None,
        k > a ==> collect_run(st, ls, k).prose_buf == ls.subrange(a, k) && collect_run(st, ls, k).prose_start == Some(
            (a + 1) as nat,
        ),
    decreases k,
{
    if k > 0 {
        lemma_collect_run_buf(st, ls, a, k - 1);
        if k - 1 == a {
            assert(ls.subrange(a, k) =~= seq![ls[a]]);
            assert(Seq::<Seq<char>>::empty().push(ls[a]) =~= seq![ls[a]]);
            assert(collect_run(st, ls, k - 1).prose_buf =~= Seq::<Seq<char>>::empty());
        } else if k - 1 > a {
            if ls[k - 1].len() == 0 {
                assert(ls[k - 1] =~= Seq::<char>::empty());
            }
            assert(ls.subrange(a, k) =~= ls.subrange(a, k - 1).push(ls[k - 1]));
        }
    }
}

proof fn lemma_nonblank_end_at(buf: Seq<Seq<char>>, m: int, e: int)
    requires
        0 < e <= m <= buf.len(),
        buf[e - 1].len() > 0,
        forall|i: int| e <= i < buf.len() ==> (#[trigger] buf[i]).len() == 0,
    ensures
        nonblank_end(buf, m) == e,
    decreases m,
{
    if m > e {
        lemma_nonblank_end_at(buf, m - 1, e);
    }
}

/// Prose is captured whole: fed a run of (trimmed) lines, the prose buffer
/// yields the lines from the first non-blank one to the last, joined with
/// `\n`, each blank line between them kept as an empty line (a paragraph break),
/// and the prose starts at the first non-blank line.
pub proof fn lemma_prose_kept_whole(st: PState, ls: Seq<Seq<char>>, a: int, b: int)
    requires
        st.prose_buf.len() == 0,
        st.prose_start is None,
        0 <= a <= b <= ls.len(),
        forall|i: int| 0 <= i < a ==> (#[trigger] ls[i]).len() == 0,
        forall|i: int| b <= i < ls.len() ==> (#[trigger] ls[i]).len() == 0,
        a < b ==> ls[a].len() > 0 && ls[b - 1].len() > 0,
        a == b ==> a == ls.len(),
    ensures
        trim_prose_spec(collect_run(st, ls, ls.len() as int).prose_buf) == join(ls.subrange(a, b), seq!['\n']),
        a < b ==> collect_run(st, ls, ls.len() as int).prose_start == Some((a + 1) as nat),
{
    let n = ls.len() as int;
    lemma_collect_run_buf(st, ls, a, n);
    let buf = collect_run(st, ls, n).prose_buf;
    if a < b {
        assert(buf == ls.subrange(a, n));
        assert(buf[0] == ls[a]);
        assert forall|i: int| b - a <= i < buf.len() implies (#[trigger] buf[i]).len() == 0 by {
            assert(buf[i] == ls[a + i]);
        }
        assert(buf[b - a - 1] == ls[b - 1]);
        lemma_nonblank_end_at(buf, buf.len() as int, b - a);
        assert(buf.subrange(0, b - a) =~= ls.subrange(a, b));
    } else {
        assert(ls.subrange(a, b) =~= Seq::<Seq<char>>::empty());
    }
}

// ── Executable parser ──

/// Joins `parts[lo..hi]` with newlines.
fn join_lines(parts: &Vec<String>, lo: usize, hi: usize) -> (r: String)
    requires
        lo <= hi <= parts@.len(),
    ensures
        r@ == join(strings_view(parts@).subrange(lo as int, hi as int), seq!['\n']),
{
    let ghost ps = strings_view(parts@);
    let mut r = String::new();
    let mut i = lo;
    while i < hi
        invariant
            lo <= i <= hi <= parts@.len(),
            ps == strings_view(parts@),
            r@ == join(ps.subrange(lo as int, i as int), seq!['\n']),
        decreases hi - i,
    {
        let ghost prev = ps.subrange(lo as int, i as int);
        let ghost next = ps.subrange(lo as int, i + 1);
        assert(next.drop_last() =~= prev);
        assert(next.last() == parts@[i as int]@);
        if i > lo {
            push_char(&mut r, '\n');
        } else {
            assert(next =~= seq![parts@[i as int]@]);
        }
        r.append(parts[i].as_str());
        i = i + 1;
    }
    r
}

/// Captured prose text of a prose buffer.
fn trim_prose(buf: &Vec<String>) -> (r: String)
    ensures
        r@ == trim_prose_spec(strings_view(buf@)),
{
    let ghost ps = strings_view(buf@);
    let mut a: usize = 0;
    while a < buf.len() && buf[a].as_str().is_empty()
        invariant
            a <= buf@.len(),
            ps == strings_view(buf@),
            first_nonblank(ps, 0) == first_nonblank(ps, a as int),
        decreases buf@.len() - a,
    {
        a = a + 1;
    }
    let mut b: usize = buf.len();
    while b > 0 && buf[b - 1].as_str().is_empty()
        invariant
            b <= buf@.len(),
            ps == strings_view(buf@),
            nonblank_end(ps, ps.len() as int) == nonblank_end(ps, b as int),
        decreases b,
    {
        b = b - 1;
    }
    if a >= b {
        return String::new();
    }
    join_lines(buf, a, b)
}

/// A new section with the given heading.
fn make_section(level: u8, text: String, line: usize) -> (s: Section)
    ensures
        s@ == new_section(level, text@, line as nat),
{
    let s = Section {
        heading: Heading { level, text, line },
        prose: None,
        prose_line: None,
        properties: Vec::new(),
        table: None,
        children: Vec::new(),
    };
    assert(s@.children =~= Seq::<SectionView>::empty());
    assert(s@.properties =~= Seq::<PropertyView>::empty());
    s
}

pub open spec fn opt_section_view(o: Option<Section>) -> Option<SectionView> {
    match o {
        Some(s) => Some(s@),
        None => None,
    }
}

struct Parser {
    nodes: Vec<H1Node>,
    h2: Option<Section>,
    h3: Option<Section>,
    in_table: bool,
    in_fence: bool,
    fence_key: Option<String>,
    fence_buf: Vec<String>,
    fence_start: usize,
    prose_buf: Vec<String>,
    prose_start: Option<usize>,
    collecting: bool,
    fence_keys: Vec<String>,
}

impl View for Parser {
    type V = PState;

    closed spec fn view(&self) -> PState {
        PState {
            nodes: nodes_view(self.nodes@),
            h2: opt_section_view(self.h2),
            h3: opt_section_view(self.h3),
            in_table: self.in_table,
            in_fence: self.in_fence,
            fence_key: opt_string_view(self.fence_key),
            fence_buf: strings_view(self.fence_buf@),
            fence_start: self.fence_start as nat,
            prose_buf: strings_view(self.prose_buf@),
            prose_start: opt_line_view(self.prose_start),
            collecting: self.collecting,
            fence_keys: strings_view(self.fence_keys@),
        }
    }
}

impl Parser {
    fn new() -> (p: Parser)
        ensures
            p@ == init_state(),
    {
        let p = Parser {
            nodes: Vec::new(),
            h2: None,
            h3: None,
            in_table: false,
            in_fence: false,
            fence_key: None,
            fence_buf: Vec::new(),
            fence_start: 0,
            prose_buf: Vec::new(),
            prose_start: None,
            collecting: false,
            fence_keys: Vec::new(),
        };
        assert(p@.fence_keys =~= Seq::<Seq<char>>::empty());
        assert(p@.nodes =~= Seq::<H1NodeView>::empty());
        assert(p@.fence_buf =~= Seq::<Seq<char>>::empty());
        assert(p@.prose_buf =~= Seq::<Seq<char>>::empty());
        p
    }

    fn flush_prose(&mut self)
        ensures
            final(self)@ == flush_prose_st(old(self)@),
    {
        let t = trim_prose(&self.prose_buf);
        if t.as_str().is_empty() {
            return;
        }
        match self.h3.take() {
            Some(mut sec) => {
                sec.prose = Some(t);
                sec.prose_line = self.prose_start;
                self.h3 = Some(sec);
            },
            None => match self.h2.take() {
                Some(mut sec) => {
                    sec.prose = Some(t);
                    sec.prose_line = self.prose_start;
                    self.h2 = Some(sec);
                },
                None => {
                    if self.nodes.len() > 0 {
                        let ghost old_nodes = self.nodes@;
                        let mut node = self.nodes.pop().unwrap();
                        node.prose = Some(t);
                        self.nodes.push(node);
                        assert(nodes_view(self.nodes@) =~= nodes_view(old_nodes).update(
                            old_nodes.len() - 1,
                            with_node_prose(nodes_view(old_nodes).last(), t@),
                        ));
                    }
                },
            },
        }
    }

    fn clear_prose(&mut self)
        ensures
            final(self)@ == clear_prose_st(old(self)@),
    {
        self.prose_buf = Vec::new();
        self.prose_start = None;
        assert(self@.prose_buf =~= Seq::<Seq<char>>::empty());
    }

    fn flush_h3(&mut self)
        ensures
            final(self)@ == flush_h3_st(old(self)@),
    {
        if let Some(child) = self.h3.take() {
            if let Some(mut parent) = self.h2.take() {
                let ghost old_parent = parent;
                parent.children.push(child);
                assert(parent@.children =~= old_parent@.children.push(child@));
                self.h2 = Some(parent);
            }
        }
    }

    fn push_h2(&mut self)
        ensures
            final(self)@ == push_h2_st(old(self)@),
    {
        if let Some(sec) = self.h2.take() {
            if self.nodes.len() == 0 {
                let n = H1Node {
                    heading: None,
                    prose: None,
                    properties: Vec::new(),
                    sections: Vec::new(),
                };
                assert(n@ == implicit_node()) by {
                    assert(props_view(n.properties@) =~= Seq::<PropertyView>::empty());
                    assert(sections_view(n.sections@) =~= Seq::<SectionView>::empty());
                }
                self.nodes.push(n);
                assert(nodes_view(self.nodes@) =~= seq![implicit_node()]);
            }
            let ghost mid = self.nodes@;
            assert(nodes_view(mid) == ensure_node_spec(old(self)@.nodes));
            let mut node = self.nodes.pop().unwrap();
            let ghost old_node = node;
            node.sections.push(sec);
            assert(node@ == with_section(old_node@, sec@)) by {
                assert(sections_view(node.sections@) =~= sections_view(old_node.sections@).push(
                    sec@,
                ));
            }
            self.nodes.push(node);
            assert(nodes_view(self.nodes@) =~= nodes_view(mid).update(
                mid.len() - 1,
                with_section(nodes_view(mid).last(), sec@),
            ));
        }
    }

    fn add_prop(&mut self, p: Property)
        ensures
            final(self)@ == add_prop_st(old(self)@, p@),
    {
        match self.h3.take() {
            Some(mut sec) => {
                let ghost old_sec = sec;
                sec.properties.push(p);
                assert(props_view(sec.properties@) =~= props_view(old_sec.properties@).push(p@));
                self.h3 = Some(sec);
            },
            None => match self.h2.take() {
                Some(mut sec) => {
                    let ghost old_sec = sec;
                    sec.properties.push(p);
                    assert(props_view(sec.properties@) =~= props_view(old_sec.properties@).push(
                        p@,
                    ));
                    self.h2 = Some(sec);
                },
                None => {
                    if self.nodes.len() > 0 {
                        let ghost old_nodes = self.nodes@;
                        let mut node = self.nodes.pop().unwrap();
                        let ghost old_node = node;
                        node.properties.push(p);
                        assert(props_view(node.properties@) =~= props_view(
                            old_node.properties@,
                        ).push(p@));
                        self.nodes.push(node);
                        assert(nodes_view(self.nodes@) =~= nodes_view(old_nodes).update(
                            old_nodes.len() - 1,
                            with_node_property(nodes_view(old_nodes).last(), p@),
                        ));
                    }
                },
            },
        }
    }

    fn collect_prose(&mut self, v: &Vec<char>, a: usize, b: usize, lineno: usize)
        requires
            a <= b <= v@.len(),
        ensures
            final(self)@ == collect_prose_st(old(self)@, v@.subrange(a as int, b as int), lineno as nat),
    {
        if a < b {
            if self.prose_start.is_none() {
                self.prose_start = Some(lineno);
            }
            let ghost old_buf = self.prose_buf@;
            self.prose_buf.push(string_of(v, a, b));
            assert(strings_view(self.prose_buf@) =~= strings_view(old_buf).push(
                v@.subrange(a as int, b as int),
            ));
        } else if self.prose_start.is_some() {
            let ghost old_buf = self.prose_buf@;
            self.prose_buf.push(String::new());
            assert(strings_view(self.prose_buf@) =~= strings_view(old_buf).push(seq![]));
        }
    }

    fn end_prose(&mut self)
        ensures
            final(self)@ == end_prose_st(old(self)@),
    {
        if self.collecting {
            self.flush_prose();
            self.clear_prose();
            self.collecting = false;
        }
    }

    fn close_for_heading(&mut self)
        ensures
            final(self)@ == close_for_heading(old(self)@),
    {
        self.flush_prose();
        self.clear_prose();
        self.flush_h3();
        self.fence_keys = Vec::new();
        assert(self@.fence_keys =~= Seq::<Seq<char>>::empty());
    }
}


pub open spec fn opt_property_view(o: Option<Property>) -> Option<PropertyView> {
    match o {
        Some(p) => Some(p@),
        None => None,
    }
}

/// Parses the text after `- ` of a list item as a property.
fn parse_property(v: &Vec<char>, a: usize, b: usize, line: usize) -> (r: Option<Property>)
    requires
        a <= b <= v@.len(),
    ensures
        opt_property_view(r) == parse_property_spec(v@.subrange(a as int, b as int), line as nat),
{
    let ghost text = v@.subrange(a as int, b as int);
    if starts_with_at(v, a, b, &['*', '*']) {
        let ghost rest = after(text, bold_open());
        assert(rest =~= v@.subrange(a + 2, b as int));
        match find_in(v, a + 2, b, &[':', '*', '*']) {
            Some(k) => {
                let key = string_of(v, a + 2, a + 2 + k);
                let (va, vb) = trim_range(v, a + 2 + k + 3, b);
                let value = string_of(v, va, vb);
                assert(rest.subrange(0, k as int) =~= v@.subrange(a + 2, a + 2 + k));
                assert(rest.subrange(k + 3, rest.len() as int) =~= v@.subrange(
                    a + 2 + k + 3,
                    b as int,
                ));
                return Some(Property { key, value, bold: true, line });
            },
            None => {},
        }
    }
    match find_in(v, a, b, &[':', ' ']) {
        Some(k) => {
            if k > 0 && !contains_char_in(v, a, a + k, ' ') {
                let key = string_of(v, a, a + k);
                let (va, vb) = trim_range(v, a + k + 2, b);
                let value = string_of(v, va, vb);
                assert(text.subrange(0, k as int) =~= v@.subrange(a as int, a + k));
                assert(text.subrange(k + 2, text.len() as int) =~= v@.subrange(a + k + 2, b as int));
                return Some(Property { key, value, bold: false, line });
            }
            assert(text.subrange(0, k as int) =~= v@.subrange(a as int, a + k));
        },
        None => {},
    }
    let colon: &[char] = &[':'];
    assert(colon@ =~= seq![':']);
    if ends_with_at(v, a, b, colon) && b - a > 1 && !contains_char_in(v, a, b - 1, ' ') {
        assert(before_suffix(text, seq![':']) =~= v@.subrange(a as int, b - 1));
        return Some(Property { key: string_of(v, a, b - 1), value: String::new(), bold: false, line });
    }
    proof {
        if ends_with(text, seq![':']) && text.len() > 1 {
            assert(before_suffix(text, seq![':']) =~= v@.subrange(a as int, b - 1));
        }
    }
    None
}

/// The trimmed cells of a table row, and whether the row is a separator row.
fn table_cells_exec(v: &Vec<char>, a: usize, b: usize) -> (r: (Vec<String>, bool))
    requires
        a <= b <= v@.len(),
    ensures
        strings_view(r.0@) == table_cells(v@.subrange(a as int, b as int)),
        r.1 == is_separator_row(table_cells(v@.subrange(a as int, b as int))),
{
    let (c, d) = trim_matches_range(v, a, b, '|');
    let ranges = split_ranges(v, c, d, '|');
    let ghost pieces = split_char(trim_matches(v@.subrange(a as int, b as int), '|'), '|');
    let ghost want = table_cells(v@.subrange(a as int, b as int));
    assert(want == pieces.map_values(|p: Seq<char>| trim(p)));
    let mut cells: Vec<String> = Vec::new();
    let mut sep = true;
    let mut i: usize = 0;
    while i < ranges.len()
        invariant
            i <= ranges@.len(),
            c <= d <= v@.len(),
            forall|k: int| 0 <= k < ranges@.len() ==> c <= (#[trigger] ranges@[k]).0 <= ranges@[k].1 <= d,
            ranges@.map_values(|p: (usize, usize)| v@.subrange(p.0 as int, p.1 as int)) == pieces,
            want == pieces.map_values(|p: Seq<char>| trim(p)),
            strings_view(cells@) == want.take(i as int),
            sep == is_separator_row(want.take(i as int)),
        decreases ranges@.len() - i,
    {
        let (x, y) = ranges[i];
        assert(pieces[i as int] == v@.subrange(x as int, y as int));
        let (ta, tb) = trim_range(v, x, y);
        let ghost cell = v@.subrange(ta as int, tb as int);
        assert(want[i as int] == cell);
        let mut j = ta;
        let mut cell_sep = true;
        while j < tb
            invariant
                ta <= j <= tb <= v@.len(),
                cell_sep == (forall|q: int| ta <= q < j ==> is_separator_char(#[trigger] v@[q])),
            decreases tb - j,
        {
            let ch = v[j];
            if !(ch == '-' || ch == ' ' || ch == ':') {
                cell_sep = false;
            }
            j = j + 1;
        }
        let ghost old_cells = cells@;
        cells.push(string_of(v, ta, tb));
        assert(want.take(i + 1) =~= want.take(i as int).push(cell));
        assert(strings_view(cells@) =~= strings_view(old_cells).push(cell));
        proof {
            let w1 = want.take(i + 1);
            assert(cell_sep == (forall|q: int| 0 <= q < cell.len() ==> is_separator_char(
                #[trigger] cell[q],
            ))) by {
                assert(forall|q: int| 0 <= q < cell.len() ==> cell[q] == v@[ta + q]);
                if !cell_sep {
                    let q0 = choose|q: int| ta <= q < tb && !is_separator_char(#[trigger] v@[q]);
                    assert(cell[q0 - ta] == v@[q0]);
                }
            }
            assert((sep && cell_sep) == is_separator_row(w1)) by {
                if sep && cell_sep {
                    assert forall|ii: int, jj: int|
                        0 <= ii < w1.len() && 0 <= jj < w1[ii].len() implies is_separator_char(
                        #[trigger] w1[ii][jj],
                    ) by {
                        if ii < i {
                            assert(w1[ii] == want.take(i as int)[ii]);
                        } else {
                            assert(w1[ii] == cell);
                        }
                    }
                }
                if is_separator_row(w1) {
                    assert forall|ii: int, jj: int|
                        0 <= ii < want.take(i as int).len() && 0 <= jj < want.take(
                            i as int,
                        )[ii].len() implies is_separator_char(
                        #[trigger] want.take(i as int)[ii][jj],
                    ) by {
                        assert(w1[ii] == want.take(i as int)[ii]);
                    }
                    assert forall|q: int| 0 <= q < cell.len() implies is_separator_char(
                        #[trigger] cell[q],
                    ) by {
                        assert(w1[i as int] == cell);
                    }
                }
            }
        }
        sep = sep && cell_sep;
        i = i + 1;
    }
    assert(want.take(ranges@.len() as int) =~= want);
    (cells, sep)
}

impl Parser {
    fn set_table(&mut self, t: Table)
        requires
            old(self)@.h3 is Some || old(self)@.h2 is Some,
        ensures
            final(self)@ == set_table_st(old(self)@, t@),
    {
        match self.h3.take() {
            Some(mut sec) => {
                sec.table = Some(t);
                self.h3 = Some(sec);
            },
            None => {
                let mut sec = self.h2.take().unwrap();
                sec.table = Some(t);
                self.h2 = Some(sec);
            },
        }
    }

    fn add_row(&mut self, r: TableRow)
        requires
            old(self)@.h3 is Some || old(self)@.h2 is Some,
        ensures
            final(self)@ == add_row_st(old(self)@, r@),
    {
        match self.h3.take() {
            Some(mut sec) => {
                match sec.table.take() {
                    Some(mut t) => {
                        let ghost old_t = t;
                        t.rows.push(r);
                        assert(t@.rows =~= old_t@.rows.push(r@));
                        sec.table = Some(t);
                    },
                    None => {},
                }
                self.h3 = Some(sec);
            },
            None => {
                let mut sec = self.h2.take().unwrap();
                match sec.table.take() {
                    Some(mut t) => {
                        let ghost old_t = t;
                        t.rows.push(r);
                        assert(t@.rows =~= old_t@.rows.push(r@));
                        sec.table = Some(t);
                    },
                    None => {},
                }
                self.h2 = Some(sec);
            },
        }
    }

    fn add_item_prop(&mut self, p: Property)
        ensures
            final(self)@ == add_item_prop_st(old(self)@, p@),
    {
        if !contains_string(&self.fence_keys, p.key.as_str()) {
            self.add_prop(p);
        }
    }

    fn add_fence_prop(&mut self, p: Property)
        ensures
            final(self)@ == add_fence_prop_st(old(self)@, p@),
    {
        let ghost old_keys = self.fence_keys@;
        let key = p.key.clone();
        match self.h3.take() {
            Some(mut sec) => {
                let kept = without_key(&sec.properties, p.key.as_str());
                let ghost k = props_view(kept@);
                sec.properties = kept;
                sec.properties.push(p);
                assert(props_view(sec.properties@) =~= k.push(p@));
                self.h3 = Some(sec);
            },
            None => match self.h2.take() {
                Some(mut sec) => {
                    let kept = without_key(&sec.properties, p.key.as_str());
                    let ghost k = props_view(kept@);
                    sec.properties = kept;
                    sec.properties.push(p);
                    assert(props_view(sec.properties@) =~= k.push(p@));
                    self.h2 = Some(sec);
                },
                None => {
                    if self.nodes.len() > 0 {
                        let ghost old_nodes = self.nodes@;
                        let mut node = self.nodes.pop().unwrap();
                        let kept = without_key(&node.properties, p.key.as_str());
                        let ghost k = props_view(kept@);
                        let ghost pv = p@;
                        node.properties = kept;
                        node.properties.push(p);
                        assert(props_view(node.properties@) =~= k.push(pv));
                        self.nodes.push(node);
                        assert(nodes_view(self.nodes@) =~= nodes_view(old_nodes).update(
                            old_nodes.len() - 1,
                            with_node_fence_property(nodes_view(old_nodes).last(), pv),
                        ));
                    }
                },
            },
        }
        self.fence_keys.push(key);
        assert(strings_view(self.fence_keys@) =~= strings_view(old_keys).push(p@.key));
    }

    fn fence_close(&mut self)
        ensures
            final(self)@ == fence_close(old(self)@),
    {
        self.in_fence = false;
        match self.fence_key.take() {
            Some(key) => {
                let value = join_lines(&self.fence_buf, 0, self.fence_buf.len());
                assert(strings_view(self.fence_buf@).subrange(0, self.fence_buf@.len() as int) =~= strings_view(
                    self.fence_buf@,
                ));
                let start = self.fence_start;
                self.fence_buf = Vec::new();
                assert(strings_view(self.fence_buf@) =~= Seq::<Seq<char>>::empty());
                self.add_fence_prop(Property { key, value, bold: false, line: start });
            },
            None => {},
        }
    }

    fn fence_open(&mut self, v: &Vec<char>, a: usize, b: usize, lineno: usize)
        requires
            a <= b <= v@.len(),
            starts_with(v@.subrange(a as int, b as int), fence_mark()),
        ensures
            final(self)@ == fence_open(old(self)@, v@.subrange(a as int, b as int), lineno as nat),
    {
        let (ia, ib) = trim_range(v, a + 3, b);
        assert(after(v@.subrange(a as int, b as int), fence_mark()) =~= v@.subrange(a + 3, b as int));
        if ia < ib && !contains_char_in(v, ia, ib, ' ') {
            self.in_fence = true;
            self.fence_key = Some(string_of(v, ia, ib));
            self.fence_start = lineno;
            self.fence_buf = Vec::new();
            assert(strings_view(self.fence_buf@) =~= Seq::<Seq<char>>::empty());
        } else {
            self.in_fence = true;
            self.fence_key = None;
        }
    }

    fn fence_body(&mut self, v: &Vec<char>, lo: usize, hi: usize)
        requires
            lo <= hi <= v@.len(),
        ensures
            final(self)@ == fence_body(old(self)@, v@.subrange(lo as int, hi as int)),
    {
        if self.fence_key.is_some() {
            let ghost old_buf = self.fence_buf@;
            self.fence_buf.push(string_of(v, lo, hi));
            assert(strings_view(self.fence_buf@) =~= strings_view(old_buf).push(
                v@.subrange(lo as int, hi as int),
            ));
        }
    }

    fn h1_line(&mut self, v: &Vec<char>, a: usize, b: usize, lineno: usize)
        requires
            a <= b <= v@.len(),
            starts_with(v@.subrange(a as int, b as int), h1_mark()),
        ensures
            final(self)@ == h1_line(old(self)@, v@.subrange(a as int, b as int), lineno as nat),
    {
        self.close_for_heading();
        self.push_h2();
        assert(after(v@.subrange(a as int, b as int), h1_mark()) =~= v@.subrange(a + 2, b as int));
        let node = H1Node {
            heading: Some(Heading { level: 1, text: string_of(v, a + 2, b), line: lineno }),
            prose: None,
            properties: Vec::new(),
            sections: Vec::new(),
        };
        assert(props_view(node.properties@) =~= Seq::<PropertyView>::empty());
        assert(sections_view(node.sections@) =~= Seq::<SectionView>::empty());
        let ghost old_nodes = self.nodes@;
        self.nodes.push(node);
        assert(nodes_view(self.nodes@) =~= nodes_view(old_nodes).push(node@));
        self.collecting = true;
        self.in_table = false;
    }

    fn h2_line(&mut self, v: &Vec<char>, a: usize, b: usize, lineno: usize)
        requires
            a <= b <= v@.len(),
            starts_with(v@.subrange(a as int, b as int), h2_mark()),
        ensures
            final(self)@ == h2_line(old(self)@, v@.subrange(a as int, b as int), lineno as nat),
    {
        self.close_for_heading();
        self.push_h2();
        assert(after(v@.subrange(a as int, b as int), h2_mark()) =~= v@.subrange(a + 3, b as int));
        self.h2 = Some(make_section(2, string_of(v, a + 3, b), lineno));
        self.collecting = true;
        self.in_table = false;
    }

    fn h3_line(&mut self, v: &Vec<char>, a: usize, b: usize, lineno: usize)
        requires
            a <= b <= v@.len(),
            starts_with(v@.subrange(a as int, b as int), h3_mark()),
        ensures
            final(self)@ == h3_line(old(self)@, v@.subrange(a as int, b as int), lineno as nat),
    {
        self.close_for_heading();
        assert(after(v@.subrange(a as int, b as int), h3_mark()) =~= v@.subrange(a + 4, b as int));
        self.h3 = Some(make_section(3, string_of(v, a + 4, b), lineno));
        self.collecting = true;
        self.in_table = false;
    }

    fn top_line(&mut self, v: &Vec<char>, a: usize, b: usize, lineno: usize)
        requires
            a <= b <= v@.len(),
        ensures
            final(self)@ == top_line(old(self)@, v@.subrange(a as int, b as int), lineno as nat),
    {
        if starts_with_at(v, a, b, &['-', ' ']) {
            assert(after(v@.subrange(a as int, b as int), item_mark()) =~= v@.subrange(
                a + 2,
                b as int,
            ));
            self.flush_prose();
            self.clear_prose();
            self.collecting = false;
            match parse_property(v, a + 2, b, lineno) {
                Some(p) => self.add_item_prop(p),
                None => {},
            }
        } else if self.collecting {
            self.collect_prose(v, a, b, lineno);
        }
    }

    fn section_line(&mut self, v: &Vec<char>, a: usize, b: usize, lineno: usize)
        requires
            a <= b <= v@.len(),
            old(self)@.h3 is Some || old(self)@.h2 is Some,
        ensures
            final(self)@ == section_line(old(self)@, v@.subrange(a as int, b as int), lineno as nat),
    {
        let ghost t = v@.subrange(a as int, b as int);
        if starts_with_at(v, a, b, &['-', ' ']) {
            assert(after(t, item_mark()) =~= v@.subrange(a + 2, b as int));
            match parse_property(v, a + 2, b, lineno) {
                Some(p) => {
                    self.end_prose();
                    self.add_item_prop(p);
                    self.in_table = false;
                    return ;
                },
                None => {},
            }
        }
        let bar: &[char] = &['|'];
        assert(bar@ =~= seq!['|']);
        if starts_with_at(v, a, b, bar) {
            self.end_prose();
            let (cells, sep) = table_cells_exec(v, a, b);
            if sep {
                return ;
            }
            if !self.in_table {
                self.in_table = true;
                let t = Table { header_line: lineno, columns: cells, rows: Vec::new() };
                assert(t@.rows =~= Seq::<TableRowView>::empty());
                self.set_table(t);
            } else {
                self.add_row(TableRow { line: lineno, cells });
            }
            return ;
        }
        if !self.in_table && self.collecting {
            self.collect_prose(v, a, b, lineno);
        }
    }

    fn step(&mut self, v: &Vec<char>, lo: usize, hi: usize, lineno: usize)
        requires
            lo <= hi <= v@.len(),
        ensures
            final(self)@ == step(old(self)@, v@.subrange(lo as int, hi as int), lineno as nat),
    {
        let (a, b) = trim_range(v, lo, hi);
        let tick: &[char] = &['`', '`', '`'];
        assert(tick@ =~= fence_mark());
        if self.in_fence {
            let ghost t = v@.subrange(a as int, b as int);
            if b - a == 3 && starts_with_at(v, a, b, tick) {
                assert(t =~= t.subrange(0, 3));
                assert(t == fence_mark());
                self.fence_close();
            } else {
                proof {
                    if t == fence_mark() {
                        assert(t.len() == 3);
                        assert(t.subrange(0, 3) =~= t);
                        assert(starts_with(t, tick@));
                    }
                }
                self.fence_body(v, lo, hi);
            }
        } else if starts_with_at(v, a, b, tick) {
            self.end_prose();
            self.fence_open(v, a, b, lineno);
        } else if starts_with_at(v, a, b, &['#', ' ']) && !starts_with_at(v, a, b, &['#', '#', ' ']) {
            self.h1_line(v, a, b, lineno);
        } else if starts_with_at(v, a, b, &['#', '#', '#', ' ']) {
            self.h3_line(v, a, b, lineno);
        } else if starts_with_at(v, a, b, &['#', '#', ' ']) {
            self.h2_line(v, a, b, lineno);
        } else if self.h3.is_none() && self.h2.is_none() {
            self.top_line(v, a, b, lineno);
        } else {
            self.section_line(v, a, b, lineno);
        }
    }
}

/// `ps` without the properties named `key`, as a new vector.
fn without_key(ps: &Vec<Property>, key: &str) -> (r: Vec<Property>)
    ensures
        props_view(r@) == drop_key(props_view(ps@), key@),
{
    let ghost pv = props_view(ps@);
    let mut r: Vec<Property> = Vec::new();
    let mut i: usize = 0;
    assert(pv.take(0) =~= Seq::<PropertyView>::empty());
    assert(props_view(r@) =~= Seq::<PropertyView>::empty());
    while i < ps.len()
        invariant
            i <= ps@.len(),
            pv == props_view(ps@),
            props_view(r@) == drop_key(pv.take(i as int), key@),
        decreases ps@.len() - i,
    {
        assert(pv.take(i + 1).drop_last() =~= pv.take(i as int));
        assert(pv.take(i + 1).last() == ps@[i as int]@);
        let ghost before = props_view(r@);
        if !str_eq(ps[i].key.as_str(), key) {
            let q = Property { key: ps[i].key.clone(), value: ps[i].value.clone(), bold: ps[i].bold, line: ps[i].line };
            r.push(q);
            assert(props_view(r@) =~= before + seq![ps@[i as int]@]);
        } else {
            assert(props_view(r@) =~= before + Seq::<PropertyView>::empty());
        }
        i = i + 1;
    }
    assert(pv.take(ps@.len() as int) =~= pv);
    r
}

/// Whether `key` is among `keys`.
fn contains_string(keys: &Vec<String>, key: &str) -> (r: bool)
    ensures
        r == strings_view(keys@).contains(key@),
{
    let mut i: usize = 0;
    while i < keys.len()
        invariant
            i <= keys@.len(),
            forall|j: int| 0 <= j < i ==> strings_view(keys@)[j] != key@,
        decreases keys@.len() - i,
    {
        if str_eq(keys[i].as_str(), key) {
            assert(strings_view(keys@)[i as int] == key@);
            return true;
        }
        i = i + 1;
    }
    false
}

/// Parses structmd text into a document tree.
pub fn parse(text: &str) -> (doc: Document)
    ensures
        doc@ == spec_parse(text@),
{
    let v = chars_of(text);
    let ranges = line_ranges(&v);
    let ghost ls = lines(v@);
    let mut p = Parser::new();
    let mut i: usize = 0;
    while i < ranges.len()
        invariant
            i <= ranges@.len(),
            forall|k: int| 0 <= k < ranges@.len() ==> (#[trigger] ranges@[k]).0 <= ranges@[k].1 <= v@.len(),
            ranges@.map_values(|q: (usize, usize)| v@.subrange(q.0 as int, q.1 as int)) == ls,
            p@ == run(ls, i as nat),
        decreases ranges@.len() - i,
    {
        let (lo, hi) = ranges[i];
        assert(ls[i as int] == v@.subrange(lo as int, hi as int));
        p.step(&v, lo, hi, i + 1);
        i = i + 1;
    }
    p.flush_prose();
    p.flush_h3();
    p.push_h2();
    Document { nodes: p.nodes }
}

} // verus!
