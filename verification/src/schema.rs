//! Schema types for structmd validation.
//!
//! A schema is itself a structmd file containing:
//!   - a `grammar` code block: structural grammar (document shape)
//!   - a `types` or `types:production` block: property type constraints
//!   - a `table` or `table:production` block: table column constraints
//!
//! Load a schema with [`load_schema`], then use it with a validator.
use vstd::prelude::*;
use crate::parse::strings_view;
use crate::text::{join, push_char, rfind_in, rfind_char, find_in, line_ranges, trim_matches_range, lemma_ends_with_char, lemma_starts_with_char, after, before_suffix, char_end, chars_of, ends_with, find, is_alnum, is_alpha, is_digit, is_lower, lemma_trim_len, lines, split_char, split_ranges, starts_with, starts_with_at, str_eq, string_from, string_of, trim, trim_matches, trim_range};

verus! {

// ── Ordered string-keyed map ──

/// Lexicographic order on character sequences (by code point), which is the
/// order `String`'s `Ord` gives (UTF-8 byte order agrees with code point order).
pub open spec fn key_lt(a: Seq<char>, b: Seq<char>) -> bool
    decreases a.len(),
{
    if a.len() == 0 {
        b.len() > 0
    } else if b.len() == 0 {
        false
    } else if a[0] != b[0] {
        (a[0] as u32) < (b[0] as u32)
    } else {
        key_lt(a.drop_first(), b.drop_first())
    }
}

/// Position of `k` among the entries of `m`, scanning from `i`.
pub open spec fn smap_index<T>(m: Seq<(Seq<char>, T)>, k: Seq<char>, i: int) -> Option<int>
    decreases m.len() - i,
{
    if i < 0 || i >= m.len() {
        None
    } else if m[i].0 == k {
        Some(i)
    } else {
        smap_index(m, k, i + 1)
    }
}

/// The value stored under `k`.
pub open spec fn smap_get<T>(m: Seq<(Seq<char>, T)>, k: Seq<char>) -> Option<T> {
    match smap_index(m, k, 0) {
        Some(i) => Some(m[i].1),
        None => None,
    }
}

/// `BTreeMap::insert`: replace the value under `k`, or add `(k, v)` at its
/// place in key order.
pub open spec fn smap_insert<T>(m: Seq<(Seq<char>, T)>, k: Seq<char>, v: T) -> Seq<(Seq<char>, T)>
    decreases m.len(),
{
    if m.len() == 0 {
        seq![(k, v)]
    } else if m[0].0 == k {
        seq![(k, v)] + m.drop_first()
    } else if key_lt(k, m[0].0) {
        seq![(k, v)] + m
    } else {
        seq![m[0]] + smap_insert(m.drop_first(), k, v)
    }
}

/// Keys in strictly increasing order (hence no key twice).
pub open spec fn smap_sorted<T>(m: Seq<(Seq<char>, T)>) -> bool {
    forall|i: int, j: int| 0 <= i < j < m.len() ==> key_lt(#[trigger] m[i].0, #[trigger] m[j].0)
}

/// No key comes before itself.
pub proof fn lemma_key_lt_irreflexive(a: Seq<char>)
    ensures
        !key_lt(a, a),
    decreases a.len(),
{
    if a.len() > 0 {
        lemma_key_lt_irreflexive(a.drop_first());
    }
}

/// Key order is transitive.
pub proof fn lemma_key_lt_transitive(a: Seq<char>, b: Seq<char>, c: Seq<char>)
    requires
        key_lt(a, b),
        key_lt(b, c),
    ensures
        key_lt(a, c),
    decreases a.len(),
{
    if a.len() > 0 && b.len() > 0 && c.len() > 0 && a[0] == b[0] && b[0] == c[0] {
        lemma_key_lt_transitive(a.drop_first(), b.drop_first(), c.drop_first());
    }
}

/// Of two different keys, one comes first.
pub proof fn lemma_key_lt_total(a: Seq<char>, b: Seq<char>)
    requires
        a != b,
    ensures
        key_lt(a, b) || key_lt(b, a),
    decreases a.len(),
{
    if a.len() > 0 && b.len() > 0 && a[0] == b[0] {
        if a.drop_first() == b.drop_first() {
            assert(a =~= seq![a[0]] + a.drop_first());
            assert(b =~= seq![b[0]] + b.drop_first());
        }
        lemma_key_lt_total(a.drop_first(), b.drop_first());
    } else if a.len() > 0 && b.len() > 0 {
        vstd::utf8::char_u32_cast(a[0], a[0] as u32);
        vstd::utf8::char_u32_cast(b[0], b[0] as u32);
    } else if a.len() == 0 && b.len() == 0 {
        assert(a =~= b);
    }
}

/// A map whose keys are in strictly increasing order holds no key twice.
pub proof fn lemma_sorted_keys_distinct<T>(m: Seq<(Seq<char>, T)>)
    requires
        smap_sorted(m),
    ensures
        forall|i: int, j: int| 0 <= i < j < m.len() ==> (#[trigger] m[i]).0 != (#[trigger] m[j]).0,
{
    assert forall|i: int, j: int| 0 <= i < j < m.len() implies (#[trigger] m[i]).0 != (#[trigger] m[j]).0 by {
        lemma_key_lt_irreflexive(m[i].0);
    }
}

proof fn lemma_smap_insert_above<T>(m: Seq<(Seq<char>, T)>, k: Seq<char>, v: T, lo: Seq<char>)
    requires
        key_lt(lo, k),
        forall|i: int| 0 <= i < m.len() ==> key_lt(lo, #[trigger] m[i].0),
    ensures
        forall|j: int| 0 <= j < smap_insert(m, k, v).len() ==> key_lt(lo, #[trigger] smap_insert(m, k, v)[j].0),
    decreases m.len(),
{
    if m.len() > 0 && m[0].0 != k && !key_lt(k, m[0].0) {
        let t = m.drop_first();
        assert forall|i: int| 0 <= i < t.len() implies key_lt(lo, #[trigger] t[i].0) by {
            assert(t[i] == m[i + 1]);
        }
        lemma_smap_insert_above(t, k, v, lo);
        let r = smap_insert(m, k, v);
        assert forall|j: int| 0 <= j < r.len() implies key_lt(lo, #[trigger] r[j].0) by {
            if j > 0 {
                assert(r[j] == smap_insert(t, k, v)[j - 1]);
            }
        }
    } else if m.len() > 0 {
        let r = smap_insert(m, k, v);
        assert forall|j: int| 0 <= j < r.len() implies key_lt(lo, #[trigger] r[j].0) by {
            if j > 0 {
                if m[0].0 == k {
                    assert(r[j] == m[j]);
                } else {
                    assert(r[j] == m[j - 1]);
                }
            }
        }
    }
}

/// Inserting into a map whose keys are strictly ascending keeps them so.
pub proof fn lemma_smap_insert_sorted<T>(m: Seq<(Seq<char>, T)>, k: Seq<char>, v: T)
    requires
        smap_sorted(m),
    ensures
        smap_sorted(smap_insert(m, k, v)),
    decreases m.len(),
{
    let r = smap_insert(m, k, v);
    if m.len() == 0 {
    } else if m[0].0 == k {
        assert forall|i: int, j: int| 0 <= i < j < r.len() implies key_lt(#[trigger] r[i].0, #[trigger] r[j].0) by {
            assert(r[j] == m[j]);
            if i > 0 {
                assert(r[i] == m[i]);
            }
        }
    } else if key_lt(k, m[0].0) {
        assert forall|i: int, j: int| 0 <= i < j < r.len() implies key_lt(#[trigger] r[i].0, #[trigger] r[j].0) by {
            assert(r[j] == m[j - 1]);
            if i > 0 {
                assert(r[i] == m[i - 1]);
            } else if j - 1 > 0 {
                assert(key_lt(m[0].0, m[j - 1].0));
                lemma_key_lt_transitive(k, m[0].0, m[j - 1].0);
            }
        }
    } else {
        let t = m.drop_first();
        lemma_key_lt_total(k, m[0].0);
        assert forall|i: int, j: int| 0 <= i < j < t.len() implies key_lt(#[trigger] t[i].0, #[trigger] t[j].0) by {
            assert(t[i] == m[i + 1] && t[j] == m[j + 1]);
        }
        assert forall|i: int| 0 <= i < t.len() implies key_lt(m[0].0, #[trigger] t[i].0) by {
            assert(t[i] == m[i + 1]);
        }
        lemma_smap_insert_sorted(t, k, v);
        lemma_smap_insert_above(t, k, v, m[0].0);
        let rt = smap_insert(t, k, v);
        assert forall|i: int, j: int| 0 <= i < j < r.len() implies key_lt(#[trigger] r[i].0, #[trigger] r[j].0) by {
            assert(r[j] == rt[j - 1]);
            if i > 0 {
                assert(r[i] == rt[i - 1]);
            }
        }
    }
}

/// A read after a write gives back what was written, and a write leaves the
/// other keys as they were.
pub proof fn lemma_smap_get_insert<T>(m: Seq<(Seq<char>, T)>, k: Seq<char>, v: T, k2: Seq<char>)
    ensures
        smap_get(smap_insert(m, k, v), k) == Some(v),
        k2 != k ==> smap_get(smap_insert(m, k, v), k2) == smap_get(m, k2),
    decreases m.len(),
{
    let r = smap_insert(m, k, v);
    if m.len() == 0 {
        assert(smap_index(r, k, 0) == Some(0int));
        if k2 != k {
            assert(smap_index(r, k2, 1) is None);
        }
    } else if m[0].0 == k {
        assert(smap_index(r, k, 0) == Some(0int));
        if k2 != k {
            assert forall|j: int| 1 <= j < m.len() implies r[j] == m[j] by {
                assert(r[j] == m.drop_first()[j - 1]);
            }
            lemma_smap_index_same(m, r, k2, 1);
            if smap_index(m, k2, 0) is Some {
                lemma_smap_index_found(m, k2, 0);
            }
        }
    } else if key_lt(k, m[0].0) {
        assert(smap_index(r, k, 0) == Some(0int));
        if k2 != k {
            assert forall|j: int| 0 <= j < m.len() implies r[j + 1] == m[j] by {}
            lemma_smap_index_offset(m, r, k2, 0);
        }
    } else {
        let t = m.drop_first();
        lemma_smap_get_insert(t, k, v, k2);
        let rt = smap_insert(t, k, v);
        assert(r == seq![m[0]] + rt);
        assert forall|j: int| 0 <= j < rt.len() implies r[j + 1] == rt[j] by {}
        assert forall|j: int| 0 <= j < t.len() implies m[j + 1] == t[j] by {}
        lemma_smap_index_offset(rt, r, k, 0);
        if k2 != k {
            if m[0].0 == k2 {
                assert(smap_index(r, k2, 0) == Some(0int));
                assert(smap_index(m, k2, 0) == Some(0int));
            } else {
                lemma_smap_index_offset(rt, r, k2, 0);
                lemma_smap_index_offset(t, m, k2, 0);
            }
        }
    }
}

proof fn lemma_smap_index_same<T>(m: Seq<(Seq<char>, T)>, r: Seq<(Seq<char>, T)>, k: Seq<char>, i: int)
    requires
        0 <= i <= m.len(),
        r.len() == m.len(),
        forall|j: int| i <= j < m.len() ==> r[j] == m[j],
    ensures
        smap_index(r, k, i) == smap_index(m, k, i),
    decreases m.len() - i,
{
    if i < m.len() {
        lemma_smap_index_same(m, r, k, i + 1);
    }
}

/// `smap_index` on `r`, which is `m` with one entry in front whose key is not `k`
/// (or `m` itself shifted by one), counted from the front of `r`.
proof fn lemma_smap_index_offset<T>(t: Seq<(Seq<char>, T)>, r: Seq<(Seq<char>, T)>, k: Seq<char>, i: int)
    requires
        0 <= i <= t.len(),
        r.len() == t.len() + 1,
        forall|j: int| 0 <= j < t.len() ==> r[j + 1] == t[j],
    ensures
        r[0].0 != k ==> smap_index(r, k, 0) == match smap_index(t, k, 0) {
            Some(x) => Some(x + 1),
            None => None::<int>,
        },
        r[0].0 != k && smap_index(t, k, 0) is Some ==> r[smap_index(r, k, 0)->0].1 == t[smap_index(t, k, 0)->0].1,
{
    if r[0].0 != k {
        lemma_smap_index_offset_from(t, r, k, 0);
        if smap_index(t, k, 0) is Some {
            lemma_smap_index_found(t, k, 0);
        }
    }
}

proof fn lemma_smap_index_offset_from<T>(t: Seq<(Seq<char>, T)>, r: Seq<(Seq<char>, T)>, k: Seq<char>, i: int)
    requires
        0 <= i <= t.len(),
        r.len() == t.len() + 1,
        forall|j: int| 0 <= j < t.len() ==> r[j + 1] == t[j],
    ensures
        smap_index(r, k, i + 1) == match smap_index(t, k, i) {
            Some(x) => Some(x + 1),
            None => None::<int>,
        },
    decreases t.len() - i,
{
    if i < t.len() {
        assert(r[i + 1] == t[i]);
        lemma_smap_index_offset_from(t, r, k, i + 1);
    }
}

/// A map from strings to values, iterated in key order (the role `BTreeMap<String, V>`
/// has): entries are kept sorted by key, each key at most once.
///
/// vstd's specification of `BTreeMap` gives its results through the key type's
/// `Ord`, which Verus does not know for `String`; with `String` keys not even the
/// length after one `insert` can be proved. The entries are therefore kept here
/// as a vector sorted by [`key_lt`], the order `String`'s `Ord` gives.
#[derive(Debug, Clone)]
pub struct StrMap<V> {
    entries: Vec<(String, V)>,
}

impl<V: View> View for StrMap<V> {
    type V = Seq<(Seq<char>, V::V)>;

    closed spec fn view(&self) -> Seq<(Seq<char>, V::V)> {
        self.entries@.map_values(|e: (String, V)| (e.0@, e.1@))
    }
}

/// Exec comparison for [`key_lt`].
pub fn key_less(a: &str, b: &str) -> (r: bool)
    ensures
        r == key_lt(a@, b@),
{
    let va = chars_of(a);
    let vb = chars_of(b);
    let mut i: usize = 0;
    assert(va@.skip(0) =~= va@);
    assert(vb@.skip(0) =~= vb@);
    loop
        invariant
            i <= va@.len(),
            i <= vb@.len(),
            key_lt(a@, b@) == key_lt(va@.skip(i as int), vb@.skip(i as int)),
            va@ == a@,
            vb@ == b@,
        decreases va@.len() - i,
    {
        let ghost sa = va@.skip(i as int);
        let ghost sb = vb@.skip(i as int);
        if i == va.len() {
            return i < vb.len();
        }
        if i == vb.len() {
            return false;
        }
        assert(sa[0] == va@[i as int] && sb[0] == vb@[i as int]);
        if va[i] != vb[i] {
            return (va[i] as u32) < (vb[i] as u32);
        }
        assert(sa.drop_first() =~= va@.skip(i + 1));
        assert(sb.drop_first() =~= vb@.skip(i + 1));
        i = i + 1;
    }
}

impl<V: View> StrMap<V> {
    /// An empty map.
    pub fn new() -> (m: Self)
        ensures
            m@ == Seq::<(Seq<char>, V::V)>::empty(),
    {
        let m = StrMap { entries: Vec::new() };
        assert(m@ =~= Seq::<(Seq<char>, V::V)>::empty());
        m
    }

    /// Number of keys.
    pub fn len(&self) -> (n: usize)
        ensures
            n == self@.len(),
    {
        self.entries.len()
    }

    /// Whether the map has no keys.
    pub fn is_empty(&self) -> (b: bool)
        ensures
            b == (self@.len() == 0),
    {
        self.entries.len() == 0
    }

    /// The key of the `i`-th entry in key order.
    pub fn key_at(&self, i: usize) -> (k: &str)
        requires
            i < self@.len(),
        ensures
            k@ == self@[i as int].0,
    {
        self.entries[i].0.as_str()
    }

    /// The value of the `i`-th entry in key order.
    pub fn value_at(&self, i: usize) -> (v: &V)
        requires
            i < self@.len(),
        ensures
            v@ == self@[i as int].1,
    {
        &self.entries[i].1
    }

    fn find(&self, key: &str) -> (r: Option<usize>)
        ensures
            match r {
                Some(i) => smap_index(self@, key@, 0) == Some(i as int) && i < self@.len(),
                None => smap_index(self@, key@, 0) is None,
            },
    {
        let mut i: usize = 0;
        while i < self.entries.len()
            invariant
                i <= self@.len(),
                self@.len() == self.entries@.len(),
                smap_index(self@, key@, 0) == smap_index(self@, key@, i as int),
            decreases self@.len() - i,
        {
            if str_eq(self.entries[i].0.as_str(), key) {
                return Some(i);
            }
            i = i + 1;
        }
        None
    }

    /// The value stored under `key`.
    pub fn get(&self, key: &str) -> (r: Option<&V>)
        ensures
            match r {
                Some(v) => smap_get(self@, key@) == Some(v@),
                None => smap_get(self@, key@) is None,
            },
    {
        match self.find(key) {
            Some(i) => Some(&self.entries[i].1),
            None => None,
        }
    }

    /// Whether `key` is present.
    pub fn contains_key(&self, key: &str) -> (b: bool)
        ensures
            b == smap_get(self@, key@) is Some,
    {
        self.find(key).is_some()
    }

    /// Insert `value` under `key`, replacing any value stored there.
    pub fn insert(&mut self, key: String, value: V)
        ensures
            final(self)@ == smap_insert(old(self)@, key@, value@),
    {
        let ghost m = old(self)@;
        let ghost kv = key@;
        let ghost vv = value@;
        let mut i: usize = 0;
        let mut mode: u8 = 2;
        assert(m.skip(0) =~= m);
        assert(m.take(0) + smap_insert(m.skip(0), kv, vv) =~= smap_insert(m, kv, vv));
        while i < self.entries.len()
            invariant_except_break
                mode == 2,
                smap_insert(m, kv, vv) == m.take(i as int) + smap_insert(m.skip(i as int), kv, vv),
            invariant
                i <= m.len(),
                self@ == m,
                self.entries@.len() == m.len(),
                kv == key@,
                vv == value@,
            ensures
                i <= m.len(),
                self@ == m,
                self.entries@.len() == m.len(),
                mode <= 2,
                mode == 0 ==> i < m.len() && smap_insert(m, kv, vv) == m.take(i as int) + (seq![(kv, vv)] + m.skip(i as int).drop_first()),
                mode == 1 ==> i < m.len() && smap_insert(m, kv, vv) == m.take(i as int) + (seq![(kv, vv)] + m.skip(i as int)),
                mode == 2 ==> i == m.len() && smap_insert(m, kv, vv) == m + seq![(kv, vv)],
            decreases m.len() - i,
        {
            let ghost rest = m.skip(i as int);
            assert(rest[0] == m[i as int]);
            assert(m[i as int] == (self.entries@[i as int].0@, self.entries@[i as int].1@));
            if str_eq(self.entries[i].0.as_str(), key.as_str()) {
                assert(smap_insert(rest, kv, vv) == seq![(kv, vv)] + rest.drop_first());
                mode = 0;
                break;
            }
            if key_less(key.as_str(), self.entries[i].0.as_str()) {
                assert(smap_insert(rest, kv, vv) == seq![(kv, vv)] + rest);
                mode = 1;
                break;
            }
            assert(rest.drop_first() =~= m.skip(i + 1));
            assert(m.take(i + 1) =~= m.take(i as int) + seq![m[i as int]]);
            i = i + 1;
            proof {
                if i == m.len() {
                    assert(m.skip(i as int) =~= Seq::<(Seq<char>, V::V)>::empty());
                    assert(m.take(i as int) =~= m);
                }
            }
        }
        if mode == 0 {
            self.entries.set(i, (key, value));
            assert(self@ =~= m.take(i as int) + (seq![(kv, vv)] + m.skip(i as int).drop_first()));
            assert(self@ == smap_insert(m, kv, vv));
        } else if mode == 1 {
            self.entries.insert(i, (key, value));
            assert(self@ =~= m.take(i as int) + (seq![(kv, vv)] + m.skip(i as int)));
            assert(self@ == smap_insert(m, kv, vv));
        } else {
            self.entries.push((key, value));
            assert(self@ =~= m + seq![(kv, vv)]);
            assert(self@ == smap_insert(m, kv, vv));
        }
        assert(self@ == smap_insert(m, kv, vv));
        assert(m == old(self)@);
    }
}

// ── Public types ──

/// A fully parsed and resolved schema, ready for validation.
#[derive(Debug)]
pub struct Schema {
    /// Schema name (passed to [`load_schema`], used in error output).
    pub name: String,
    /// Expected H1-level nodes, in grammar order.
    pub nodes: Vec<H1Schema>,
    /// Properties declared in a bare `types` block (apply to any section without scoped types).
    pub global_properties: PropertyMap,
    /// Table declared in a bare `table` block.
    pub global_table: Option<TableSchema>,
}

/// Property constraints keyed by property name.
pub type PropertyMap = StrMap<PropertySchema>;

/// Schema for an H1-level node.
#[derive(Debug)]
pub struct H1Schema {
    /// Grammar production that expanded into this node, if any.
    pub production_name: Option<String>,
    /// Expected heading text. `None` means any text is accepted.
    pub text: Option<String>,
    /// How many times this node may appear.
    pub quantity: Quantity,
    /// Whether this node expects top-level properties.
    pub expects_properties: bool,
    /// Scoped property constraints for this node's production.
    pub properties: Option<PropertyMap>,
    /// Expected H2 children.
    pub children: Vec<SectionSchema>,
}

/// Schema for an H2 or H3 section.
#[derive(Debug)]
pub struct SectionSchema {
    /// Grammar production that expanded into this section, if any.
    pub production_name: Option<String>,
    /// Heading level: 2 or 3.
    pub level: u8,
    /// Pattern the section heading must match.
    pub name_pattern: NamePattern,
    /// How many times this section may appear.
    pub quantity: Quantity,
    /// Whether this section requires prose.
    pub expects_prose: bool,
    /// Whether this section requires properties.
    pub expects_properties: bool,
    /// Whether this section requires a table.
    pub expects_table: bool,
    /// Scoped property constraints for this section's production.
    pub properties: Option<PropertyMap>,
    /// Scoped table constraint for this section's production.
    pub table: Option<TableSchema>,
    /// Expected H3 children (only meaningful when `level == 2`).
    pub children: Vec<SectionSchema>,
}

/// Type and modifier constraints for a single property.
#[derive(Debug, Clone)]
pub struct PropertySchema {
    /// Expected value type.
    pub value_type: ValueType,
    /// Whether this property must be present.
    pub required: bool,
    /// Default value to use when the property is absent.
    pub default: Option<String>,
}

/// The type system for structmd property values.
#[derive(Debug, PartialEq)]
pub enum ValueType {
    /// Arbitrary single-line text with no format constraint.
    String,
    /// `true` or `false`.
    Bool,
    /// One of a fixed set of string values.
    Enum(Vec<String>),
    /// Whole number.
    Integer,
    /// Floating-point or integer number.
    Number,
    /// Multi-line text (typically from a fenced code block property).
    Text,
    /// A value-less property used as a label or flag (`- key:`).
    Label,
    /// A comma-separated list of another type.
    List(Box<ValueType>),
    /// A path starting with `/`, `./` or `../`.
    Path,
    /// `every Nm`, `every Nh`, or a 5-field cron expression.
    Cron,
}

/// Table column definitions.
#[derive(Debug, Clone)]
pub struct TableSchema {
    /// Expected columns, in declared order.
    pub columns: Vec<ColumnSchema>,
}

/// Type constraint for one table column.
#[derive(Debug, Clone)]
pub struct ColumnSchema {
    /// Expected column header name.
    pub name: String,
    /// Expected value type for cells in this column.
    pub column_type: ValueType,
}

/// Pattern that a section heading must match.
#[derive(Debug)]
pub enum NamePattern {
    /// Heading must equal this exact string.
    Exact(String),
    /// Heading must be `snake_case` (lowercase letters, digits, underscores).
    SnakeCase,
    /// Heading must be `kebab-case` (lowercase letters, digits, hyphens).
    KebabCase,
    /// Heading must be an identifier (letters/digits/underscores/hyphens, starts with a letter).
    Ident,
    /// Any heading is accepted.
    Any,
}

/// How many times a node or section may appear.
#[derive(Debug, Clone, Copy, PartialEq, Eq, Structural)]
pub enum Quantity {
    /// Exactly once.
    One,
    /// One or more times.
    OneOrMore,
    /// Zero or more times.
    ZeroOrMore,
    /// Zero or one time.
    Optional,
}

/// Whether a structural element (prose, table, etc.) is required or optional.
#[derive(Debug, Default, PartialEq)]
pub enum Presence {
    Required,
    #[default]
    Optional,
}

// ── Mathematical model of schemas ──

pub ghost enum ValueTypeView {
    Str,
    Bool,
    Enum(Seq<Seq<char>>),
    Integer,
    Number,
    Text,
    Label,
    List(Box<ValueTypeView>),
    Path,
    Cron,
}

pub open spec fn value_type_view(t: ValueType) -> ValueTypeView
    decreases t,
{
    match t {
        ValueType::String => ValueTypeView::Str,
        ValueType::Bool => ValueTypeView::Bool,
        ValueType::Enum(vals) => ValueTypeView::Enum(vals@.map_values(|s: String| s@)),
        ValueType::Integer => ValueTypeView::Integer,
        ValueType::Number => ValueTypeView::Number,
        ValueType::Text => ValueTypeView::Text,
        ValueType::Label => ValueTypeView::Label,
        ValueType::List(inner) => ValueTypeView::List(Box::new(value_type_view(*inner))),
        ValueType::Path => ValueTypeView::Path,
        ValueType::Cron => ValueTypeView::Cron,
    }
}

impl View for ValueType {
    type V = ValueTypeView;

    open spec fn view(&self) -> ValueTypeView {
        value_type_view(*self)
    }
}

pub ghost struct PropertySchemaView {
    pub value_type: ValueTypeView,
    pub required: bool,
    pub default: Option<Seq<char>>,
}

impl View for PropertySchema {
    type V = PropertySchemaView;

    open spec fn view(&self) -> PropertySchemaView {
        PropertySchemaView {
            value_type: self.value_type@,
            required: self.required,
            default: match self.default {
                Some(d) => Some(d@),
                None => None,
            },
        }
    }
}

pub ghost struct ColumnSchemaView {
    pub name: Seq<char>,
    pub column_type: ValueTypeView,
}

impl View for ColumnSchema {
    type V = ColumnSchemaView;

    open spec fn view(&self) -> ColumnSchemaView {
        ColumnSchemaView { name: self.name@, column_type: self.column_type@ }
    }
}

pub ghost struct TableSchemaView {
    pub columns: Seq<ColumnSchemaView>,
}

impl View for TableSchema {
    type V = TableSchemaView;

    open spec fn view(&self) -> TableSchemaView {
        TableSchemaView { columns: self.columns@.map_values(|c: ColumnSchema| c@) }
    }
}

pub ghost enum NamePatternView {
    Exact(Seq<char>),
    SnakeCase,
    KebabCase,
    Ident,
    Any,
}

impl View for NamePattern {
    type V = NamePatternView;

    open spec fn view(&self) -> NamePatternView {
        match self {
            NamePattern::Exact(s) => NamePatternView::Exact(s@),
            NamePattern::SnakeCase => NamePatternView::SnakeCase,
            NamePattern::KebabCase => NamePatternView::KebabCase,
            NamePattern::Ident => NamePatternView::Ident,
            NamePattern::Any => NamePatternView::Any,
        }
    }
}

pub type PropertyMapView = Seq<(Seq<char>, PropertySchemaView)>;

pub ghost struct SectionSchemaView {
    pub production_name: Option<Seq<char>>,
    pub level: u8,
    pub name_pattern: NamePatternView,
    pub quantity: Quantity,
    pub expects_prose: bool,
    pub expects_properties: bool,
    pub expects_table: bool,
    pub properties: Option<PropertyMapView>,
    pub table: Option<TableSchemaView>,
    pub children: Seq<SectionSchemaView>,
}

pub open spec fn opt_str_view(o: Option<String>) -> Option<Seq<char>> {
    match o {
        Some(s) => Some(s@),
        None => None,
    }
}

pub open spec fn opt_pmap_view(o: Option<PropertyMap>) -> Option<PropertyMapView> {
    match o {
        Some(m) => Some(m@),
        None => None,
    }
}

pub open spec fn opt_table_schema_view(o: Option<TableSchema>) -> Option<TableSchemaView> {
    match o {
        Some(t) => Some(t@),
        None => None,
    }
}

pub open spec fn section_schema_view(s: SectionSchema) -> SectionSchemaView
    decreases s,
{
    SectionSchemaView {
        production_name: opt_str_view(s.production_name),
        level: s.level,
        name_pattern: s.name_pattern@,
        quantity: s.quantity,
        expects_prose: s.expects_prose,
        expects_properties: s.expects_properties,
        expects_table: s.expects_table,
        properties: opt_pmap_view(s.properties),
        table: opt_table_schema_view(s.table),
        children: Seq::new(
            s.children@.len(),
            |i: int|
                if 0 <= i < s.children@.len() {
                    section_schema_view(s.children@[i])
                } else {
                    arbitrary()
                },
        ),
    }
}

impl View for SectionSchema {
    type V = SectionSchemaView;

    open spec fn view(&self) -> SectionSchemaView {
        section_schema_view(*self)
    }
}

pub open spec fn section_schemas_view(v: Seq<SectionSchema>) -> Seq<SectionSchemaView> {
    v.map_values(|s: SectionSchema| s@)
}

pub ghost struct H1SchemaView {
    pub production_name: Option<Seq<char>>,
    pub text: Option<Seq<char>>,
    pub quantity: Quantity,
    pub expects_properties: bool,
    pub properties: Option<PropertyMapView>,
    pub children: Seq<SectionSchemaView>,
}

impl View for H1Schema {
    type V = H1SchemaView;

    open spec fn view(&self) -> H1SchemaView {
        H1SchemaView {
            production_name: opt_str_view(self.production_name),
            text: opt_str_view(self.text),
            quantity: self.quantity,
            expects_properties: self.expects_properties,
            properties: opt_pmap_view(self.properties),
            children: section_schemas_view(self.children@),
        }
    }
}

pub open spec fn h1_schemas_view(v: Seq<H1Schema>) -> Seq<H1SchemaView> {
    v.map_values(|s: H1Schema| s@)
}

pub ghost struct SchemaView {
    pub name: Seq<char>,
    pub nodes: Seq<H1SchemaView>,
    pub global_properties: PropertyMapView,
    pub global_table: Option<TableSchemaView>,
}

impl View for Schema {
    type V = SchemaView;

    open spec fn view(&self) -> SchemaView {
        SchemaView {
            name: self.name@,
            nodes: h1_schemas_view(self.nodes@),
            global_properties: self.global_properties@,
            global_table: opt_table_schema_view(self.global_table),
        }
    }
}

// ── Name patterns ──

pub open spec fn all_chars(s: Seq<char>, p: spec_fn(char) -> bool) -> bool {
    forall|i: int| 0 <= i < s.len() ==> p(#[trigger] s[i])
}

/// Whether a heading `name` satisfies a name pattern.
pub open spec fn pattern_matches(p: NamePatternView, name: Seq<char>) -> bool {
    match p {
        NamePatternView::Exact(e) => name == e,
        NamePatternView::SnakeCase => name.len() > 0 && is_lower(name[0]) && all_chars(
            name,
            |c: char| is_lower(c) || is_digit(c) || c == '_',
        ),
        NamePatternView::KebabCase => name.len() > 0 && is_lower(name[0]) && all_chars(
            name,
            |c: char| is_lower(c) || is_digit(c) || c == '-',
        ),
        NamePatternView::Ident => name.len() > 0 && is_alpha(name[0]) && all_chars(
            name,
            |c: char| is_alnum(c) || c == '_' || c == '-',
        ),
        NamePatternView::Any => true,
    }
}

pub open spec fn pattern_label(p: NamePatternView) -> Seq<char> {
    match p {
        NamePatternView::Exact(s) => s,
        NamePatternView::SnakeCase => "snake_case"@,
        NamePatternView::KebabCase => "kebab-case"@,
        NamePatternView::Ident => "identifier"@,
        NamePatternView::Any => "any"@,
    }
}

fn all_chars_exec(v: &Vec<char>, kind: u8) -> (r: bool)
    requires
        kind < 3,
    ensures
        r == all_chars(
            v@,
            if kind == 0 {
                |c: char| is_lower(c) || is_digit(c) || c == '_'
            } else if kind == 1 {
                |c: char| is_lower(c) || is_digit(c) || c == '-'
            } else {
                |c: char| is_alnum(c) || c == '_' || c == '-'
            },
        ),
{
    let ghost p = if kind == 0 {
        |c: char| is_lower(c) || is_digit(c) || c == '_'
    } else if kind == 1 {
        |c: char| is_lower(c) || is_digit(c) || c == '-'
    } else {
        |c: char| is_alnum(c) || c == '_' || c == '-'
    };
    let mut i: usize = 0;
    while i < v.len()
        invariant
            i <= v@.len(),
            forall|j: int| 0 <= j < i ==> p(#[trigger] v@[j]),
            p == (if kind == 0 {
                |c: char| is_lower(c) || is_digit(c) || c == '_'
            } else if kind == 1 {
                |c: char| is_lower(c) || is_digit(c) || c == '-'
            } else {
                |c: char| is_alnum(c) || c == '_' || c == '-'
            }),
        decreases v@.len() - i,
    {
        let c = v[i];
        let lower = 'a' <= c && c <= 'z';
        let upper = 'A' <= c && c <= 'Z';
        let digit = '0' <= c && c <= '9';
        let ok = if kind == 0 {
            lower || digit || c == '_'
        } else if kind == 1 {
            lower || digit || c == '-'
        } else {
            lower || upper || digit || c == '_' || c == '-'
        };
        if !ok {
            assert(!p(v@[i as int]));
            return false;
        }
        i = i + 1;
    }
    true
}

impl NamePattern {
    /// Returns `true` if `name` satisfies this pattern.
    pub fn matches(&self, name: &str) -> (r: bool)
        ensures
            r == pattern_matches(self@, name@),
    {
        match self {
            NamePattern::Exact(expected) => str_eq(name, expected.as_str()),
            NamePattern::SnakeCase => {
                let v = chars_of(name);
                v.len() > 0 && 'a' <= v[0] && v[0] <= 'z' && all_chars_exec(&v, 0)
            },
            NamePattern::KebabCase => {
                let v = chars_of(name);
                v.len() > 0 && 'a' <= v[0] && v[0] <= 'z' && all_chars_exec(&v, 1)
            },
            NamePattern::Ident => {
                let v = chars_of(name);
                v.len() > 0 && (('a' <= v[0] && v[0] <= 'z') || ('A' <= v[0] && v[0] <= 'Z'))
                    && all_chars_exec(&v, 2)
            },
            NamePattern::Any => true,
        }
    }

    /// Human-readable label for this pattern, used in error messages.
    pub fn label(&self) -> (r: &str)
        ensures
            r@ == pattern_label(self@),
    {
        match self {
            NamePattern::Exact(s) => s.as_str(),
            NamePattern::SnakeCase => "snake_case",
            NamePattern::KebabCase => "kebab-case",
            NamePattern::Ident => "identifier",
            NamePattern::Any => "any",
        }
    }

    /// Returns `true` if section names are free-form (i.e. this is not an [`Exact`](Self::Exact) match).
    pub fn is_dynamic(&self) -> (r: bool)
        ensures
            r == !(self@ is Exact),
    {
        !matches!(self, NamePattern::Exact(_))
    }
}


// ── Type annotations ──

pub open spec fn enum_open() -> Seq<char> {
    seq!['e', 'n', 'u', 'm', '(']
}

pub open spec fn list_open() -> Seq<char> {
    seq!['l', 'i', 's', 't', '(']
}

pub open spec fn default_open() -> Seq<char> {
    seq!['d', 'e', 'f', 'a', 'u', 'l', 't', '(']
}

/// The meaning of a type annotation such as `string`, `enum(a, b)` or `list(integer)`.
pub open spec fn parse_value_type_spec(s: Seq<char>) -> Result<ValueTypeView, Seq<char>>
    decreases s.len(),
{
    let t = trim(s);
    let er = after(t, enum_open());
    let lr = after(t, list_open());
    if starts_with(t, enum_open()) && ends_with(er, seq![')']) {
        Ok(
            ValueTypeView::Enum(
                split_char(before_suffix(er, seq![')']), ',').map_values(|x: Seq<char>| trim(x)),
            ),
        )
    } else if starts_with(t, list_open()) && ends_with(lr, seq![')']) {
        let inner = trim(before_suffix(lr, seq![')']));
        proof {
            lemma_trim_len(s);
            lemma_trim_len(before_suffix(lr, seq![')']));
        }
        match parse_value_type_spec(inner) {
            Ok(it) => Ok(ValueTypeView::List(Box::new(it))),
            Err(e) => Err(e),
        }
    } else if t == "string"@ {
        Ok(ValueTypeView::Str)
    } else if t == "bool"@ {
        Ok(ValueTypeView::Bool)
    } else if t == "integer"@ {
        Ok(ValueTypeView::Integer)
    } else if t == "number"@ {
        Ok(ValueTypeView::Number)
    } else if t == "text"@ {
        Ok(ValueTypeView::Text)
    } else if t == "label"@ {
        Ok(ValueTypeView::Label)
    } else if t == "path"@ {
        Ok(ValueTypeView::Path)
    } else if t == "cron"@ {
        Ok(ValueTypeView::Cron)
    } else {
        Err("unknown type: "@ + t)
    }
}

/// Pieces of `s[start..]` split at commas outside parentheses, scanning from `i`.
pub open spec fn split_mod(s: Seq<char>, i: int, start: int, depth: int) -> Seq<Seq<char>>
    decreases s.len() - i,
{
    if i < 0 || i >= s.len() {
        seq![s.subrange(start, s.len() as int)]
    } else if s[i] == '(' {
        split_mod(s, i + 1, start, depth + 1)
    } else if s[i] == ')' {
        split_mod(s, i + 1, start, depth - 1)
    } else if s[i] == ',' && depth == 0 {
        seq![s.subrange(start, i)] + split_mod(s, i + 1, i + 1, depth)
    } else {
        split_mod(s, i + 1, start, depth)
    }
}

/// `type, modifier, ...` split at top-level commas (`enum(a, b)` stays whole).
pub open spec fn split_modifiers_spec(s: Seq<char>) -> Seq<Seq<char>> {
    split_mod(s, 0, 0, 0)
}

pub open spec fn apply_modifier(acc: (bool, Option<Seq<char>>), part: Seq<char>) -> (bool, Option<Seq<char>>) {
    let p = trim(part);
    let r = after(p, default_open());
    if p == "required"@ {
        (true, acc.1)
    } else if starts_with(p, default_open()) && ends_with(r, seq![')']) {
        (acc.0, Some(trim_matches(trim(before_suffix(r, seq![')'])), '"')))
    } else {
        acc
    }
}

/// The modifiers among `parts[1..n]`: whether `required` appears, and the last `default(...)`.
pub open spec fn modifiers_fold(parts: Seq<Seq<char>>, n: int) -> (bool, Option<Seq<char>>)
    decreases n,
{
    if n <= 1 || n > parts.len() {
        (false, None)
    } else {
        apply_modifier(modifiers_fold(parts, n - 1), parts[n - 1])
    }
}

/// The meaning of `type, modifiers...` in a `types` block.
pub open spec fn parse_type_with_modifiers_spec(s: Seq<char>) -> Result<PropertySchemaView, Seq<char>> {
    let parts = split_modifiers_spec(s);
    if parts.len() == 0 {
        Err("empty type annotation"@)
    } else {
        match parse_value_type_spec(trim(parts[0])) {
            Ok(vt) => {
                let m = modifiers_fold(parts, parts.len() as int);
                Ok(PropertySchemaView { value_type: vt, required: m.0, default: m.1 })
            },
            Err(e) => Err(e),
        }
    }
}

pub open spec fn strip_comment(r: Seq<char>) -> Seq<char> {
    r.subrange(0, char_end(r, '#', 0))
}

/// `@key : rest` (already trimmed): the key and the annotation, comment stripped.
pub open spec fn decl_parts(l: Seq<char>) -> Option<(Seq<char>, Seq<char>)> {
    let l2 = after(l, seq!['@']);
    if starts_with(l, seq!['@']) && find(l2, seq![':']) is Some {
        let k = find(l2, seq![':'])->0;
        Some((trim(l2.subrange(0, k)), trim(strip_comment(l2.subrange(k + 1, l2.len() as int)))))
    } else {
        None
    }
}

pub open spec fn types_line(raw: Seq<char>, m: PropertyMapView) -> Result<PropertyMapView, Seq<char>> {
    let l = trim(raw);
    if l.len() == 0 {
        Ok(m)
    } else {
        match decl_parts(l) {
            Some((key, rest)) => match parse_type_with_modifiers_spec(rest) {
                Ok(ps) => Ok(smap_insert(m, key, ps)),
                Err(e) => Err(e),
            },
            None => Ok(m),
        }
    }
}

pub open spec fn types_lines(ls: Seq<Seq<char>>, n: int, m: PropertyMapView) -> Result<PropertyMapView, Seq<char>>
    decreases n,
{
    if n <= 0 || n > ls.len() {
        Ok(m)
    } else {
        match types_lines(ls, n - 1, m) {
            Ok(m2) => types_line(ls[n - 1], m2),
            Err(e) => Err(e),
        }
    }
}

/// The properties declared in a list of `types` blocks.
pub open spec fn types_blocks_spec(blocks: Seq<Seq<char>>, n: int) -> Result<PropertyMapView, Seq<char>>
    decreases n,
{
    if n <= 0 || n > blocks.len() {
        Ok(seq![])
    } else {
        match types_blocks_spec(blocks, n - 1) {
            Ok(m) => types_lines(lines(blocks[n - 1]), lines(blocks[n - 1]).len() as int, m),
            Err(e) => Err(e),
        }
    }
}

proof fn lemma_types_lines_err(ls: Seq<Seq<char>>, n: int, n2: int, m: PropertyMapView, e: Seq<char>)
    requires
        0 <= n <= n2 <= ls.len(),
        types_lines(ls, n, m) == Err::<PropertyMapView, Seq<char>>(e),
    ensures
        types_lines(ls, n2, m) == Err::<PropertyMapView, Seq<char>>(e),
    decreases n2 - n,
{
    if n2 > n {
        lemma_types_lines_err(ls, n, n2 - 1, m, e);
    }
}

proof fn lemma_types_blocks_err(bs: Seq<Seq<char>>, n: int, n2: int, e: Seq<char>)
    requires
        0 <= n <= n2 <= bs.len(),
        types_blocks_spec(bs, n) == Err::<PropertyMapView, Seq<char>>(e),
    ensures
        types_blocks_spec(bs, n2) == Err::<PropertyMapView, Seq<char>>(e),
    decreases n2 - n,
{
    if n2 > n {
        lemma_types_blocks_err(bs, n, n2 - 1, e);
    }
}

pub open spec fn table_line(raw: Seq<char>, cols: Seq<ColumnSchemaView>) -> Result<Seq<ColumnSchemaView>, Seq<char>> {
    let l = trim(raw);
    if l.len() == 0 {
        Ok(cols)
    } else {
        match decl_parts(l) {
            Some((name, rest)) => match parse_value_type_spec(rest) {
                Ok(t) => Ok(cols.push(ColumnSchemaView { name, column_type: t })),
                Err(e) => Err(e),
            },
            None => Ok(cols),
        }
    }
}

pub open spec fn table_lines(ls: Seq<Seq<char>>, n: int, cols: Seq<ColumnSchemaView>) -> Result<Seq<ColumnSchemaView>, Seq<char>>
    decreases n,
{
    if n <= 0 || n > ls.len() {
        Ok(cols)
    } else {
        match table_lines(ls, n - 1, cols) {
            Ok(c2) => table_line(ls[n - 1], c2),
            Err(e) => Err(e),
        }
    }
}

pub open spec fn table_columns_spec(blocks: Seq<Seq<char>>, n: int) -> Result<Seq<ColumnSchemaView>, Seq<char>>
    decreases n,
{
    if n <= 0 || n > blocks.len() {
        Ok(seq![])
    } else {
        match table_columns_spec(blocks, n - 1) {
            Ok(c) => table_lines(lines(blocks[n - 1]), lines(blocks[n - 1]).len() as int, c),
            Err(e) => Err(e),
        }
    }
}

proof fn lemma_table_lines_err(ls: Seq<Seq<char>>, n: int, n2: int, c: Seq<ColumnSchemaView>, e: Seq<char>)
    requires
        0 <= n <= n2 <= ls.len(),
        table_lines(ls, n, c) == Err::<Seq<ColumnSchemaView>, Seq<char>>(e),
    ensures
        table_lines(ls, n2, c) == Err::<Seq<ColumnSchemaView>, Seq<char>>(e),
    decreases n2 - n,
{
    if n2 > n {
        lemma_table_lines_err(ls, n, n2 - 1, c, e);
    }
}

proof fn lemma_table_columns_err(bs: Seq<Seq<char>>, n: int, n2: int, e: Seq<char>)
    requires
        0 <= n <= n2 <= bs.len(),
        table_columns_spec(bs, n) == Err::<Seq<ColumnSchemaView>, Seq<char>>(e),
    ensures
        table_columns_spec(bs, n2) == Err::<Seq<ColumnSchemaView>, Seq<char>>(e),
    decreases n2 - n,
{
    if n2 > n {
        lemma_table_columns_err(bs, n, n2 - 1, e);
    }
}

/// The table declared in a list of `table` blocks (`None` when it declares no column).
pub open spec fn table_blocks_spec(blocks: Seq<Seq<char>>) -> Result<Option<TableSchemaView>, Seq<char>> {
    match table_columns_spec(blocks, blocks.len() as int) {
        Ok(cols) => if cols.len() == 0 {
            Ok(None)
        } else {
            Ok(Some(TableSchemaView { columns: cols }))
        },
        Err(e) => Err(e),
    }
}

pub open spec fn result_view<T: View>(r: Result<T, String>) -> Result<T::V, Seq<char>> {
    match r {
        Ok(t) => Ok(t@),
        Err(e) => Err(e@),
    }
}

fn is_literal(v: &Vec<char>, a: usize, b: usize, lit: &str) -> (r: bool)
    requires
        a <= b <= v@.len(),
    ensures
        r == (v@.subrange(a as int, b as int) == lit@),
{
    let s = string_of(v, a, b);
    str_eq(s.as_str(), lit)
}

fn trimmed_pieces(v: &Vec<char>, a: usize, b: usize, c: char) -> (r: Vec<String>)
    requires
        a <= b <= v@.len(),
    ensures
        r@.map_values(|x: String| x@) == split_char(v@.subrange(a as int, b as int), c).map_values(
            |x: Seq<char>| trim(x),
        ),
{
    let ranges = split_ranges(v, a, b, c);
    let ghost pieces = split_char(v@.subrange(a as int, b as int), c);
    let ghost want = pieces.map_values(|x: Seq<char>| trim(x));
    let mut out: Vec<String> = Vec::new();
    let mut i: usize = 0;
    while i < ranges.len()
        invariant
            i <= ranges@.len(),
            a <= b <= v@.len(),
            forall|k: int| 0 <= k < ranges@.len() ==> a <= (#[trigger] ranges@[k]).0 <= ranges@[k].1 <= b,
            ranges@.map_values(|p: (usize, usize)| v@.subrange(p.0 as int, p.1 as int)) == pieces,
            want == pieces.map_values(|x: Seq<char>| trim(x)),
            out@.map_values(|x: String| x@) == want.take(i as int),
        decreases ranges@.len() - i,
    {
        let (x, y) = ranges[i];
        assert(pieces[i as int] == v@.subrange(x as int, y as int));
        let (ta, tb) = trim_range(v, x, y);
        let ghost old_out = out@;
        out.push(string_of(v, ta, tb));
        assert(out@.map_values(|x: String| x@) =~= old_out.map_values(|x: String| x@).push(
            want[i as int],
        ));
        assert(want.take(i + 1) =~= want.take(i as int).push(want[i as int]));
        i = i + 1;
    }
    assert(want.take(ranges@.len() as int) =~= want);
    out
}

fn value_type_of(v: &Vec<char>, lo: usize, hi: usize) -> (r: Result<ValueType, String>)
    requires
        lo <= hi <= v@.len(),
    ensures
        result_view(r) == parse_value_type_spec(v@.subrange(lo as int, hi as int)),
    decreases hi - lo,
{
    let (a, b) = trim_range(v, lo, hi);
    let ghost t = v@.subrange(a as int, b as int);
    if starts_with_at(v, a, b, &['e', 'n', 'u', 'm', '(']) && b - a >= 6 && v[b - 1] == ')' {
        assert(after(t, enum_open()) =~= v@.subrange(a + 5, b as int));
        assert(before_suffix(after(t, enum_open()), seq![')']) =~= v@.subrange(a + 5, b - 1));
        proof {
            lemma_ends_with_char(after(t, enum_open()), ')');
        }
        let vals = trimmed_pieces(v, a + 5, b - 1, ',');
        let r = ValueType::Enum(vals);
        assert(r@ == ValueTypeView::Enum(vals@.map_values(|s: String| s@)));
        return Ok(r);
    }
    proof {
        if starts_with(t, enum_open()) {
            let er = after(t, enum_open());
            lemma_ends_with_char(er, ')');
            if er.len() > 0 {
                assert(er[er.len() - 1] == v@[b - 1]);
            }
        }
    }
    if starts_with_at(v, a, b, &['l', 'i', 's', 't', '(']) && b - a >= 6 && v[b - 1] == ')' {
        assert(after(t, list_open()) =~= v@.subrange(a + 5, b as int));
        assert(before_suffix(after(t, list_open()), seq![')']) =~= v@.subrange(a + 5, b - 1));
        proof {
            lemma_ends_with_char(after(t, list_open()), ')');
        }
        let (ia, ib) = trim_range(v, a + 5, b - 1);
        proof {
            crate::text::lemma_trim_len(v@.subrange(lo as int, hi as int));
        }
        match value_type_of(v, ia, ib) {
            Ok(inner) => {
                let r = ValueType::List(Box::new(inner));
                return Ok(r);
            },
            Err(e) => {
                return Err(e);
            },
        }
    }
    proof {
        if starts_with(t, list_open()) {
            let lr = after(t, list_open());
            lemma_ends_with_char(lr, ')');
            if lr.len() > 0 {
                assert(lr[lr.len() - 1] == v@[b - 1]);
            }
        }
    }
    if is_literal(v, a, b, "string") {
        Ok(ValueType::String)
    } else if is_literal(v, a, b, "bool") {
        Ok(ValueType::Bool)
    } else if is_literal(v, a, b, "integer") {
        Ok(ValueType::Integer)
    } else if is_literal(v, a, b, "number") {
        Ok(ValueType::Number)
    } else if is_literal(v, a, b, "text") {
        Ok(ValueType::Text)
    } else if is_literal(v, a, b, "label") {
        Ok(ValueType::Label)
    } else if is_literal(v, a, b, "path") {
        Ok(ValueType::Path)
    } else if is_literal(v, a, b, "cron") {
        Ok(ValueType::Cron)
    } else {
        let mut msg = string_from("unknown type: ");
        append_chars_range(&mut msg, v, a, b);
        Err(msg)
    }
}

fn append_chars_range(s: &mut String, v: &Vec<char>, a: usize, b: usize)
    requires
        a <= b <= v@.len(),
    ensures
        final(s)@ == old(s)@ + v@.subrange(a as int, b as int),
{
    let t = string_of(v, a, b);
    s.append(t.as_str());
}

/// Parses a type annotation such as `string`, `enum(a, b)` or `list(integer)`.
pub fn parse_value_type(s: &str) -> (r: Result<ValueType, String>)
    ensures
        result_view(r) == parse_value_type_spec(s@),
{
    let v = chars_of(s);
    let r = value_type_of(&v, 0, v.len());
    assert(v@.subrange(0, v@.len() as int) =~= s@);
    r
}


fn split_modifier_ranges(v: &Vec<char>, lo: usize, hi: usize) -> (r: Vec<(usize, usize)>)
    requires
        lo <= hi <= v@.len(),
    ensures
        r@.len() >= 1,
        forall|k: int| 0 <= k < r@.len() ==> lo <= (#[trigger] r@[k]).0 <= r@[k].1 <= hi,
        r@.map_values(|p: (usize, usize)| v@.subrange(p.0 as int, p.1 as int)) == split_modifiers_spec(
            v@.subrange(lo as int, hi as int),
        ),
{
    let ghost s = v@.subrange(lo as int, hi as int);
    let mut r: Vec<(usize, usize)> = Vec::new();
    let mut i = lo;
    let mut start = lo;
    let mut opens: usize = 0;
    let mut closes: usize = 0;
    while i < hi
        invariant
            lo <= start <= i <= hi <= v@.len(),
            s == v@.subrange(lo as int, hi as int),
            opens + closes <= i - lo,
            forall|k: int| 0 <= k < r@.len() ==> lo <= (#[trigger] r@[k]).0 <= r@[k].1 <= hi,
            r@.map_values(|p: (usize, usize)| v@.subrange(p.0 as int, p.1 as int)) + split_mod(
                s,
                i - lo,
                start - lo,
                opens - closes,
            ) == split_modifiers_spec(s),
        decreases hi - i,
    {
        assert(s[i - lo] == v@[i as int]);
        let c = v[i];
        if c == '(' {
            opens = opens + 1;
        } else if c == ')' {
            closes = closes + 1;
        } else if c == ',' && opens == closes {
            let ghost old_r = r@;
            r.push((start, i));
            assert(s.subrange(start - lo, i - lo) =~= v@.subrange(start as int, i as int));
            assert(r@.map_values(|p: (usize, usize)| v@.subrange(p.0 as int, p.1 as int)) =~= old_r.map_values(
                |p: (usize, usize)| v@.subrange(p.0 as int, p.1 as int),
            ).push(v@.subrange(start as int, i as int)));
            start = i + 1;
        }
        i = i + 1;
    }
    let ghost old_r = r@;
    r.push((start, hi));
    assert(s.subrange(start - lo, s.len() as int) =~= v@.subrange(start as int, hi as int));
    assert(r@.map_values(|p: (usize, usize)| v@.subrange(p.0 as int, p.1 as int)) =~= old_r.map_values(
        |p: (usize, usize)| v@.subrange(p.0 as int, p.1 as int),
    ).push(v@.subrange(start as int, hi as int)));
    r
}

/// `str::trim_matches('"')` on a window, as a new `String`.
fn unquote(v: &Vec<char>, a: usize, b: usize) -> (r: String)
    requires
        a <= b <= v@.len(),
    ensures
        r@ == trim_matches(v@.subrange(a as int, b as int), '"'),
{
    let (x, y) = trim_matches_range(v, a, b, '"');
    string_of(v, x, y)
}

fn modifier_of(v: &Vec<char>, lo: usize, hi: usize, required: &mut bool, default: &mut Option<String>)
    requires
        lo <= hi <= v@.len(),
    ensures
        (*final(required), opt_str_view(*final(default))) == apply_modifier(
            (*old(required), opt_str_view(*old(default))),
            v@.subrange(lo as int, hi as int),
        ),
{
    let (a, b) = trim_range(v, lo, hi);
    let ghost p = v@.subrange(a as int, b as int);
    if is_literal(v, a, b, "required") {
        *required = true;
        return;
    }
    if starts_with_at(v, a, b, &['d', 'e', 'f', 'a', 'u', 'l', 't', '(']) && b - a >= 9 && v[b - 1] == ')' {
        assert(after(p, default_open()) =~= v@.subrange(a + 8, b as int));
        assert(before_suffix(after(p, default_open()), seq![')']) =~= v@.subrange(a + 8, b - 1));
        proof {
            lemma_ends_with_char(after(p, default_open()), ')');
        }
        let (ia, ib) = trim_range(v, a + 8, b - 1);
        *default = Some(unquote(v, ia, ib));
        return;
    }
    proof {
        if starts_with(p, default_open()) {
            let r = after(p, default_open());
            lemma_ends_with_char(r, ')');
            if r.len() > 0 {
                assert(r[r.len() - 1] == v@[b - 1]);
            }
        }
    }
}

fn type_with_modifiers_of(v: &Vec<char>, lo: usize, hi: usize) -> (r: Result<PropertySchema, String>)
    requires
        lo <= hi <= v@.len(),
    ensures
        result_view(r) == parse_type_with_modifiers_spec(v@.subrange(lo as int, hi as int)),
{
    let parts = split_modifier_ranges(v, lo, hi);
    let ghost ps = split_modifiers_spec(v@.subrange(lo as int, hi as int));
    if parts.len() == 0 {
        return Err(string_from("empty type annotation"));
    }
    let (p0a, p0b) = parts[0];
    assert(ps[0] == v@.subrange(p0a as int, p0b as int));
    let (ta, tb) = trim_range(v, p0a, p0b);
    let vtype = match value_type_of(v, ta, tb) {
        Ok(t) => t,
        Err(e) => {
            return Err(e);
        },
    };
    let mut required = false;
    let mut default: Option<String> = None;
    let mut k: usize = 1;
    while k < parts.len()
        invariant
            1 <= k <= parts@.len(),
            forall|j: int| 0 <= j < parts@.len() ==> lo <= (#[trigger] parts@[j]).0 <= parts@[j].1 <= hi,
            hi <= v@.len(),
            parts@.map_values(|p: (usize, usize)| v@.subrange(p.0 as int, p.1 as int)) == ps,
            (required, opt_str_view(default)) == modifiers_fold(ps, k as int),
        decreases parts@.len() - k,
    {
        let (x, y) = parts[k];
        assert(ps[k as int] == v@.subrange(x as int, y as int));
        modifier_of(v, x, y, &mut required, &mut default);
        k = k + 1;
    }
    Ok(PropertySchema { value_type: vtype, required, default })
}

/// Parses `type, modifiers...` (e.g. `string, required` or `bool, default(true)`).
pub fn parse_type_with_modifiers(s: &str) -> (r: Result<(ValueType, bool, Option<String>), String>)
    ensures
        match r {
            Ok((t, req, def)) => parse_type_with_modifiers_spec(s@) == Ok::<PropertySchemaView, Seq<char>>(
                PropertySchemaView { value_type: t@, required: req, default: opt_str_view(def) },
            ),
            Err(e) => parse_type_with_modifiers_spec(s@) == Err::<PropertySchemaView, Seq<char>>(e@),
        },
{
    let v = chars_of(s);
    assert(v@.subrange(0, v@.len() as int) =~= s@);
    match type_with_modifiers_of(&v, 0, v.len()) {
        Ok(ps) => Ok((ps.value_type, ps.required, ps.default)),
        Err(e) => Err(e),
    }
}

/// Position of the first `c` in `v[lo..hi]`, or `hi`.
fn char_end_in(v: &Vec<char>, lo: usize, hi: usize, c: char) -> (r: usize)
    requires
        lo <= hi <= v@.len(),
    ensures
        r == lo + char_end(v@.subrange(lo as int, hi as int), c, 0),
        lo <= r <= hi,
{
    let ghost s = v@.subrange(lo as int, hi as int);
    let mut i = lo;
    while i < hi && v[i] != c
        invariant
            lo <= i <= hi <= v@.len(),
            s == v@.subrange(lo as int, hi as int),
            char_end(s, c, 0) == char_end(s, c, i - lo),
        decreases hi - i,
    {
        assert(s[i - lo] == v@[i as int]);
        i = i + 1;
    }
    proof {
        if i < hi {
            assert(s[i - lo] == v@[i as int]);
        }
        crate::text::lemma_char_end_bounds(s, c, 0);
    }
    i
}

/// Splits a trimmed `@key : annotation  # comment` line into key and annotation windows.
fn decl_of(v: &Vec<char>, la: usize, lb: usize) -> (r: Option<((usize, usize), (usize, usize))>)
    requires
        la <= lb <= v@.len(),
    ensures
        match r {
            Some((k, a)) => la <= k.0 <= k.1 <= lb && la <= a.0 <= a.1 <= lb && decl_parts(
                v@.subrange(la as int, lb as int),
            ) == Some((v@.subrange(k.0 as int, k.1 as int), v@.subrange(a.0 as int, a.1 as int))),
            None => decl_parts(v@.subrange(la as int, lb as int)) is None,
        },
{
    let ghost l = v@.subrange(la as int, lb as int);
    proof {
        lemma_starts_with_char(l, '@');
    }
    if la < lb && v[la] == '@' {
        let ghost l2 = after(l, seq!['@']);
        assert(l2 =~= v@.subrange(la + 1, lb as int));
        let colon: &[char] = &[':'];
        assert(colon@ =~= seq![':']);
        match find_in(v, la + 1, lb, colon) {
            Some(k) => {
                let (ka, kb) = trim_range(v, la + 1, la + 1 + k);
                assert(l2.subrange(0, k as int) =~= v@.subrange(la + 1, la + 1 + k));
                let rs = la + 1 + k + 1;
                let e = char_end_in(v, rs, lb, '#');
                let ghost rest = l2.subrange(k + 1, l2.len() as int);
                assert(rest =~= v@.subrange(rs as int, lb as int));
                assert(strip_comment(rest) =~= v@.subrange(rs as int, e as int));
                let (ra, rb) = trim_range(v, rs, e);
                Some(((ka, kb), (ra, rb)))
            },
            None => None,
        }
    } else {
        None
    }
}

/// The properties declared in a list of `types` blocks.
fn types_from_blocks(blocks: &Vec<String>) -> (r: Result<PropertyMap, String>)
    ensures
        result_view(r) == types_blocks_spec(strings_view(blocks@), blocks@.len() as int),
        r matches Ok(m) ==> smap_sorted(m@),
{
    let ghost bs = strings_view(blocks@);
    let mut m: PropertyMap = StrMap::new();
    let mut bi: usize = 0;
    while bi < blocks.len()
        invariant
            bi <= blocks@.len(),
            bs == strings_view(blocks@),
            types_blocks_spec(bs, bi as int) == Ok::<PropertyMapView, Seq<char>>(m@),
            smap_sorted(m@),
        decreases blocks@.len() - bi,
    {
        let v = chars_of(blocks[bi].as_str());
        assert(v@ == bs[bi as int]);
        let ranges = line_ranges(&v);
        let ghost ls = lines(v@);
        let ghost m0 = m@;
        let mut li: usize = 0;
        while li < ranges.len()
            invariant
                li <= ranges@.len(),
                forall|k: int| 0 <= k < ranges@.len() ==> (#[trigger] ranges@[k]).0 <= ranges@[k].1 <= v@.len(),
                ranges@.map_values(|q: (usize, usize)| v@.subrange(q.0 as int, q.1 as int)) == ls,
                types_lines(ls, li as int, m0) == Ok::<PropertyMapView, Seq<char>>(m@),
                smap_sorted(m@),
                bi < blocks@.len(),
                bs == strings_view(blocks@),
                bs.len() == blocks@.len(),
                ls == lines(bs[bi as int]),
                types_blocks_spec(bs, bi as int) == Ok::<PropertyMapView, Seq<char>>(m0),
            decreases ranges@.len() - li,
        {
            let (lo, hi) = ranges[li];
            assert(ls[li as int] == v@.subrange(lo as int, hi as int));
            let (a, b) = trim_range(&v, lo, hi);
            if a < b {
                match decl_of(&v, a, b) {
                    Some(((ka, kb), (ra, rb))) => {
                        match type_with_modifiers_of(&v, ra, rb) {
                            Ok(ps) => {
                                proof {
                                    lemma_smap_insert_sorted(m@, v@.subrange(ka as int, kb as int), ps@);
                                }
                                m.insert(string_of(&v, ka, kb), ps);
                            },
                            Err(e) => {
                                proof {
                                    lemma_types_lines_err(ls, li + 1, ls.len() as int, m0, e@);
                                    lemma_types_blocks_err(bs, bi + 1, bs.len() as int, e@);
                                }
                                return Err(e);
                            },
                        }
                    },
                    None => {},
                }
            }
            li = li + 1;
        }
        bi = bi + 1;
    }
    Ok(m)
}

/// The table declared in a list of `table` blocks.
fn table_from_blocks(blocks: &Vec<String>) -> (r: Result<Option<TableSchema>, String>)
    ensures
        match r {
            Ok(t) => table_blocks_spec(strings_view(blocks@)) == Ok::<Option<TableSchemaView>, Seq<char>>(opt_table_schema_view(t)),
            Err(e) => table_blocks_spec(strings_view(blocks@)) == Err::<Option<TableSchemaView>, Seq<char>>(e@),
        },
{
    let ghost bs = strings_view(blocks@);
    let mut cols: Vec<ColumnSchema> = Vec::new();
    assert(cols@.map_values(|c: ColumnSchema| c@) =~= Seq::<ColumnSchemaView>::empty());
    let mut bi: usize = 0;
    while bi < blocks.len()
        invariant
            bi <= blocks@.len(),
            bs == strings_view(blocks@),
            table_columns_spec(bs, bi as int) == Ok::<Seq<ColumnSchemaView>, Seq<char>>(cols@.map_values(|c: ColumnSchema| c@)),
        decreases blocks@.len() - bi,
    {
        let v = chars_of(blocks[bi].as_str());
        assert(v@ == bs[bi as int]);
        let ranges = line_ranges(&v);
        let ghost ls = lines(v@);
        let ghost c0 = cols@.map_values(|c: ColumnSchema| c@);
        let mut li: usize = 0;
        while li < ranges.len()
            invariant
                li <= ranges@.len(),
                forall|k: int| 0 <= k < ranges@.len() ==> (#[trigger] ranges@[k]).0 <= ranges@[k].1 <= v@.len(),
                ranges@.map_values(|q: (usize, usize)| v@.subrange(q.0 as int, q.1 as int)) == ls,
                table_lines(ls, li as int, c0) == Ok::<Seq<ColumnSchemaView>, Seq<char>>(cols@.map_values(|c: ColumnSchema| c@)),
                bi < blocks@.len(),
                bs == strings_view(blocks@),
                bs.len() == blocks@.len(),
                ls == lines(bs[bi as int]),
                table_columns_spec(bs, bi as int) == Ok::<Seq<ColumnSchemaView>, Seq<char>>(c0),
            decreases ranges@.len() - li,
        {
            let (lo, hi) = ranges[li];
            assert(ls[li as int] == v@.subrange(lo as int, hi as int));
            let (a, b) = trim_range(&v, lo, hi);
            if a < b {
                match decl_of(&v, a, b) {
                    Some(((ka, kb), (ra, rb))) => {
                        match value_type_of(&v, ra, rb) {
                            Ok(t) => {
                                let ghost old_cols = cols@;
                                cols.push(ColumnSchema { name: string_of(&v, ka, kb), column_type: t });
                                assert(cols@.map_values(|c: ColumnSchema| c@) =~= old_cols.map_values(
                                    |c: ColumnSchema| c@,
                                ).push(cols@[old_cols.len() as int]@));
                            },
                            Err(e) => {
                                proof {
                                    lemma_table_lines_err(ls, li + 1, ls.len() as int, c0, e@);
                                    lemma_table_columns_err(bs, bi + 1, bs.len() as int, e@);
                                }
                                return Err(e);
                            },
                        }
                    },
                    None => {},
                }
            }
            li = li + 1;
        }
        bi = bi + 1;
    }
    if cols.len() == 0 {
        Ok(None)
    } else {
        Ok(Some(TableSchema { columns: cols }))
    }
}


// ── Grammar tokens ──

/// Tokens of `s[start..]` scanning from `i` at parenthesis depth `depth`:
/// spaces and tabs outside parentheses separate tokens.
pub open spec fn tokens_from(s: Seq<char>, i: int, start: int, depth: int) -> Seq<Seq<char>>
    decreases s.len() - i,
{
    if i < 0 || i >= s.len() {
        if 0 <= start < s.len() {
            seq![s.subrange(start, s.len() as int)]
        } else {
            seq![]
        }
    } else if (s[i] == ' ' || s[i] == '\t') && depth == 0 {
        (if start < i {
            seq![s.subrange(start, i)]
        } else {
            seq![]
        }) + tokens_from(s, i + 1, i + 1, depth)
    } else if s[i] == '(' {
        tokens_from(s, i + 1, start, depth + 1)
    } else if s[i] == ')' {
        tokens_from(s, i + 1, start, depth - 1)
    } else {
        tokens_from(s, i + 1, start, depth)
    }
}

/// The tokens of a production body.
pub open spec fn tokenize_spec(s: Seq<char>) -> Seq<Seq<char>> {
    tokens_from(s, 0, 0, 0)
}

fn tokens_in(v: &Vec<char>, lo: usize, hi: usize) -> (r: Vec<String>)
    requires
        lo <= hi <= v@.len(),
    ensures
        strings_view(r@) == tokenize_spec(v@.subrange(lo as int, hi as int)),
{
    let ghost s = v@.subrange(lo as int, hi as int);
    let mut r: Vec<String> = Vec::new();
    let mut i = lo;
    let mut start = lo;
    let mut opens: usize = 0;
    let mut closes: usize = 0;
    while i < hi
        invariant
            lo <= start <= i <= hi <= v@.len(),
            s == v@.subrange(lo as int, hi as int),
            opens + closes <= i - lo,
            strings_view(r@) + tokens_from(s, i - lo, start - lo, opens - closes) == tokenize_spec(s),
        decreases hi - i,
    {
        assert(s[i - lo] == v@[i as int]);
        let c = v[i];
        if (c == ' ' || c == '\t') && opens == closes {
            if start < i {
                let ghost old_r = strings_view(r@);
                r.push(string_of(v, start, i));
                assert(s.subrange(start - lo, i - lo) =~= v@.subrange(start as int, i as int));
                assert(strings_view(r@) =~= old_r.push(v@.subrange(start as int, i as int)));
                assert(strings_view(r@) + tokens_from(s, i + 1 - lo, i + 1 - lo, opens - closes) =~= old_r
                    + (seq![s.subrange(start - lo, i - lo)] + tokens_from(s, i + 1 - lo, i + 1 - lo, opens - closes)));
            } else {
                assert(seq![] + tokens_from(s, i + 1 - lo, i + 1 - lo, opens - closes) =~= tokens_from(
                    s,
                    i + 1 - lo,
                    i + 1 - lo,
                    opens - closes,
                ));
            }
            start = i + 1;
        } else if c == '(' {
            opens = opens + 1;
        } else if c == ')' {
            closes = closes + 1;
        }
        i = i + 1;
    }
    if start < hi {
        let ghost old_r = strings_view(r@);
        r.push(string_of(v, start, hi));
        assert(s.subrange(start - lo, s.len() as int) =~= v@.subrange(start as int, hi as int));
        assert(strings_view(r@) =~= old_r + seq![s.subrange(start - lo, s.len() as int)]);
    } else {
        assert(strings_view(r@) + Seq::<Seq<char>>::empty() =~= strings_view(r@));
    }
    r
}

/// Splits a production body into tokens at spaces and tabs outside parentheses,
/// so `H1("Hello World")` stays one token.
pub fn tokenize_grammar(body: &str) -> (r: Vec<String>)
    ensures
        strings_view(r@) == tokenize_spec(body@),
{
    let v = chars_of(body);
    assert(v@.subrange(0, v@.len() as int) =~= body@);
    tokens_in(&v, 0, v.len())
}

/// A trailing `+`, `*` or `?` read off as a quantity.
pub open spec fn split_quantifier_spec(s: Seq<char>) -> (Seq<char>, Quantity) {
    if s.len() > 0 && s.last() == '+' {
        (s.drop_last(), Quantity::OneOrMore)
    } else if s.len() > 0 && s.last() == '*' {
        (s.drop_last(), Quantity::ZeroOrMore)
    } else if s.len() > 0 && s.last() == '?' {
        (s.drop_last(), Quantity::Optional)
    } else {
        (s, Quantity::One)
    }
}

fn split_quantifier(v: &Vec<char>, lo: usize, hi: usize) -> (r: (usize, Quantity))
    requires
        lo <= hi <= v@.len(),
    ensures
        lo <= r.0 <= hi,
        (v@.subrange(lo as int, r.0 as int), r.1) == split_quantifier_spec(v@.subrange(lo as int, hi as int)),
{
    let ghost s = v@.subrange(lo as int, hi as int);
    if hi > lo {
        assert(s.last() == v@[hi - 1]);
        assert(s.drop_last() =~= v@.subrange(lo as int, hi - 1));
        let c = v[hi - 1];
        if c == '+' {
            return (hi - 1, Quantity::OneOrMore);
        } else if c == '*' {
            return (hi - 1, Quantity::ZeroOrMore);
        } else if c == '?' {
            return (hi - 1, Quantity::Optional);
        }
    }
    (hi, Quantity::One)
}

/// The text between the first two double quotes.
pub open spec fn quoted_arg(s: Seq<char>) -> Option<Seq<char>> {
    let a = char_end(s, '"', 0);
    let b = char_end(s, '"', a + 1);
    if a < s.len() && b < s.len() {
        Some(s.subrange(a + 1, b))
    } else {
        None
    }
}

fn quoted_arg_of(v: &Vec<char>, lo: usize, hi: usize) -> (r: Option<String>)
    requires
        lo <= hi <= v@.len(),
    ensures
        opt_str_view(r) == quoted_arg(v@.subrange(lo as int, hi as int)),
{
    let ghost s = v@.subrange(lo as int, hi as int);
    let a = char_end_in(v, lo, hi, '"');
    proof {
        crate::text::lemma_char_end_bounds(s, '"', 0);
    }
    if a == hi {
        return None;
    }
    let b = char_end_in(v, a + 1, hi, '"');
    proof {
        lemma_char_end_shift(s, '"', a + 1 - lo, lo as int, v@, hi as int);
    }
    if b == hi {
        return None;
    }
    assert(s.subrange(a + 1 - lo, b - lo) =~= v@.subrange(a + 1, b as int));
    Some(string_of(v, a + 1, b))
}

/// `char_end` scanning from an offset agrees with `char_end` on the window that starts there.
proof fn lemma_char_end_shift(s: Seq<char>, c: char, i: int, lo: int, v: Seq<char>, hi: int)
    requires
        0 <= lo <= hi <= v.len(),
        s == v.subrange(lo, hi),
        0 <= i <= s.len(),
    ensures
        char_end(s, c, i) == char_end(v.subrange(lo + i, hi), c, 0) + i,
{
    lemma_char_end_window(s, c, i, s.subrange(i, s.len() as int));
    assert(s.subrange(i, s.len() as int) =~= v.subrange(lo + i, hi));
}

proof fn lemma_char_end_window(w: Seq<char>, c: char, k: int, u: Seq<char>)
    requires
        0 <= k <= w.len(),
        u == w.subrange(k, w.len() as int),
    ensures
        char_end(w, c, k) == char_end(u, c, 0) + k,
    decreases w.len() - k,
{
    if k < w.len() {
        assert(u[0] == w[k]);
        if w[k] != c {
            lemma_char_end_window(w, c, k + 1, w.subrange(k + 1, w.len() as int));
            lemma_char_end_window(u, c, 1, u.subrange(1, u.len() as int));
            assert(u.subrange(1, u.len() as int) =~= w.subrange(k + 1, w.len() as int));
        }
    }
}


/// What a step of schema loading comes to: a value, an error message, or a
/// slice out of bounds (the input is outside what the loader handles).
pub ghost enum Outcome<T> {
    Done(T),
    Fail(Seq<char>),
    Panics,
}

/// The argument between the first `(` and the last `)`: `Done(None)` when either is
/// missing, `Panics` when the last `)` comes before the first `(`.
pub open spec fn paren_arg(s: Seq<char>) -> Outcome<Option<Seq<char>>> {
    let a = char_end(s, '(', 0);
    if a >= s.len() {
        Outcome::Done(None)
    } else {
        match rfind_char(s, ')') {
            None => Outcome::Done(None),
            Some(e) => if a + 1 > e {
                Outcome::Panics
            } else {
                Outcome::Done(Some(s.subrange(a + 1, e)))
            },
        }
    }
}

/// Window of the parenthesised argument; `Err(())` where the last `)` comes before the first `(`.
fn paren_arg_of(v: &Vec<char>, lo: usize, hi: usize) -> (r: Result<Option<(usize, usize)>, ()>)
    requires
        lo <= hi <= v@.len(),
    ensures
        match r {
            Ok(Some((a, b))) => lo <= a <= b <= hi && paren_arg(v@.subrange(lo as int, hi as int))
                == Outcome::Done(Some(v@.subrange(a as int, b as int))),
            Ok(None) => paren_arg(v@.subrange(lo as int, hi as int)) == Outcome::<Option<Seq<char>>>::Done(None),
            Err(_) => paren_arg(v@.subrange(lo as int, hi as int)) == Outcome::<Option<Seq<char>>>::Panics,
        },
{
    let ghost s = v@.subrange(lo as int, hi as int);
    let a = char_end_in(v, lo, hi, '(');
    if a == hi {
        return Ok(None);
    }
    match rfind_in(v, lo, hi, ')') {
        None => Ok(None),
        Some(e) => {
            if a - lo + 1 > e {
                Err(())
            } else {
                assert(s.subrange(a + 1 - lo, e as int) =~= v@.subrange(a + 1, lo + e));
                Ok(Some((a + 1, lo + e)))
            }
        },
    }
}

/// The meaning of a heading pattern such as `SNAKE_CASE` or `"Container"`.
pub open spec fn name_pattern_spec(s: Seq<char>) -> Outcome<NamePatternView> {
    if s == "SNAKE_CASE"@ {
        Outcome::Done(NamePatternView::SnakeCase)
    } else if s == "KEBAB_CASE"@ || s == "KEBAB-CASE"@ {
        Outcome::Done(NamePatternView::KebabCase)
    } else if s == "IDENT"@ || s == "IDENTIFIER"@ {
        Outcome::Done(NamePatternView::Ident)
    } else if s == "ANY"@ {
        Outcome::Done(NamePatternView::Any)
    } else if s.len() > 0 && s[0] == '"' && s.last() == '"' {
        if s.len() < 2 {
            Outcome::Panics
        } else {
            Outcome::Done(NamePatternView::Exact(s.subrange(1, s.len() - 1)))
        }
    } else {
        Outcome::Fail("unknown name pattern: "@ + s)
    }
}

pub open spec fn pattern_outcome(r: Result<NamePattern, Option<String>>) -> Outcome<NamePatternView> {
    match r {
        Ok(p) => Outcome::Done(p@),
        Err(Some(e)) => Outcome::Fail(e@),
        Err(None) => Outcome::Panics,
    }
}

/// `Err(None)` stands for a lone `"`, whose inside cannot be sliced.
fn name_pattern_of(v: &Vec<char>, lo: usize, hi: usize) -> (r: Result<NamePattern, Option<String>>)
    requires
        lo <= hi <= v@.len(),
    ensures
        pattern_outcome(r) == name_pattern_spec(v@.subrange(lo as int, hi as int)),
{
    let ghost s = v@.subrange(lo as int, hi as int);
    if is_literal(v, lo, hi, "SNAKE_CASE") {
        Ok(NamePattern::SnakeCase)
    } else if is_literal(v, lo, hi, "KEBAB_CASE") || is_literal(v, lo, hi, "KEBAB-CASE") {
        Ok(NamePattern::KebabCase)
    } else if is_literal(v, lo, hi, "IDENT") || is_literal(v, lo, hi, "IDENTIFIER") {
        Ok(NamePattern::Ident)
    } else if is_literal(v, lo, hi, "ANY") {
        Ok(NamePattern::Any)
    } else if hi > lo && v[lo] == '"' && v[hi - 1] == '"' {
        assert(s[0] == v@[lo as int] && s.last() == v@[hi - 1]);
        if hi - lo < 2 {
            Err(None)
        } else {
            assert(s.subrange(1, s.len() - 1) =~= v@.subrange(lo + 1, hi - 1));
            Ok(NamePattern::Exact(string_of(v, lo + 1, hi - 1)))
        }
    } else {
        proof {
            if s.len() > 0 {
                assert(s[0] == v@[lo as int] && s.last() == v@[hi - 1]);
            }
        }
        let mut msg = string_from("unknown name pattern: ");
        append_chars_range(&mut msg, v, lo, hi);
        Err(Some(msg))
    }
}


// ── Fenced blocks of a schema ──

pub open spec fn fence_open() -> Seq<char> {
    seq!['`', '`', '`']
}

/// Index of the first line at or after `j` that closes a fence, a line that is
/// exactly three backticks after trimming (or the line count).
pub open spec fn fence_close(ls: Seq<Seq<char>>, j: int) -> int
    decreases ls.len() - j,
{
    if j < 0 || j >= ls.len() {
        ls.len() as int
    } else if trim(ls[j]) == fence_open() {
        j
    } else {
        fence_close(ls, j + 1)
    }
}

pub proof fn lemma_fence_close_bounds(ls: Seq<Seq<char>>, j: int)
    requires
        0 <= j,
    ensures
        j <= fence_close(ls, j) || (j > ls.len() && fence_close(ls, j) == ls.len()),
        fence_close(ls, j) <= ls.len(),
    decreases ls.len() - j,
{
    if j < ls.len() && trim(ls[j]) != fence_open() {
        lemma_fence_close_bounds(ls, j + 1);
    }
}

/// The body of a fenced block: its lines joined by `\n`, where a line break is
/// only written once something has been written.
pub open spec fn block_content(ls: Seq<Seq<char>>) -> Seq<char>
    decreases ls.len(),
{
    if ls.len() == 0 {
        seq![]
    } else {
        let c = block_content(ls.drop_last());
        (if c.len() > 0 {
            c.push('\n')
        } else {
            c
        }) + ls.last()
    }
}

/// The tagged fenced blocks from line `i` on, as `(info string, body)` pairs.
/// Blocks without an info string are skipped.
pub open spec fn fenced_blocks(ls: Seq<Seq<char>>, i: int) -> Seq<(Seq<char>, Seq<char>)>
    decreases ls.len() + 1 - i,
{
    if i < 0 || i >= ls.len() {
        seq![]
    } else {
        let t = trim(ls[i]);
        if starts_with(t, fence_open()) {
            let info = trim(after(t, fence_open()));
            let j = fence_close(ls, i + 1);
            proof {
                lemma_fence_close_bounds(ls, i + 1);
            }
            if info.len() == 0 {
                fenced_blocks(ls, j + 1)
            } else {
                seq![(info, block_content(ls.subrange(i + 1, j)))] + fenced_blocks(ls, j + 1)
            }
        } else {
            fenced_blocks(ls, i + 1)
        }
    }
}

fn fenced_blocks_of(v: &Vec<char>) -> (r: Vec<(String, String)>)
    ensures
        r@.map_values(|b: (String, String)| (b.0@, b.1@)) == fenced_blocks(lines(v@), 0),
{
    let ranges = line_ranges(v);
    let ghost ls = lines(v@);
    let n = ranges.len();
    let mut r: Vec<(String, String)> = Vec::new();
    let mut i: usize = 0;
    assert(r@.map_values(|b: (String, String)| (b.0@, b.1@)) =~= Seq::<(Seq<char>, Seq<char>)>::empty());
    while i < n
        invariant
            n == ranges@.len(),
            n == ls.len(),
            i <= n,
            forall|k: int| 0 <= k < ranges@.len() ==> (#[trigger] ranges@[k]).0 <= ranges@[k].1 <= v@.len(),
            ranges@.map_values(|q: (usize, usize)| v@.subrange(q.0 as int, q.1 as int)) == ls,
            r@.map_values(|b: (String, String)| (b.0@, b.1@)) + fenced_blocks(ls, i as int) == fenced_blocks(ls, 0),
        decreases n - i,
    {
        let (lo, hi) = ranges[i];
        assert(ls[i as int] == v@.subrange(lo as int, hi as int));
        let (a, b) = trim_range(v, lo, hi);
        let ghost t = v@.subrange(a as int, b as int);
        let tick: &[char] = &['`', '`', '`'];
        assert(tick@ =~= fence_open());
        if starts_with_at(v, a, b, tick) {
            assert(after(t, fence_open()) =~= v@.subrange(a + 3, b as int));
            let (ia, ib) = trim_range(v, a + 3, b);
            let mut j = i + 1;
            let mut content = String::new();
            assert(ls.subrange(i + 1, j as int) =~= Seq::<Seq<char>>::empty());
            while j < n
                invariant
                    i < j <= n,
                    n == ranges@.len(),
                    n == ls.len(),
                    tick@ == fence_open(),
                    forall|k: int| 0 <= k < ranges@.len() ==> (#[trigger] ranges@[k]).0 <= ranges@[k].1 <= v@.len(),
                    ranges@.map_values(|q: (usize, usize)| v@.subrange(q.0 as int, q.1 as int)) == ls,
                    fence_close(ls, i + 1) == fence_close(ls, j as int),
                    content@ == block_content(ls.subrange(i + 1, j as int)),
                ensures
                    i < j <= n,
                    fence_close(ls, i + 1) == j,
                    content@ == block_content(ls.subrange(i + 1, j as int)),
                    forall|k: int| 0 <= k < ranges@.len() ==> (#[trigger] ranges@[k]).0 <= ranges@[k].1 <= v@.len(),
                    ranges@.map_values(|q: (usize, usize)| v@.subrange(q.0 as int, q.1 as int)) == ls,
                decreases n - j,
            {
                let (lo2, hi2) = ranges[j];
                assert(ls[j as int] == v@.subrange(lo2 as int, hi2 as int));
                let (a2, b2) = trim_range(v, lo2, hi2);
                let ghost t2 = v@.subrange(a2 as int, b2 as int);
                if b2 - a2 == 3 && starts_with_at(v, a2, b2, tick) {
                    assert(t2 =~= t2.subrange(0, 3));
                    break;
                }
                proof {
                    if t2 == fence_open() {
                        assert(t2.subrange(0, 3) =~= t2);
                        assert(starts_with(t2, tick@));
                    }
                }
                let ghost prev = ls.subrange(i + 1, j as int);
                assert(ls.subrange(i + 1, j + 1).drop_last() =~= prev);
                if !content.as_str().is_empty() {
                    push_char(&mut content, '\n');
                }
                append_chars_range(&mut content, v, lo2, hi2);
                j = j + 1;
            }
            let ghost r0 = r@.map_values(|b: (String, String)| (b.0@, b.1@));
            if ib > ia {
                let tag = string_of(v, ia, ib);
                let ghost old_r = r@.map_values(|b: (String, String)| (b.0@, b.1@));
                r.push((tag, content));
                assert(r@.map_values(|b: (String, String)| (b.0@, b.1@)) =~= old_r.push(
                    (v@.subrange(ia as int, ib as int), block_content(ls.subrange(i + 1, j as int))),
                ));
            } else {
                assert(r@.map_values(|b: (String, String)| (b.0@, b.1@)) =~= r0 + Seq::<(Seq<char>, Seq<char>)>::empty());
            }
            let ghost i0 = i as int;
            let ghost info = v@.subrange(ia as int, ib as int);
            let ghost here: Seq<(Seq<char>, Seq<char>)> = if ib > ia {
                seq![(info, block_content(ls.subrange(i0 + 1, j as int)))]
            } else {
                seq![]
            };
            assert(trim(ls[i0]) == t);
            assert(trim(after(t, fence_open())) == info);
            assert(fenced_blocks(ls, i0) == here + fenced_blocks(ls, j + 1));
            assert(r@.map_values(|b: (String, String)| (b.0@, b.1@)) == r0 + here);
            if j < n {
                i = j + 1;
            } else {
                i = n;
            }
            assert(fenced_blocks(ls, i as int) == fenced_blocks(ls, j + 1));
            assert(r0 + here + fenced_blocks(ls, j + 1) =~= r0 + (here + fenced_blocks(ls, j + 1)));
        } else {
            i = i + 1;
        }
    }
    assert(r@.map_values(|b: (String, String)| (b.0@, b.1@)) + Seq::<(Seq<char>, Seq<char>)>::empty()
        =~= r@.map_values(|b: (String, String)| (b.0@, b.1@)));
    r
}


// ── Sorting blocks by their tag ──

/// A list of strings, viewed as a sequence of character sequences.
struct StrList {
    items: Vec<String>,
}

impl View for StrList {
    type V = Seq<Seq<char>>;

    closed spec fn view(&self) -> Seq<Seq<char>> {
        strings_view(self.items@)
    }
}

fn copy_strings(v: &Vec<String>) -> (r: Vec<String>)
    ensures
        strings_view(r@) == strings_view(v@),
{
    let mut r: Vec<String> = Vec::new();
    let mut i: usize = 0;
    while i < v.len()
        invariant
            i <= v@.len(),
            strings_view(r@) == strings_view(v@).take(i as int),
        decreases v@.len() - i,
    {
        let ghost old_r = strings_view(r@);
        r.push(v[i].clone());
        assert(strings_view(r@) =~= old_r.push(v@[i as int]@));
        assert(strings_view(v@).take(i + 1) =~= strings_view(v@).take(i as int).push(v@[i as int]@));
        i = i + 1;
    }
    assert(strings_view(v@).take(v@.len() as int) =~= strings_view(v@));
    r
}

pub type BlockMap = Seq<(Seq<char>, Seq<Seq<char>>)>;

/// `entry(k).or_default().push(b)` on a map of block lists.
pub open spec fn smap_append(m: BlockMap, k: Seq<char>, b: Seq<char>) -> BlockMap {
    smap_insert(
        m,
        k,
        match smap_get(m, k) {
            Some(l) => l.push(b),
            None => seq![b],
        },
    )
}

fn push_block(m: &mut StrMap<StrList>, key: String, body: String)
    ensures
        final(m)@ == smap_append(old(m)@, key@, body@),
{
    let mut l = match m.get(key.as_str()) {
        Some(l) => StrList { items: copy_strings(&l.items) },
        None => StrList { items: Vec::new() },
    };
    let ghost before = l@;
    l.items.push(body);
    assert(l@ =~= before.push(body@));
    proof {
        if smap_get(old(m)@, key@) is None {
            assert(before =~= Seq::<Seq<char>>::empty());
            assert(l@ =~= seq![body@]);
        }
    }
    m.insert(key, l);
}

/// The fenced blocks of a schema, sorted by what their tag declares.
pub ghost struct BlocksView {
    pub grammar: Seq<Seq<char>>,
    pub scoped_types: BlockMap,
    pub types: Seq<Seq<char>>,
    pub scoped_tables: BlockMap,
    pub table: Seq<Seq<char>>,
}

pub open spec fn types_prefix() -> Seq<char> {
    seq!['t', 'y', 'p', 'e', 's', ':']
}

pub open spec fn table_prefix() -> Seq<char> {
    seq!['t', 'a', 'b', 'l', 'e', ':']
}

/// Files one tagged block: `grammar` (or `bnf`), `types:production`, `types`,
/// `table:production`, `table`; any other tag is ignored.
pub open spec fn classify_block(c: BlocksView, tag: Seq<char>, body: Seq<char>) -> BlocksView {
    if tag == "grammar"@ || tag == "bnf"@ {
        BlocksView { grammar: c.grammar.push(body), ..c }
    } else if starts_with(tag, types_prefix()) {
        BlocksView { scoped_types: smap_append(c.scoped_types, trim(after(tag, types_prefix())), body), ..c }
    } else if tag == "types"@ {
        BlocksView { types: c.types.push(body), ..c }
    } else if starts_with(tag, table_prefix()) {
        BlocksView { scoped_tables: smap_append(c.scoped_tables, trim(after(tag, table_prefix())), body), ..c }
    } else if tag == "table"@ {
        BlocksView { table: c.table.push(body), ..c }
    } else {
        c
    }
}

pub open spec fn classify(bs: Seq<(Seq<char>, Seq<char>)>, n: int) -> BlocksView
    decreases n,
{
    if n <= 0 || n > bs.len() {
        BlocksView { grammar: seq![], scoped_types: seq![], types: seq![], scoped_tables: seq![], table: seq![] }
    } else {
        classify_block(classify(bs, n - 1), bs[n - 1].0, bs[n - 1].1)
    }
}

struct Blocks {
    grammar: Vec<String>,
    scoped_types: StrMap<StrList>,
    types: Vec<String>,
    scoped_tables: StrMap<StrList>,
    table: Vec<String>,
}

impl View for Blocks {
    type V = BlocksView;

    closed spec fn view(&self) -> BlocksView {
        BlocksView {
            grammar: strings_view(self.grammar@),
            scoped_types: self.scoped_types@,
            types: strings_view(self.types@),
            scoped_tables: self.scoped_tables@,
            table: strings_view(self.table@),
        }
    }
}

fn push_string(v: &mut Vec<String>, s: String)
    ensures
        strings_view(final(v)@) == strings_view(old(v)@).push(s@),
{
    let ghost before = strings_view(v@);
    v.push(s);
    assert(strings_view(v@) =~= before.push(s@));
}

fn classify_blocks(bs: Vec<(String, String)>) -> (r: Blocks)
    ensures
        r@ == classify(
            bs@.map_values(|b: (String, String)| (b.0@, b.1@)),
            bs@.len() as int,
        ),
{
    let ghost bv = bs@.map_values(|b: (String, String)| (b.0@, b.1@));
    let mut r = Blocks {
        grammar: Vec::new(),
        scoped_types: StrMap::new(),
        types: Vec::new(),
        scoped_tables: StrMap::new(),
        table: Vec::new(),
    };
    assert(strings_view(r.grammar@) =~= Seq::<Seq<char>>::empty());
    assert(strings_view(r.types@) =~= Seq::<Seq<char>>::empty());
    assert(strings_view(r.table@) =~= Seq::<Seq<char>>::empty());
    assert(r@ == classify(bv, 0));
    let mut i: usize = 0;
    while i < bs.len()
        invariant
            i <= bs@.len(),
            bv == bs@.map_values(|b: (String, String)| (b.0@, b.1@)),
            r@ == classify(bv, i as int),
        decreases bs@.len() - i,
    {
        let tag = chars_of(bs[i].0.as_str());
        let body = bs[i].1.clone();
        let ghost t = tag@;
        assert(bv[i as int] == (t, body@));
        let n = tag.len();
        let types_p: &[char] = &['t', 'y', 'p', 'e', 's', ':'];
        let table_p: &[char] = &['t', 'a', 'b', 'l', 'e', ':'];
        assert(types_p@ =~= types_prefix());
        assert(table_p@ =~= table_prefix());
        assert(tag@.subrange(0, n as int) =~= t);
        if is_literal(&tag, 0, n, "grammar") || is_literal(&tag, 0, n, "bnf") {
            push_string(&mut r.grammar, body);
        } else if starts_with_at(&tag, 0, n, types_p) {
            let (ka, kb) = trim_range(&tag, 6, n);
            assert(after(t, types_prefix()) =~= tag@.subrange(6, n as int));
            push_block(&mut r.scoped_types, string_of(&tag, ka, kb), body);
        } else if is_literal(&tag, 0, n, "types") {
            push_string(&mut r.types, body);
        } else if starts_with_at(&tag, 0, n, table_p) {
            let (ka, kb) = trim_range(&tag, 6, n);
            assert(after(t, table_prefix()) =~= tag@.subrange(6, n as int));
            push_block(&mut r.scoped_tables, string_of(&tag, ka, kb), body);
        } else if is_literal(&tag, 0, n, "table") {
            push_string(&mut r.table, body);
        }
        i = i + 1;
    }
    r
}


// ── Grammar productions ──

pub open spec fn defines() -> Seq<char> {
    seq![':', ':', '=']
}

/// `name ::= body` on one line of a grammar block.
pub open spec fn production_line(l: Seq<char>) -> Option<(Seq<char>, Seq<Seq<char>>)> {
    let t = trim(l);
    match find(t, defines()) {
        Some(k) => Some((trim(t.subrange(0, k)), tokenize_spec(trim(t.subrange(k + 3, t.len() as int))))),
        None => None,
    }
}

pub type Productions = Seq<(Seq<char>, Seq<Seq<char>>)>;

pub open spec fn productions_in(ls: Seq<Seq<char>>, n: int) -> Productions
    decreases n,
{
    if n <= 0 || n > ls.len() {
        seq![]
    } else {
        productions_in(ls, n - 1) + match production_line(ls[n - 1]) {
            Some(p) => seq![p],
            None => seq![],
        }
    }
}

/// The productions of the grammar blocks, in order of appearance.
pub open spec fn productions_of(bs: Seq<Seq<char>>, n: int) -> Productions
    decreases n,
{
    if n <= 0 || n > bs.len() {
        seq![]
    } else {
        productions_of(bs, n - 1) + productions_in(lines(bs[n - 1]), lines(bs[n - 1]).len() as int)
    }
}

/// Productions by name; a later definition replaces an earlier one.
pub open spec fn production_map(ps: Productions, n: int) -> BlockMap
    decreases n,
{
    if n <= 0 || n > ps.len() {
        seq![]
    } else {
        smap_insert(production_map(ps, n - 1), ps[n - 1].0, ps[n - 1].1)
    }
}

/// The tokens the document starts from: those of `document`, else of the first production.
pub open spec fn root_tokens(ps: Productions) -> Seq<Seq<char>> {
    match smap_get(production_map(ps, ps.len() as int), "document"@) {
        Some(t) => t,
        None => if ps.len() > 0 {
            ps[0].1
        } else {
            seq![]
        },
    }
}

pub open spec fn productions_view(v: Seq<(String, Vec<String>)>) -> Productions {
    v.map_values(|p: (String, Vec<String>)| (p.0@, strings_view(p.1@)))
}

fn productions_from(blocks: &Vec<String>) -> (r: Vec<(String, Vec<String>)>)
    ensures
        productions_view(r@) == productions_of(strings_view(blocks@), blocks@.len() as int),
{
    let ghost bs = strings_view(blocks@);
    let mut r: Vec<(String, Vec<String>)> = Vec::new();
    assert(productions_view(r@) =~= productions_of(bs, 0));
    let mut bi: usize = 0;
    let defs: &[char] = &[':', ':', '='];
    assert(defs@ =~= defines());
    while bi < blocks.len()
        invariant
            bi <= blocks@.len(),
            bs == strings_view(blocks@),
            defs@ == defines(),
            productions_view(r@) == productions_of(bs, bi as int),
        decreases blocks@.len() - bi,
    {
        let v = chars_of(blocks[bi].as_str());
        assert(v@ == bs[bi as int]);
        let ranges = line_ranges(&v);
        let ghost ls = lines(v@);
        let ghost r0 = productions_view(r@);
        let mut li: usize = 0;
        assert(r0 + productions_in(ls, 0) =~= r0);
        while li < ranges.len()
            invariant
                li <= ranges@.len(),
                defs@ == defines(),
                forall|k: int| 0 <= k < ranges@.len() ==> (#[trigger] ranges@[k]).0 <= ranges@[k].1 <= v@.len(),
                ranges@.map_values(|q: (usize, usize)| v@.subrange(q.0 as int, q.1 as int)) == ls,
                productions_view(r@) == r0 + productions_in(ls, li as int),
            decreases ranges@.len() - li,
        {
            let (lo, hi) = ranges[li];
            assert(ls[li as int] == v@.subrange(lo as int, hi as int));
            let (a, b) = trim_range(&v, lo, hi);
            let ghost t = v@.subrange(a as int, b as int);
            let ghost before = productions_view(r@);
            match find_in(&v, a, b, defs) {
                Some(k) => {
                    let (na, nb) = trim_range(&v, a, a + k);
                    let (ba, bb) = trim_range(&v, a + k + 3, b);
                    assert(t.subrange(0, k as int) =~= v@.subrange(a as int, a + k));
                    assert(t.subrange(k + 3, t.len() as int) =~= v@.subrange(a + k + 3, b as int));
                    let name = string_of(&v, na, nb);
                    let toks = tokens_in(&v, ba, bb);
                    r.push((name, toks));
                    assert(productions_view(r@) =~= before + seq![production_line(ls[li as int])->0]);
                },
                None => {
                    assert(before + Seq::<(Seq<char>, Seq<Seq<char>>)>::empty() =~= before);
                },
            }
            assert(r0 + productions_in(ls, li + 1) =~= r0 + productions_in(ls, li as int) + match production_line(ls[li as int]) {
                Some(p) => seq![p],
                None => Seq::<(Seq<char>, Seq<Seq<char>>)>::empty(),
            });
            li = li + 1;
        }
        bi = bi + 1;
    }
    r
}

fn production_map_of(ps: &Vec<(String, Vec<String>)>) -> (m: StrMap<StrList>)
    ensures
        m@ == production_map(productions_view(ps@), ps@.len() as int),
{
    let ghost pv = productions_view(ps@);
    let mut m: StrMap<StrList> = StrMap::new();
    let mut i: usize = 0;
    while i < ps.len()
        invariant
            i <= ps@.len(),
            pv == productions_view(ps@),
            m@ == production_map(pv, i as int),
        decreases ps@.len() - i,
    {
        let l = StrList { items: copy_strings(&ps[i].1) };
        m.insert(ps[i].0.clone(), l);
        i = i + 1;
    }
    m
}

fn root_tokens_of(ps: &Vec<(String, Vec<String>)>, m: &StrMap<StrList>) -> (r: Vec<String>)
    requires
        m@ == production_map(productions_view(ps@), ps@.len() as int),
    ensures
        strings_view(r@) == root_tokens(productions_view(ps@)),
{
    match m.get("document") {
        Some(l) => {
            proof {
                reveal_strlit("document");
            }
            copy_strings(&l.items)
        },
        None => {
            if ps.len() > 0 {
                copy_strings(&ps[0].1)
            } else {
                let r: Vec<String> = Vec::new();
                assert(strings_view(r@) =~= Seq::<Seq<char>>::empty());
                r
            }
        },
    }
}


// ── Scoped declarations ──

pub type ScopedProps = Seq<(Seq<char>, PropertyMapView)>;

pub type ScopedTables = Seq<(Seq<char>, TableSchemaView)>;

/// The property maps of the `types:production` blocks, production by production in key order.
pub open spec fn scoped_props_spec(st: BlockMap, n: int) -> Result<ScopedProps, Seq<char>>
    decreases n,
{
    if n <= 0 || n > st.len() {
        Ok(seq![])
    } else {
        match scoped_props_spec(st, n - 1) {
            Ok(m) => match types_blocks_spec(st[n - 1].1, st[n - 1].1.len() as int) {
                Ok(p) => Ok(smap_insert(m, st[n - 1].0, p)),
                Err(e) => Err(e),
            },
            Err(e) => Err(e),
        }
    }
}

/// The tables of the `table:production` blocks; a production whose blocks declare no
/// column gets no entry.
pub open spec fn scoped_tables_spec(st: BlockMap, n: int) -> Result<ScopedTables, Seq<char>>
    decreases n,
{
    if n <= 0 || n > st.len() {
        Ok(seq![])
    } else {
        match scoped_tables_spec(st, n - 1) {
            Ok(m) => match table_blocks_spec(st[n - 1].1) {
                Ok(Some(t)) => Ok(smap_insert(m, st[n - 1].0, t)),
                Ok(None) => Ok(m),
                Err(e) => Err(e),
            },
            Err(e) => Err(e),
        }
    }
}

proof fn lemma_scoped_props_err(st: BlockMap, n: int, n2: int, e: Seq<char>)
    requires
        0 <= n <= n2 <= st.len(),
        scoped_props_spec(st, n) == Err::<ScopedProps, Seq<char>>(e),
    ensures
        scoped_props_spec(st, n2) == Err::<ScopedProps, Seq<char>>(e),
    decreases n2 - n,
{
    if n2 > n {
        lemma_scoped_props_err(st, n, n2 - 1, e);
    }
}

proof fn lemma_scoped_tables_err(st: BlockMap, n: int, n2: int, e: Seq<char>)
    requires
        0 <= n <= n2 <= st.len(),
        scoped_tables_spec(st, n) == Err::<ScopedTables, Seq<char>>(e),
    ensures
        scoped_tables_spec(st, n2) == Err::<ScopedTables, Seq<char>>(e),
    decreases n2 - n,
{
    if n2 > n {
        lemma_scoped_tables_err(st, n, n2 - 1, e);
    }
}

fn scoped_props_of(st: &StrMap<StrList>) -> (r: Result<StrMap<PropertyMap>, String>)
    ensures
        match r {
            Ok(m) => scoped_props_spec(st@, st@.len() as int) == Ok::<ScopedProps, Seq<char>>(m@),
            Err(e) => scoped_props_spec(st@, st@.len() as int) == Err::<ScopedProps, Seq<char>>(e@),
        },
{
    let mut m: StrMap<PropertyMap> = StrMap::new();
    let mut i: usize = 0;
    while i < st.len()
        invariant
            i <= st@.len(),
            scoped_props_spec(st@, i as int) == Ok::<ScopedProps, Seq<char>>(m@),
        decreases st@.len() - i,
    {
        let l = st.value_at(i);
        match types_from_blocks(&l.items) {
            Ok(p) => {
                m.insert(string_from(st.key_at(i)), p);
            },
            Err(e) => {
                proof {
                    lemma_scoped_props_err(st@, i + 1, st@.len() as int, e@);
                }
                return Err(e);
            },
        }
        i = i + 1;
    }
    Ok(m)
}

fn scoped_tables_of(st: &StrMap<StrList>) -> (r: Result<StrMap<TableSchema>, String>)
    ensures
        match r {
            Ok(m) => scoped_tables_spec(st@, st@.len() as int) == Ok::<ScopedTables, Seq<char>>(m@),
            Err(e) => scoped_tables_spec(st@, st@.len() as int) == Err::<ScopedTables, Seq<char>>(e@),
        },
{
    let mut m: StrMap<TableSchema> = StrMap::new();
    let mut i: usize = 0;
    while i < st.len()
        invariant
            i <= st@.len(),
            scoped_tables_spec(st@, i as int) == Ok::<ScopedTables, Seq<char>>(m@),
        decreases st@.len() - i,
    {
        let l = st.value_at(i);
        match table_from_blocks(&l.items) {
            Ok(Some(t)) => {
                m.insert(string_from(st.key_at(i)), t);
            },
            Ok(None) => {},
            Err(e) => {
                proof {
                    lemma_scoped_tables_err(st@, i + 1, st@.len() as int, e@);
                }
                return Err(e);
            },
        }
        i = i + 1;
    }
    Ok(m)
}


// ── Resolving the grammar into a tree ──

/// The H1 nodes built so far, and the sections that stand before any H1.
pub ghost struct Tree {
    pub h1s: Seq<H1SchemaView>,
    pub secs: Seq<SectionSchemaView>,
}

/// What resolution reads: productions by name, and the scoped declarations.
pub ghost struct Env {
    pub prods: BlockMap,
    pub props: ScopedProps,
    pub tables: ScopedTables,
}

/// A change made to the section that built-in tokens and quantifiers apply to.
#[derive(Clone, Copy)]
pub enum SectionEdit {
    Prose,
    Property,
    Table,
    Quantity(Quantity),
}

pub open spec fn scoped_get<T>(m: Seq<(Seq<char>, T)>, cur: Option<Seq<char>>) -> Option<T> {
    match cur {
        Some(p) => smap_get(m, p),
        None => None,
    }
}

pub open spec fn new_h1(env: Env, cur: Option<Seq<char>>, text: Option<Seq<char>>, q: Quantity) -> H1SchemaView {
    H1SchemaView {
        production_name: cur,
        text,
        quantity: q,
        expects_properties: false,
        properties: scoped_get(env.props, cur),
        children: seq![],
    }
}

pub open spec fn new_section(
    env: Env,
    cur: Option<Seq<char>>,
    level: u8,
    p: NamePatternView,
    q: Quantity,
) -> SectionSchemaView {
    SectionSchemaView {
        production_name: cur,
        level,
        name_pattern: p,
        quantity: q,
        expects_prose: false,
        expects_properties: false,
        expects_table: false,
        properties: scoped_get(env.props, cur),
        table: scoped_get(env.tables, cur),
        children: seq![],
    }
}

pub open spec fn add_child(s: SectionSchemaView, c: SectionSchemaView) -> SectionSchemaView {
    SectionSchemaView { children: s.children.push(c), ..s }
}

/// Where a new section goes: an H3 under the current H2 (the last H2 of the last
/// H1, or, before any H1, the last root section); an H2 under the last H1;
/// otherwise among the root sections.
pub open spec fn place_section(t: Tree, sec: SectionSchemaView, level: u8) -> Tree {
    if level == 3 {
        if t.h1s.len() > 0 {
            if t.h1s.last().children.len() > 0 {
                let h = t.h1s.last();
                Tree {
                    h1s: t.h1s.update(
                        t.h1s.len() - 1,
                        H1SchemaView {
                            children: h.children.update(h.children.len() - 1, add_child(h.children.last(), sec)),
                            ..h
                        },
                    ),
                    ..t
                }
            } else {
                Tree { secs: t.secs.push(sec), ..t }
            }
        } else if t.secs.len() > 0 {
            Tree { secs: t.secs.update(t.secs.len() - 1, add_child(t.secs.last(), sec)), ..t }
        } else {
            Tree { secs: t.secs.push(sec), ..t }
        }
    } else if t.h1s.len() > 0 {
        let h = t.h1s.last();
        Tree { h1s: t.h1s.update(t.h1s.len() - 1, H1SchemaView { children: h.children.push(sec), ..h }), ..t }
    } else {
        Tree { secs: t.secs.push(sec), ..t }
    }
}

pub open spec fn edit_section(s: SectionSchemaView, e: SectionEdit) -> SectionSchemaView {
    match e {
        SectionEdit::Prose => SectionSchemaView { expects_prose: true, ..s },
        SectionEdit::Property => SectionSchemaView { expects_properties: true, ..s },
        SectionEdit::Table => SectionSchemaView { expects_table: true, ..s },
        SectionEdit::Quantity(q) => SectionSchemaView { quantity: q, ..s },
    }
}

/// The edit lands on the last child of `s` where it has one, else on `s`.
pub open spec fn edit_deepest(s: SectionSchemaView, e: SectionEdit) -> SectionSchemaView {
    if s.children.len() > 0 {
        SectionSchemaView {
            children: s.children.update(s.children.len() - 1, edit_section(s.children.last(), e)),
            ..s
        }
    } else {
        edit_section(s, e)
    }
}

/// Applies `e` to the last section in scope: the deepest last section of the last H1,
/// else of the root sections. `None` when there is no section.
pub open spec fn edit_last_section(t: Tree, e: SectionEdit) -> Option<Tree> {
    if t.h1s.len() > 0 && t.h1s.last().children.len() > 0 {
        let h = t.h1s.last();
        Some(
            Tree {
                h1s: t.h1s.update(
                    t.h1s.len() - 1,
                    H1SchemaView {
                        children: h.children.update(h.children.len() - 1, edit_deepest(h.children.last(), e)),
                        ..h
                    },
                ),
                ..t
            },
        )
    } else if t.secs.len() > 0 {
        Some(Tree { secs: t.secs.update(t.secs.len() - 1, edit_deepest(t.secs.last(), e)), ..t })
    } else {
        None
    }
}

/// `prose`, `property` and `table` mark the last section in scope; `property` with no
/// section marks the last H1.
pub open spec fn builtin_token(t: Tree, base: Seq<char>) -> Tree {
    let e = if base == "prose"@ {
        SectionEdit::Prose
    } else if base == "property"@ {
        SectionEdit::Property
    } else {
        SectionEdit::Table
    };
    match edit_last_section(t, e) {
        Some(t2) => t2,
        None => if base == "property"@ && t.h1s.len() > 0 {
            Tree { h1s: t.h1s.update(t.h1s.len() - 1, H1SchemaView { expects_properties: true, ..t.h1s.last() }), ..t }
        } else {
            t
        },
    }
}

/// How many sections the last H1 of `t` holds (0 without an H1).
pub open spec fn kids_of(t: Tree) -> nat {
    if t.h1s.len() > 0 {
        t.h1s.last().children.len()
    } else {
        0
    }
}

/// A quantifier on a production reference goes to the outermost thing the
/// reference created: an H1, else a section of the last H1, else a root section,
/// else (it created no H1 or H2) the last section in scope.
pub open spec fn apply_quantity(before: Tree, t: Tree, q: Quantity) -> Tree {
    if q == Quantity::One {
        t
    } else if t.h1s.len() > before.h1s.len() {
        Tree { h1s: t.h1s.update(t.h1s.len() - 1, H1SchemaView { quantity: q, ..t.h1s.last() }), ..t }
    } else if t.h1s.len() > 0 && t.h1s.len() == before.h1s.len() && kids_of(t) > kids_of(before) {
        let h = t.h1s.last();
        Tree {
            h1s: t.h1s.update(
                t.h1s.len() - 1,
                H1SchemaView {
                    children: h.children.update(
                        h.children.len() - 1,
                        edit_section(h.children.last(), SectionEdit::Quantity(q)),
                    ),
                    ..h
                },
            ),
            ..t
        }
    } else if t.secs.len() > before.secs.len() {
        Tree { secs: t.secs.update(t.secs.len() - 1, edit_section(t.secs.last(), SectionEdit::Quantity(q))), ..t }
    } else {
        match edit_last_section(t, SectionEdit::Quantity(q)) {
            Some(t2) => t2,
            None => t,
        }
    }
}

/// Number of productions not yet on the path of references being expanded.
pub open spec fn unvisited(ks: BlockMap, visited: Seq<Seq<char>>) -> nat
    decreases ks.len(),
{
    if ks.len() == 0 {
        0
    } else {
        unvisited(ks.drop_last(), visited) + if visited.contains(ks.last().0) {
            0nat
        } else {
            1nat
        }
    }
}

pub proof fn lemma_unvisited_push(ks: BlockMap, visited: Seq<Seq<char>>, b: Seq<char>, i: int)
    requires
        0 <= i < ks.len(),
        ks[i].0 == b,
        !visited.contains(b),
    ensures
        unvisited(ks, visited.push(b)) < unvisited(ks, visited),
    decreases ks.len(),
{
    let w = visited.push(b);
    assert(w.contains(b)) by {
        assert(w[visited.len() as int] == b);
    }
    let k = ks.last().0;
    if visited.contains(k) {
        let j = choose|j: int| 0 <= j < visited.len() && visited[j] == k;
        assert(w[j] == k);
    }
    if i == ks.len() - 1 {
        lemma_unvisited_mono(ks.drop_last(), visited, b);
    } else {
        assert(ks.drop_last()[i] == ks[i]);
        lemma_unvisited_push(ks.drop_last(), visited, b, i);
    }
}

pub proof fn lemma_unvisited_mono(ks: BlockMap, visited: Seq<Seq<char>>, b: Seq<char>)
    ensures
        unvisited(ks, visited.push(b)) <= unvisited(ks, visited),
    decreases ks.len(),
{
    if ks.len() > 0 {
        let w = visited.push(b);
        let k = ks.last().0;
        if visited.contains(k) {
            let j = choose|j: int| 0 <= j < visited.len() && visited[j] == k;
            assert(w[j] == k);
        }
        lemma_unvisited_mono(ks.drop_last(), visited, b);
    }
}

pub proof fn lemma_smap_index_found<T>(m: Seq<(Seq<char>, T)>, k: Seq<char>, i: int)
    requires
        smap_index(m, k, i) is Some,
    ensures
        0 <= smap_index(m, k, i)->0 < m.len(),
        m[smap_index(m, k, i)->0].0 == k,
    decreases m.len() - i,
{
    if 0 <= i < m.len() && m[i].0 != k {
        lemma_smap_index_found(m, k, i + 1);
    }
}

pub open spec fn h2_mark() -> Seq<char> {
    seq!['H', '2']
}

pub open spec fn h3_mark() -> Seq<char> {
    seq!['H', '3']
}

pub open spec fn h1_mark() -> Seq<char> {
    seq!['H', '1']
}

/// Resolution of the first `n` tokens of `toks`, expanded inside production `cur`,
/// with the references in `visited` being expanded, on top of tree `t`.
pub open spec fn resolve_seq(
    env: Env,
    toks: Seq<Seq<char>>,
    n: int,
    cur: Option<Seq<char>>,
    visited: Seq<Seq<char>>,
    t: Tree,
) -> Outcome<Tree>
    decreases unvisited(env.prods, visited), n,
{
    if n <= 0 || n > toks.len() {
        Outcome::Done(t)
    } else {
        match resolve_seq(env, toks, n - 1, cur, visited, t) {
            Outcome::Done(t1) => {
                let s = toks[n - 1];
                let (base, q) = split_quantifier_spec(s);
                if starts_with(s, h1_mark()) {
                    Outcome::Done(Tree { h1s: t1.h1s.push(new_h1(env, cur, quoted_arg(base), q)), ..t1 })
                } else if starts_with(s, h2_mark()) || starts_with(s, h3_mark()) {
                    let level: u8 = if starts_with(s, h2_mark()) {
                        2
                    } else {
                        3
                    };
                    match paren_arg(base) {
                        Outcome::Done(arg) => {
                            let pat = match arg {
                                Some(x) => x,
                                None => "ANY"@,
                            };
                            match name_pattern_spec(pat) {
                                Outcome::Done(p) => Outcome::Done(
                                    place_section(t1, new_section(env, cur, level, p, q), level),
                                ),
                                Outcome::Fail(e) => Outcome::Fail(e),
                                Outcome::Panics => Outcome::Panics,
                            }
                        },
                        Outcome::Fail(e) => Outcome::Fail(e),
                        Outcome::Panics => Outcome::Panics,
                    }
                } else if base == "prose"@ || base == "property"@ || base == "table"@ {
                    Outcome::Done(builtin_token(t1, base))
                } else {
                    match smap_index(env.prods, base, 0) {
                        Some(i) => if visited.contains(base) {
                            Outcome::Fail("circular reference in grammar: "@ + base)
                        } else {
                            proof {
                                lemma_smap_index_found(env.prods, base, 0);
                                lemma_unvisited_push(env.prods, visited, base, i);
                            }
                            let body = env.prods[i].1;
                            match resolve_seq(env, body, body.len() as int, Some(base), visited.push(base), t1) {
                                Outcome::Done(t2) => Outcome::Done(apply_quantity(t1, t2, q)),
                                Outcome::Fail(e) => Outcome::Fail(e),
                                Outcome::Panics => Outcome::Panics,
                            }
                        },
                        None => Outcome::Done(t1),
                    }
                }
            },
            Outcome::Fail(e) => Outcome::Fail(e),
            Outcome::Panics => Outcome::Panics,
        }
    }
}


// ── Copies ──

impl ValueType {
    /// A copy of this type.
    pub fn duplicate(&self) -> (r: ValueType)
        ensures
            r@ == self@,
        decreases self,
    {
        match self {
            ValueType::String => ValueType::String,
            ValueType::Bool => ValueType::Bool,
            ValueType::Enum(vals) => {
                let c = copy_strings(vals);
                assert(c@.map_values(|s: String| s@) == strings_view(c@));
                ValueType::Enum(c)
            },
            ValueType::Integer => ValueType::Integer,
            ValueType::Number => ValueType::Number,
            ValueType::Text => ValueType::Text,
            ValueType::Label => ValueType::Label,
            ValueType::List(inner) => {
                let i = (**inner).duplicate();
                ValueType::List(Box::new(i))
            },
            ValueType::Path => ValueType::Path,
            ValueType::Cron => ValueType::Cron,
        }
    }
}

impl Clone for ValueType {
    fn clone(&self) -> (r: ValueType)
        ensures
            r@ == self@,
    {
        self.duplicate()
    }
}

impl PropertySchema {
    /// A copy of this property schema.
    pub fn duplicate(&self) -> (r: PropertySchema)
        ensures
            r@ == self@,
    {
        PropertySchema {
            value_type: self.value_type.duplicate(),
            required: self.required,
            default: match &self.default {
                Some(d) => Some(d.clone()),
                None => None,
            },
        }
    }
}

impl TableSchema {
    /// A copy of this table schema.
    pub fn duplicate(&self) -> (r: TableSchema)
        ensures
            r@ == self@,
    {
        let mut cols: Vec<ColumnSchema> = Vec::new();
        let mut i: usize = 0;
        while i < self.columns.len()
            invariant
                i <= self.columns@.len(),
                cols@.map_values(|c: ColumnSchema| c@) == self.columns@.map_values(|c: ColumnSchema| c@).take(i as int),
            decreases self.columns@.len() - i,
        {
            let ghost before = cols@.map_values(|c: ColumnSchema| c@);
            let c = ColumnSchema { name: self.columns[i].name.clone(), column_type: self.columns[i].column_type.duplicate() };
            cols.push(c);
            assert(cols@.map_values(|c: ColumnSchema| c@) =~= before.push(self.columns@[i as int]@));
            assert(self.columns@.map_values(|c: ColumnSchema| c@).take(i + 1) =~= self.columns@.map_values(
                |c: ColumnSchema| c@,
            ).take(i as int).push(self.columns@[i as int]@));
            i = i + 1;
        }
        assert(self.columns@.map_values(|c: ColumnSchema| c@).take(self.columns@.len() as int) =~= self.columns@.map_values(
            |c: ColumnSchema| c@,
        ));
        TableSchema { columns: cols }
    }
}

impl StrMap<PropertySchema> {
    /// A copy of this property map.
    pub fn duplicate(&self) -> (r: StrMap<PropertySchema>)
        ensures
            r@ == self@,
    {
        let mut entries: Vec<(String, PropertySchema)> = Vec::new();
        let mut i: usize = 0;
        while i < self.entries.len()
            invariant
                i <= self.entries@.len(),
                (StrMap { entries })@ == self@.take(i as int),
            decreases self.entries@.len() - i,
        {
            let ghost before = (StrMap { entries })@;
            let e = (self.entries[i].0.clone(), self.entries[i].1.duplicate());
            entries.push(e);
            assert((StrMap { entries })@ =~= before.push(self@[i as int]));
            assert(self@.take(i + 1) =~= self@.take(i as int).push(self@[i as int]));
            i = i + 1;
        }
        assert(self@.take(self@.len() as int) =~= self@);
        StrMap { entries }
    }
}


// ── Building the tree ──

pub open spec fn tree_of(h1s: Seq<H1Schema>, secs: Seq<SectionSchema>) -> Tree {
    Tree { h1s: h1_schemas_view(h1s), secs: section_schemas_view(secs) }
}

pub proof fn lemma_section_view(s: SectionSchema)
    ensures
        s@.children == section_schemas_view(s.children@),
        s@.level == s.level,
        s@.quantity == s.quantity,
        s@.expects_prose == s.expects_prose,
        s@.expects_properties == s.expects_properties,
        s@.expects_table == s.expects_table,
        s@.production_name == opt_str_view(s.production_name),
        s@.name_pattern == s.name_pattern@,
        s@.properties == opt_pmap_view(s.properties),
        s@.table == opt_table_schema_view(s.table),
{
    assert(s@.children =~= section_schemas_view(s.children@));
}

fn edit_section_exec(s: &mut SectionSchema, e: SectionEdit)
    ensures
        final(s)@ == edit_section(old(s)@, e),
{
    proof {
        lemma_section_view(*s);
    }
    match e {
        SectionEdit::Prose => s.expects_prose = true,
        SectionEdit::Property => s.expects_properties = true,
        SectionEdit::Table => s.expects_table = true,
        SectionEdit::Quantity(q) => s.quantity = q,
    }
    proof {
        lemma_section_view(*s);
    }
}

fn edit_deepest_exec(s: &mut SectionSchema, e: SectionEdit)
    ensures
        final(s)@ == edit_deepest(old(s)@, e),
{
    proof {
        lemma_section_view(*s);
    }
    if s.children.len() > 0 {
        let ghost old_children = s.children@;
        let mut c = s.children.pop().unwrap();
        proof {
            lemma_section_view(c);
        }
        edit_section_exec(&mut c, e);
        s.children.push(c);
        proof {
            lemma_section_view(*s);
            assert(section_schemas_view(s.children@) =~= section_schemas_view(old_children).update(
                old_children.len() - 1,
                edit_section(old_children.last()@, e),
            ));
        }
    } else {
        edit_section_exec(s, e);
    }
}

fn edit_last_exec(h1s: &mut Vec<H1Schema>, secs: &mut Vec<SectionSchema>, e: SectionEdit) -> (r: bool)
    ensures
        match edit_last_section(tree_of(old(h1s)@, old(secs)@), e) {
            Some(t2) => r && tree_of(final(h1s)@, final(secs)@) == t2,
            None => !r && final(h1s)@ == old(h1s)@ && final(secs)@ == old(secs)@,
        },
{
    let ghost t = tree_of(h1s@, secs@);
    let n1 = h1s.len();
    if n1 > 0 && h1s[n1 - 1].children.len() > 0 {
        let ghost old_h1s = h1s@;
        let mut h = h1s.pop().unwrap();
        let ghost old_h = h;
        let ghost old_children = h.children@;
        let mut c = h.children.pop().unwrap();
        edit_deepest_exec(&mut c, e);
        h.children.push(c);
        h1s.push(h);
        assert(section_schemas_view(h.children@) =~= section_schemas_view(old_children).update(
            old_children.len() - 1,
            edit_deepest(old_children.last()@, e),
        ));
        assert(h1_schemas_view(h1s@) =~= h1_schemas_view(old_h1s).update(old_h1s.len() - 1, h@));
        return true;
    }
    let n2 = secs.len();
    if n2 > 0 {
        let ghost old_secs = secs@;
        let mut c = secs.pop().unwrap();
        edit_deepest_exec(&mut c, e);
        secs.push(c);
        assert(section_schemas_view(secs@) =~= section_schemas_view(old_secs).update(
            old_secs.len() - 1,
            edit_deepest(old_secs.last()@, e),
        ));
        return true;
    }
    false
}

fn place_section_exec(h1s: &mut Vec<H1Schema>, secs: &mut Vec<SectionSchema>, sec: SectionSchema, level: u8)
    ensures
        tree_of(final(h1s)@, final(secs)@) == place_section(tree_of(old(h1s)@, old(secs)@), sec@, level),
{
    let ghost sv = sec@;
    let ghost old_h1s = h1s@;
    let ghost old_secs = secs@;
    if level == 3 {
        let n1 = h1s.len();
        if n1 > 0 {
            if h1s[n1 - 1].children.len() == 0 {
                secs.push(sec);
                assert(section_schemas_view(secs@) =~= section_schemas_view(old_secs).push(sv));
                return;
            }
            let mut h = h1s.pop().unwrap();
            let ghost old_children = h.children@;
            let mut c = h.children.pop().unwrap();
            let ghost old_c = c;
            proof {
                lemma_section_view(c);
            }
            c.children.push(sec);
            proof {
                lemma_section_view(c);
                assert(section_schemas_view(c.children@) =~= section_schemas_view(old_c.children@).push(sv));
            }
            h.children.push(c);
            h1s.push(h);
            assert(section_schemas_view(h.children@) =~= section_schemas_view(old_children).update(
                old_children.len() - 1,
                add_child(old_children.last()@, sv),
            ));
            assert(h1_schemas_view(h1s@) =~= h1_schemas_view(old_h1s).update(old_h1s.len() - 1, h@));
            return;
        }
        let n2 = secs.len();
        if n2 > 0 {
            let mut c = secs.pop().unwrap();
            let ghost old_c = c;
            proof {
                lemma_section_view(c);
            }
            c.children.push(sec);
            proof {
                lemma_section_view(c);
                assert(section_schemas_view(c.children@) =~= section_schemas_view(old_c.children@).push(sv));
            }
            secs.push(c);
            assert(section_schemas_view(secs@) =~= section_schemas_view(old_secs).update(
                old_secs.len() - 1,
                add_child(old_secs.last()@, sv),
            ));
            return;
        }
        secs.push(sec);
        assert(section_schemas_view(secs@) =~= section_schemas_view(old_secs).push(sv));
        return;
    }
    let n1 = h1s.len();
    if n1 > 0 {
        let mut h = h1s.pop().unwrap();
        let ghost old_children = h.children@;
        h.children.push(sec);
        h1s.push(h);
        assert(section_schemas_view(h.children@) =~= section_schemas_view(old_children).push(sv));
        assert(h1_schemas_view(h1s@) =~= h1_schemas_view(old_h1s).update(old_h1s.len() - 1, h@));
    } else {
        secs.push(sec);
        assert(section_schemas_view(secs@) =~= section_schemas_view(old_secs).push(sv));
    }
}


fn builtin_exec(h1s: &mut Vec<H1Schema>, secs: &mut Vec<SectionSchema>, kind: u8)
    requires
        kind < 3,
    ensures
        tree_of(final(h1s)@, final(secs)@) == builtin_token(
            tree_of(old(h1s)@, old(secs)@),
            if kind == 0 {
                "prose"@
            } else if kind == 1 {
                "property"@
            } else {
                "table"@
            },
        ),
{
    proof {
        reveal_strlit("prose");
        reveal_strlit("property");
        reveal_strlit("table");
        assert("prose"@ != "property"@ && "prose"@ != "table"@ && "property"@ != "table"@) by {
            assert("prose"@.len() != "property"@.len());
            assert("prose"@[0] != "table"@[0]);
        }
    }
    let e = if kind == 0 {
        SectionEdit::Prose
    } else if kind == 1 {
        SectionEdit::Property
    } else {
        SectionEdit::Table
    };
    let ghost old_h1s = h1s@;
    let done = edit_last_exec(h1s, secs, e);
    if !done && kind == 1 && h1s.len() > 0 {
        let mut h = h1s.pop().unwrap();
        h.expects_properties = true;
        h1s.push(h);
        assert(h1_schemas_view(h1s@) =~= h1_schemas_view(old_h1s).update(old_h1s.len() - 1, h@));
    }
}

fn apply_quantity_exec(
    h1s: &mut Vec<H1Schema>,
    secs: &mut Vec<SectionSchema>,
    before: Ghost<Tree>,
    n_h1: usize,
    n_kids: usize,
    n_secs: usize,
    q: Quantity,
)
    requires
        n_h1 == before@.h1s.len(),
        n_kids == kids_of(before@),
        n_secs == before@.secs.len(),
    ensures
        tree_of(final(h1s)@, final(secs)@) == apply_quantity(before@, tree_of(old(h1s)@, old(secs)@), q),
{
    let ghost old_h1s = h1s@;
    let ghost old_secs = secs@;
    if q == Quantity::One {
        return;
    }
    let n1 = h1s.len();
    if n1 > n_h1 {
        let mut h = h1s.pop().unwrap();
        h.quantity = q;
        h1s.push(h);
        assert(h1_schemas_view(h1s@) =~= h1_schemas_view(old_h1s).update(old_h1s.len() - 1, h@));
        return;
    }
    if n1 > 0 && n1 == n_h1 && h1s[n1 - 1].children.len() > n_kids {
        let mut h = h1s.pop().unwrap();
        let ghost old_children = h.children@;
        let mut c = h.children.pop().unwrap();
        let ghost old_c = c@;
        edit_section_exec(&mut c, SectionEdit::Quantity(q));
        h.children.push(c);
        h1s.push(h);
        assert(section_schemas_view(h.children@) =~= section_schemas_view(old_children).update(
            old_children.len() - 1,
            edit_section(old_c, SectionEdit::Quantity(q)),
        ));
        assert(h1_schemas_view(h1s@) =~= h1_schemas_view(old_h1s).update(old_h1s.len() - 1, h@));
        return;
    }
    if secs.len() > n_secs {
        let mut c = secs.pop().unwrap();
        let ghost old_c = c@;
        edit_section_exec(&mut c, SectionEdit::Quantity(q));
        secs.push(c);
        assert(section_schemas_view(secs@) =~= section_schemas_view(old_secs).update(
            old_secs.len() - 1,
            edit_section(old_c, SectionEdit::Quantity(q)),
        ));
        return;
    }
    edit_last_exec(h1s, secs, SectionEdit::Quantity(q));
}


/// How the expansion of a token list ended.
enum Flow {
    Done,
    Fail(String),
    Panics,
}

spec fn flow_outcome(f: Flow, t: Tree) -> Outcome<Tree> {
    match f {
        Flow::Done => Outcome::Done(t),
        Flow::Fail(e) => Outcome::Fail(e@),
        Flow::Panics => Outcome::Panics,
    }
}

proof fn lemma_resolve_stop(
    env: Env,
    toks: Seq<Seq<char>>,
    k: int,
    n: int,
    cur: Option<Seq<char>>,
    visited: Seq<Seq<char>>,
    t: Tree,
)
    requires
        0 <= k <= n <= toks.len(),
        !(resolve_seq(env, toks, k, cur, visited, t) is Done),
    ensures
        resolve_seq(env, toks, n, cur, visited, t) == resolve_seq(env, toks, k, cur, visited, t),
    decreases n - k,
{
    if n > k {
        lemma_resolve_stop(env, toks, k, n - 1, cur, visited, t);
    }
}

fn contains_str(v: &Vec<String>, s: &str) -> (r: bool)
    ensures
        r == strings_view(v@).contains(s@),
{
    let mut i: usize = 0;
    while i < v.len()
        invariant
            i <= v@.len(),
            forall|j: int| 0 <= j < i ==> strings_view(v@)[j] != s@,
        decreases v@.len() - i,
    {
        if str_eq(v[i].as_str(), s) {
            assert(strings_view(v@)[i as int] == s@);
            return true;
        }
        i = i + 1;
    }
    false
}

fn copy_opt_string(o: &Option<String>) -> (r: Option<String>)
    ensures
        opt_str_view(r) == opt_str_view(*o),
{
    match o {
        Some(s) => Some(s.clone()),
        None => None,
    }
}

fn scoped_props_for(props: &StrMap<PropertyMap>, cur: &Option<String>) -> (r: Option<PropertyMap>)
    ensures
        opt_pmap_view(r) == scoped_get(props@, opt_str_view(*cur)),
{
    match cur {
        Some(p) => match props.get(p.as_str()) {
            Some(m) => Some(m.duplicate()),
            None => None,
        },
        None => None,
    }
}

fn scoped_table_for(tables: &StrMap<TableSchema>, cur: &Option<String>) -> (r: Option<TableSchema>)
    ensures
        opt_table_schema_view(r) == scoped_get(tables@, opt_str_view(*cur)),
{
    match cur {
        Some(p) => match tables.get(p.as_str()) {
            Some(t) => Some(t.duplicate()),
            None => None,
        },
        None => None,
    }
}

#[verifier::rlimit(50)]
fn resolve_tokens(
    toks: &Vec<String>,
    prods: &StrMap<StrList>,
    props: &StrMap<PropertyMap>,
    tables: &StrMap<TableSchema>,
    h1s: &mut Vec<H1Schema>,
    secs: &mut Vec<SectionSchema>,
    cur: &Option<String>,
    visited: &mut Vec<String>,
) -> (r: Flow)
    ensures
        strings_view(final(visited)@) == strings_view(old(visited)@),
        flow_outcome(r, tree_of(final(h1s)@, final(secs)@)) == resolve_seq(
            Env { prods: prods@, props: props@, tables: tables@ },
            strings_view(toks@),
            toks@.len() as int,
            opt_str_view(*cur),
            strings_view(old(visited)@),
            tree_of(old(h1s)@, old(secs)@),
        ),
    decreases unvisited(prods@, strings_view(old(visited)@)),
{
    let ghost env = Env { prods: prods@, props: props@, tables: tables@ };
    let ghost tv = strings_view(toks@);
    let ghost vis = strings_view(visited@);
    let ghost cv = opt_str_view(*cur);
    let ghost t0 = tree_of(h1s@, secs@);
    let h1m: &[char] = &['H', '1'];
    let h2m: &[char] = &['H', '2'];
    let h3m: &[char] = &['H', '3'];
    assert(h1m@ =~= h1_mark());
    assert(h2m@ =~= h2_mark());
    assert(h3m@ =~= h3_mark());
    let mut i: usize = 0;
    while i < toks.len()
        invariant
            i <= toks@.len(),
            tv == strings_view(toks@),
            env == (Env { prods: prods@, props: props@, tables: tables@ }),
            cv == opt_str_view(*cur),
            strings_view(visited@) == vis,
            vis == strings_view(old(visited)@),
            t0 == tree_of(old(h1s)@, old(secs)@),
            h1m@ == h1_mark(),
            h2m@ == h2_mark(),
            h3m@ == h3_mark(),
            resolve_seq(env, tv, i as int, cv, vis, t0) == Outcome::Done(tree_of(h1s@, secs@)),
        decreases toks@.len() - i,
    {
        let ghost t1 = tree_of(h1s@, secs@);
        let v = chars_of(toks[i].as_str());
        let n = v.len();
        assert(v@ == tv[i as int]);
        assert(v@.subrange(0, n as int) =~= v@);
        let (bend, q) = split_quantifier(&v, 0, n);
        let ghost base = v@.subrange(0, bend as int);
        if starts_with_at(&v, 0, n, h1m) {
            let text = quoted_arg_of(&v, 0, bend);
            let properties = scoped_props_for(props, cur);
            let h = H1Schema {
                production_name: copy_opt_string(cur),
                text,
                quantity: q,
                expects_properties: false,
                properties,
                children: Vec::new(),
            };
            let ghost old_h1s = h1s@;
            h1s.push(h);
            assert(section_schemas_view(h.children@) =~= Seq::<SectionSchemaView>::empty());
            assert(h1_schemas_view(h1s@) =~= h1_schemas_view(old_h1s).push(new_h1(env, cv, quoted_arg(base), q)));
        } else if starts_with_at(&v, 0, n, h2m) || starts_with_at(&v, 0, n, h3m) {
            let level: u8 = if starts_with_at(&v, 0, n, h2m) {
                2
            } else {
                3
            };
            let pat = match paren_arg_of(&v, 0, bend) {
                Err(()) => {
                    proof {
                        lemma_resolve_stop(env, tv, i + 1, tv.len() as int, cv, vis, t0);
                    }
                    return Flow::Panics;
                },
                Ok(Some((a, b))) => name_pattern_of(&v, a, b),
                Ok(None) => {
                    let any = chars_of("ANY");
                    assert(any@.subrange(0, any@.len() as int) =~= "ANY"@);
                    name_pattern_of(&any, 0, any.len())
                },
            };
            match pat {
                Ok(p) => {
                    let sec = SectionSchema {
                        production_name: copy_opt_string(cur),
                        level,
                        name_pattern: p,
                        quantity: q,
                        expects_prose: false,
                        expects_properties: false,
                        expects_table: false,
                        properties: scoped_props_for(props, cur),
                        table: scoped_table_for(tables, cur),
                        children: Vec::new(),
                    };
                    proof {
                        lemma_section_view(sec);
                        assert(section_schemas_view(sec.children@) =~= Seq::<SectionSchemaView>::empty());
                    }
                    place_section_exec(h1s, secs, sec, level);
                },
                Err(Some(e)) => {
                    proof {
                        lemma_resolve_stop(env, tv, i + 1, tv.len() as int, cv, vis, t0);
                    }
                    return Flow::Fail(e);
                },
                Err(None) => {
                    proof {
                        lemma_resolve_stop(env, tv, i + 1, tv.len() as int, cv, vis, t0);
                    }
                    return Flow::Panics;
                },
            }
        } else if is_literal(&v, 0, bend, "prose") {
            builtin_exec(h1s, secs, 0);
        } else if is_literal(&v, 0, bend, "property") {
            builtin_exec(h1s, secs, 1);
        } else if is_literal(&v, 0, bend, "table") {
            builtin_exec(h1s, secs, 2);
        } else {
            let name = string_of(&v, 0, bend);
            match prods.get(name.as_str()) {
                Some(l) => {
                    if contains_str(visited, name.as_str()) {
                        let mut msg = string_from("circular reference in grammar: ");
                        msg.append(name.as_str());
                        proof {
                            lemma_resolve_stop(env, tv, i + 1, tv.len() as int, cv, vis, t0);
                        }
                        return Flow::Fail(msg);
                    }
                    let n_h1 = h1s.len();
                    let n_kids = if n_h1 > 0 {
                        h1s[n_h1 - 1].children.len()
                    } else {
                        0
                    };
                    let n_secs = secs.len();
                    let ghost t1 = tree_of(h1s@, secs@);
                    proof {
                        lemma_smap_index_found(prods@, base, 0);
                        lemma_unvisited_push(prods@, vis, base, smap_index(prods@, base, 0)->0);
                    }
                    let ghost old_visited = visited@;
                    visited.push(name.clone());
                    assert(strings_view(visited@) =~= vis.push(base));
                    let cur2 = Some(name);
                    let f = resolve_tokens(&l.items, prods, props, tables, h1s, secs, &cur2, visited);
                    let ghost mid = visited@;
                    visited.pop();
                    assert(strings_view(visited@) =~= strings_view(mid).drop_last());
                    assert(vis.push(base).drop_last() =~= vis);
                    match f {
                        Flow::Done => {
                            apply_quantity_exec(h1s, secs, Ghost(t1), n_h1, n_kids, n_secs, q);
                        },
                        Flow::Fail(e) => {
                            proof {
                                lemma_resolve_stop(env, tv, i + 1, tv.len() as int, cv, vis, t0);
                            }
                            return Flow::Fail(e);
                        },
                        Flow::Panics => {
                            proof {
                                lemma_resolve_stop(env, tv, i + 1, tv.len() as int, cv, vis, t0);
                            }
                            return Flow::Panics;
                        },
                    }
                },
                None => {},
            }
        }
        i = i + 1;
    }
    Flow::Done
}


// ── Schema loader ──

/// Sections resolved outside any H1 are wrapped in one H1 node that accepts any text.
pub open spec fn wrap_roots(t: Tree) -> Seq<H1SchemaView> {
    if t.secs.len() > 0 && t.h1s.len() == 0 {
        seq![
            H1SchemaView {
                production_name: None,
                text: None,
                quantity: Quantity::One,
                expects_properties: false,
                properties: None,
                children: t.secs,
            },
        ]
    } else {
        t.h1s
    }
}

pub open spec fn no_grammar_message() -> Seq<char> {
    "schema has no ```grammar block"@
}

/// What loading `text` as a schema named `name` gives.
pub open spec fn load_schema_spec(text: Seq<char>, name: Seq<char>) -> Outcome<SchemaView> {
    let blocks = fenced_blocks(lines(text), 0);
    let c = classify(blocks, blocks.len() as int);
    if c.grammar.len() == 0 {
        Outcome::Fail(no_grammar_message())
    } else {
        let prods = productions_of(c.grammar, c.grammar.len() as int);
        match scoped_props_spec(c.scoped_types, c.scoped_types.len() as int) {
            Err(e) => Outcome::Fail(e),
            Ok(sp) => match scoped_tables_spec(c.scoped_tables, c.scoped_tables.len() as int) {
                Err(e) => Outcome::Fail(e),
                Ok(stb) => match types_blocks_spec(c.types, c.types.len() as int) {
                    Err(e) => Outcome::Fail(e),
                    Ok(gp) => match table_blocks_spec(c.table) {
                        Err(e) => Outcome::Fail(e),
                        Ok(gt) => {
                            let env = Env { prods: production_map(prods, prods.len() as int), props: sp, tables: stb };
                            let root = root_tokens(prods);
                            match resolve_seq(env, root, root.len() as int, None, seq![], Tree { h1s: seq![], secs: seq![] }) {
                                Outcome::Done(t) => Outcome::Done(
                                    SchemaView { name, nodes: wrap_roots(t), global_properties: gp, global_table: gt },
                                ),
                                Outcome::Fail(e) => Outcome::Fail(e),
                                Outcome::Panics => Outcome::Panics,
                            }
                        },
                    },
                },
            },
        }
    }
}

/// Result of [`load_schema_outcome`].
pub enum LoadOutcome {
    /// The schema loaded.
    Loaded(Schema),
    /// The schema is invalid; the message says why.
    Failed(String),
    /// The grammar holds a heading pattern whose argument cannot be sliced out
    /// (a `)` before the `(`, or a lone `"`); loading stops there.
    Aborted,
}

pub open spec fn load_outcome_view(r: LoadOutcome) -> Outcome<SchemaView> {
    match r {
        LoadOutcome::Loaded(s) => Outcome::Done(s@),
        LoadOutcome::Failed(e) => Outcome::Fail(e@),
        LoadOutcome::Aborted => Outcome::Panics,
    }
}

/// Parses and resolves a schema from structmd text, reporting every way it can end.
pub fn load_schema_outcome(text: &str, schema_name: &str) -> (r: LoadOutcome)
    ensures
        load_outcome_view(r) == load_schema_spec(text@, schema_name@),
{
    let v = chars_of(text);
    let found = fenced_blocks_of(&v);
    let c = classify_blocks(found);
    if c.grammar.len() == 0 {
        return LoadOutcome::Failed(string_from("schema has no ```grammar block"));
    }
    let prods = productions_from(&c.grammar);
    let sp = match scoped_props_of(&c.scoped_types) {
        Ok(m) => m,
        Err(e) => {
            return LoadOutcome::Failed(e);
        },
    };
    let stb = match scoped_tables_of(&c.scoped_tables) {
        Ok(m) => m,
        Err(e) => {
            return LoadOutcome::Failed(e);
        },
    };
    let global_properties = match types_from_blocks(&c.types) {
        Ok(m) => m,
        Err(e) => {
            return LoadOutcome::Failed(e);
        },
    };
    let global_table = match table_from_blocks(&c.table) {
        Ok(t) => t,
        Err(e) => {
            return LoadOutcome::Failed(e);
        },
    };
    let pm = production_map_of(&prods);
    let root = root_tokens_of(&prods, &pm);
    let mut h1s: Vec<H1Schema> = Vec::new();
    let mut secs: Vec<SectionSchema> = Vec::new();
    let mut visited: Vec<String> = Vec::new();
    assert(h1_schemas_view(h1s@) =~= Seq::<H1SchemaView>::empty());
    assert(section_schemas_view(secs@) =~= Seq::<SectionSchemaView>::empty());
    assert(tree_of(h1s@, secs@) == (Tree { h1s: seq![], secs: seq![] }));
    assert(strings_view(visited@) =~= Seq::<Seq<char>>::empty());
    let none: Option<String> = None;
    match resolve_tokens(&root, &pm, &sp, &stb, &mut h1s, &mut secs, &none, &mut visited) {
        Flow::Done => {},
        Flow::Fail(e) => {
            return LoadOutcome::Failed(e);
        },
        Flow::Panics => {
            return LoadOutcome::Aborted;
        },
    }
    if secs.len() > 0 && h1s.len() == 0 {
        h1s.push(
            H1Schema {
                production_name: None,
                text: None,
                quantity: Quantity::One,
                expects_properties: false,
                properties: None,
                children: secs,
            },
        );
        assert(h1_schemas_view(h1s@) =~= wrap_roots(tree_of(seq![], secs@)));
    }
    LoadOutcome::Loaded(Schema { name: string_from(schema_name), nodes: h1s, global_properties, global_table })
}

/// Parse and resolve a schema from structmd text.
///
/// `schema_name` is used in error messages and stored in [`Schema::name`].
///
/// # Errors
///
/// Returns an error string if the schema has no `grammar` block,
/// an unknown type annotation, an unknown name pattern, or a circular production reference.
pub fn load_schema(text: &str, schema_name: &str) -> (r: Result<Schema, String>)
    requires
        !(load_schema_spec(text@, schema_name@) is Panics),
    ensures
        match r {
            Ok(s) => load_schema_spec(text@, schema_name@) == Outcome::Done(s@),
            Err(e) => load_schema_spec(text@, schema_name@) == Outcome::<SchemaView>::Fail(e@),
        },
{
    match load_schema_outcome(text, schema_name) {
        LoadOutcome::Loaded(s) => Ok(s),
        LoadOutcome::Failed(e) => Err(e),
        LoadOutcome::Aborted => {
            proof {
                assert(false);
            }
            Err(String::new())
        },
    }
}


// ── Declared properties are kept in key order ──

proof fn lemma_types_lines_sorted(ls: Seq<Seq<char>>, n: int, m: PropertyMapView)
    requires
        smap_sorted(m),
    ensures
        types_lines(ls, n, m) matches Ok(r) ==> smap_sorted(r),
    decreases n,
{
    if 0 < n <= ls.len() {
        lemma_types_lines_sorted(ls, n - 1, m);
        match types_lines(ls, n - 1, m) {
            Ok(m2) => {
                let l = trim(ls[n - 1]);
                if l.len() > 0 {
                    match decl_parts(l) {
                        Some((key, rest)) => match parse_type_with_modifiers_spec(rest) {
                            Ok(ps) => lemma_smap_insert_sorted(m2, key, ps),
                            Err(_) => {},
                        },
                        None => {},
                    }
                }
            },
            Err(_) => {},
        }
    }
}

/// The property map of a list of `types` blocks has each key once, in ascending order.
pub proof fn lemma_types_blocks_sorted(bs: Seq<Seq<char>>, n: int)
    ensures
        types_blocks_spec(bs, n) matches Ok(m) ==> smap_sorted(m),
    decreases n,
{
    if 0 < n <= bs.len() {
        lemma_types_blocks_sorted(bs, n - 1);
        match types_blocks_spec(bs, n - 1) {
            Ok(m) => lemma_types_lines_sorted(lines(bs[n - 1]), lines(bs[n - 1]).len() as int, m),
            Err(_) => {},
        }
    }
}

/// A loaded schema's global properties are in ascending key order, each key
/// once, as a `BTreeMap` would hold them.
pub proof fn lemma_loaded_properties_sorted(text: Seq<char>, name: Seq<char>)
    ensures
        load_schema_spec(text, name) matches Outcome::Done(s) ==> smap_sorted(s.global_properties),
{
    let blocks = fenced_blocks(lines(text), 0);
    let c = classify(blocks, blocks.len() as int);
    lemma_types_blocks_sorted(c.types, c.types.len() as int);
}


// ── Scoped declarations stay with their production ──

/// A section's properties and table are those its own production declares
/// (`None` where there is no `types:` or `table:` block for it).
pub open spec fn own_scoped(props: ScopedProps, tables: ScopedTables, s: SectionSchemaView) -> bool {
    &&& s.properties == scoped_get(props, s.production_name)
    &&& s.table == scoped_get(tables, s.production_name)
}

/// A section and its children are scoped as [`own_scoped`] says, and its
/// children have no children of their own.
pub open spec fn section_scoped(props: ScopedProps, tables: ScopedTables, s: SectionSchemaView) -> bool {
    &&& own_scoped(props, tables, s)
    &&& forall|i: int|
        0 <= i < s.children.len() ==> own_scoped(props, tables, #[trigger] s.children[i])
            && s.children[i].children.len() == 0
}

pub open spec fn h1_scoped(props: ScopedProps, tables: ScopedTables, h: H1SchemaView) -> bool {
    &&& h.properties == scoped_get(props, h.production_name)
    &&& forall|i: int| 0 <= i < h.children.len() ==> section_scoped(props, tables, #[trigger] h.children[i])
}

pub open spec fn tree_scoped(env: Env, t: Tree) -> bool {
    &&& forall|i: int| 0 <= i < t.h1s.len() ==> h1_scoped(env.props, env.tables, #[trigger] t.h1s[i])
    &&& forall|i: int| 0 <= i < t.secs.len() ==> section_scoped(env.props, env.tables, #[trigger] t.secs[i])
}

proof fn lemma_edit_section_scoped(p: ScopedProps, tb: ScopedTables, s: SectionSchemaView, e: SectionEdit)
    requires
        section_scoped(p, tb, s),
    ensures
        section_scoped(p, tb, edit_section(s, e)),
        section_scoped(p, tb, edit_deepest(s, e)),
{
    let d = edit_deepest(s, e);
    if s.children.len() > 0 {
        let last = s.children.len() - 1;
        assert forall|i: int| 0 <= i < d.children.len() implies own_scoped(p, tb, #[trigger] d.children[i])
            && d.children[i].children.len() == 0 by {
            if i != last {
                assert(d.children[i] == s.children[i]);
            }
        }
    }
}

proof fn lemma_add_child_scoped(p: ScopedProps, tb: ScopedTables, s: SectionSchemaView, c: SectionSchemaView)
    requires
        section_scoped(p, tb, s),
        own_scoped(p, tb, c),
        c.children.len() == 0,
    ensures
        section_scoped(p, tb, add_child(s, c)),
{
    let d = add_child(s, c);
    assert forall|i: int| 0 <= i < d.children.len() implies own_scoped(p, tb, #[trigger] d.children[i])
        && d.children[i].children.len() == 0 by {
        if i < s.children.len() {
            assert(d.children[i] == s.children[i]);
        }
    }
}

proof fn lemma_update_h1s(env: Env, t: Tree, h: H1SchemaView)
    requires
        tree_scoped(env, t),
        t.h1s.len() > 0,
        h1_scoped(env.props, env.tables, h),
    ensures
        tree_scoped(env, Tree { h1s: t.h1s.update(t.h1s.len() - 1, h), ..t }),
{
    let hs = t.h1s.update(t.h1s.len() - 1, h);
    assert forall|i: int| 0 <= i < hs.len() implies h1_scoped(env.props, env.tables, #[trigger] hs[i]) by {
        if i != t.h1s.len() - 1 {
            assert(hs[i] == t.h1s[i]);
        }
    }
}

proof fn lemma_update_secs(env: Env, t: Tree, s: SectionSchemaView)
    requires
        tree_scoped(env, t),
        t.secs.len() > 0,
        section_scoped(env.props, env.tables, s),
    ensures
        tree_scoped(env, Tree { secs: t.secs.update(t.secs.len() - 1, s), ..t }),
{
    let ss = t.secs.update(t.secs.len() - 1, s);
    assert forall|i: int| 0 <= i < ss.len() implies section_scoped(env.props, env.tables, #[trigger] ss[i]) by {
        if i != t.secs.len() - 1 {
            assert(ss[i] == t.secs[i]);
        }
    }
}

proof fn lemma_update_children(p: ScopedProps, tb: ScopedTables, h: H1SchemaView, s: SectionSchemaView)
    requires
        h1_scoped(p, tb, h),
        h.children.len() > 0,
        section_scoped(p, tb, s),
    ensures
        h1_scoped(p, tb, H1SchemaView { children: h.children.update(h.children.len() - 1, s), ..h }),
{
    let cs = h.children.update(h.children.len() - 1, s);
    assert forall|i: int| 0 <= i < cs.len() implies section_scoped(p, tb, #[trigger] cs[i]) by {
        if i != h.children.len() - 1 {
            assert(cs[i] == h.children[i]);
        }
    }
}

proof fn lemma_edit_last_scoped(env: Env, t: Tree, e: SectionEdit)
    requires
        tree_scoped(env, t),
    ensures
        edit_last_section(t, e) matches Some(t2) ==> tree_scoped(env, t2),
{
    if t.h1s.len() > 0 && t.h1s.last().children.len() > 0 {
        let h = t.h1s.last();
        lemma_edit_section_scoped(env.props, env.tables, h.children.last(), e);
        lemma_update_children(env.props, env.tables, h, edit_deepest(h.children.last(), e));
        lemma_update_h1s(
            env,
            t,
            H1SchemaView { children: h.children.update(h.children.len() - 1, edit_deepest(h.children.last(), e)), ..h },
        );
    } else if t.secs.len() > 0 {
        lemma_edit_section_scoped(env.props, env.tables, t.secs.last(), e);
        lemma_update_secs(env, t, edit_deepest(t.secs.last(), e));
    }
}

proof fn lemma_place_scoped(env: Env, t: Tree, sec: SectionSchemaView, level: u8)
    requires
        tree_scoped(env, t),
        own_scoped(env.props, env.tables, sec),
        sec.children.len() == 0,
    ensures
        tree_scoped(env, place_section(t, sec, level)),
{
    assert(section_scoped(env.props, env.tables, sec));
    let pushed = t.secs.push(sec);
    assert forall|i: int| 0 <= i < pushed.len() implies section_scoped(env.props, env.tables, #[trigger] pushed[i]) by {
        if i < t.secs.len() {
            assert(pushed[i] == t.secs[i]);
        }
    }
    if level == 3 {
        if t.h1s.len() > 0 {
            if t.h1s.last().children.len() > 0 {
                let h = t.h1s.last();
                lemma_add_child_scoped(env.props, env.tables, h.children.last(), sec);
                lemma_update_children(env.props, env.tables, h, add_child(h.children.last(), sec));
                lemma_update_h1s(
                    env,
                    t,
                    H1SchemaView { children: h.children.update(h.children.len() - 1, add_child(h.children.last(), sec)), ..h },
                );
            }
        } else if t.secs.len() > 0 {
            lemma_add_child_scoped(env.props, env.tables, t.secs.last(), sec);
            lemma_update_secs(env, t, add_child(t.secs.last(), sec));
        }
    } else if t.h1s.len() > 0 {
        let h = t.h1s.last();
        let h2 = H1SchemaView { children: h.children.push(sec), ..h };
        assert forall|i: int| 0 <= i < h2.children.len() implies section_scoped(env.props, env.tables, #[trigger] h2.children[i]) by {
            if i < h.children.len() {
                assert(h2.children[i] == h.children[i]);
            }
        }
        lemma_update_h1s(env, t, h2);
    }
}

proof fn lemma_quantity_scoped(env: Env, before: Tree, t: Tree, q: Quantity)
    requires
        tree_scoped(env, t),
    ensures
        tree_scoped(env, apply_quantity(before, t, q)),
{
    if q == Quantity::One {
    } else if t.h1s.len() > before.h1s.len() {
        lemma_update_h1s(env, t, H1SchemaView { quantity: q, ..t.h1s.last() });
    } else if t.h1s.len() > 0 && t.h1s.len() == before.h1s.len() && kids_of(t) > kids_of(before) {
        let h = t.h1s.last();
        let e = SectionEdit::Quantity(q);
        lemma_edit_section_scoped(env.props, env.tables, h.children.last(), e);
        lemma_update_children(env.props, env.tables, h, edit_section(h.children.last(), e));
        lemma_update_h1s(
            env,
            t,
            H1SchemaView { children: h.children.update(h.children.len() - 1, edit_section(h.children.last(), e)), ..h },
        );
    } else if t.secs.len() > before.secs.len() {
        lemma_edit_section_scoped(env.props, env.tables, t.secs.last(), SectionEdit::Quantity(q));
        lemma_update_secs(env, t, edit_section(t.secs.last(), SectionEdit::Quantity(q)));
    } else {
        lemma_edit_last_scoped(env, t, SectionEdit::Quantity(q));
    }
}

proof fn lemma_resolve_scoped(
    env: Env,
    toks: Seq<Seq<char>>,
    n: int,
    cur: Option<Seq<char>>,
    visited: Seq<Seq<char>>,
    t: Tree,
)
    requires
        tree_scoped(env, t),
    ensures
        resolve_seq(env, toks, n, cur, visited, t) matches Outcome::Done(t2) ==> tree_scoped(env, t2),
    decreases unvisited(env.prods, visited), n,
{
    if 0 < n <= toks.len() {
        lemma_resolve_scoped(env, toks, n - 1, cur, visited, t);
        match resolve_seq(env, toks, n - 1, cur, visited, t) {
            Outcome::Done(t1) => {
                let s = toks[n - 1];
                let (base, q) = split_quantifier_spec(s);
                if starts_with(s, h1_mark()) {
                    let hs = t1.h1s.push(new_h1(env, cur, quoted_arg(base), q));
                    assert forall|i: int| 0 <= i < hs.len() implies h1_scoped(env.props, env.tables, #[trigger] hs[i]) by {
                        if i < t1.h1s.len() {
                            assert(hs[i] == t1.h1s[i]);
                        }
                    }
                } else if starts_with(s, h2_mark()) || starts_with(s, h3_mark()) {
                    let level: u8 = if starts_with(s, h2_mark()) {
                        2
                    } else {
                        3
                    };
                    match paren_arg(base) {
                        Outcome::Done(arg) => {
                            let pat = match arg {
                                Some(x) => x,
                                None => "ANY"@,
                            };
                            match name_pattern_spec(pat) {
                                Outcome::Done(p) => {
                                    lemma_place_scoped(env, t1, new_section(env, cur, level, p, q), level);
                                },
                                _ => {},
                            }
                        },
                        _ => {},
                    }
                } else if base == "prose"@ || base == "property"@ || base == "table"@ {
                    let e = if base == "prose"@ {
                        SectionEdit::Prose
                    } else if base == "property"@ {
                        SectionEdit::Property
                    } else {
                        SectionEdit::Table
                    };
                    lemma_edit_last_scoped(env, t1, e);
                    if edit_last_section(t1, e) is None && base == "property"@ && t1.h1s.len() > 0 {
                        lemma_update_h1s(env, t1, H1SchemaView { expects_properties: true, ..t1.h1s.last() });
                    }
                } else {
                    match smap_index(env.prods, base, 0) {
                        Some(i) => if !visited.contains(base) {
                            lemma_smap_index_found(env.prods, base, 0);
                            lemma_unvisited_push(env.prods, visited, base, i);
                            let body = env.prods[i].1;
                            lemma_resolve_scoped(env, body, body.len() as int, Some(base), visited.push(base), t1);
                            match resolve_seq(env, body, body.len() as int, Some(base), visited.push(base), t1) {
                                Outcome::Done(t2) => {
                                    lemma_quantity_scoped(env, t1, t2, q);
                                },
                                _ => {},
                            }
                        },
                        None => {},
                    }
                }
            },
            _ => {},
        }
    }
}

/// The property map that the `types:production` blocks of `text` declare, by production.
pub open spec fn declared_props(text: Seq<char>) -> ScopedProps {
    let blocks = fenced_blocks(lines(text), 0);
    let c = classify(blocks, blocks.len() as int);
    match scoped_props_spec(c.scoped_types, c.scoped_types.len() as int) {
        Ok(sp) => sp,
        Err(_) => seq![],
    }
}

/// The tables that the `table:production` blocks of `text` declare, by production.
pub open spec fn declared_tables(text: Seq<char>) -> ScopedTables {
    let blocks = fenced_blocks(lines(text), 0);
    let c = classify(blocks, blocks.len() as int);
    match scoped_tables_spec(c.scoped_tables, c.scoped_tables.len() as int) {
        Ok(st) => st,
        Err(_) => seq![],
    }
}

/// Scoped declarations do not leak: in a loaded schema, every H1 node and
/// section carries exactly the properties (and every section the table) that
/// its own production declares, and nothing where its production declares
/// none. Sections nest at most one level below the sections of an H1 node.
pub proof fn lemma_scoped_declarations(text: Seq<char>, name: Seq<char>)
    ensures
        load_schema_spec(text, name) matches Outcome::Done(s) ==> forall|i: int|
            0 <= i < s.nodes.len() ==> h1_scoped(declared_props(text), declared_tables(text), #[trigger] s.nodes[i]),
{
    let blocks = fenced_blocks(lines(text), 0);
    let c = classify(blocks, blocks.len() as int);
    if c.grammar.len() > 0 {
        let prods = productions_of(c.grammar, c.grammar.len() as int);
        match (
            scoped_props_spec(c.scoped_types, c.scoped_types.len() as int),
            scoped_tables_spec(c.scoped_tables, c.scoped_tables.len() as int),
        ) {
            (Ok(sp), Ok(stb)) => {
                let env = Env { prods: production_map(prods, prods.len() as int), props: sp, tables: stb };
                let root = root_tokens(prods);
                let t0 = Tree { h1s: seq![], secs: seq![] };
                lemma_resolve_scoped(env, root, root.len() as int, None, seq![], t0);
                match resolve_seq(env, root, root.len() as int, None, seq![], t0) {
                    Outcome::Done(t) => {
                        if t.secs.len() > 0 && t.h1s.len() == 0 {
                            let w = wrap_roots(t);
                            assert(h1_scoped(sp, stb, w[0]));
                        }
                    },
                    _ => {},
                }
            },
            _ => {},
        }
    }
}


/// Every property map stored in `m` has its keys in ascending order.
pub open spec fn maps_sorted(m: ScopedProps) -> bool {
    forall|i: int| 0 <= i < m.len() ==> smap_sorted(#[trigger] m[i].1)
}

proof fn lemma_insert_maps_sorted(m: ScopedProps, k: Seq<char>, v: PropertyMapView)
    requires
        maps_sorted(m),
        smap_sorted(v),
    ensures
        maps_sorted(smap_insert(m, k, v)),
    decreases m.len(),
{
    let r = smap_insert(m, k, v);
    if m.len() == 0 {
    } else if m[0].0 == k {
        assert forall|i: int| 0 <= i < r.len() implies smap_sorted(#[trigger] r[i].1) by {
            if i > 0 {
                assert(r[i] == m[i]);
            }
        }
    } else if key_lt(k, m[0].0) {
        assert forall|i: int| 0 <= i < r.len() implies smap_sorted(#[trigger] r[i].1) by {
            if i > 0 {
                assert(r[i] == m[i - 1]);
            }
        }
    } else {
        let t = m.drop_first();
        assert forall|i: int| 0 <= i < t.len() implies smap_sorted(#[trigger] t[i].1) by {
            assert(t[i] == m[i + 1]);
        }
        lemma_insert_maps_sorted(t, k, v);
        let rt = smap_insert(t, k, v);
        assert forall|i: int| 0 <= i < r.len() implies smap_sorted(#[trigger] r[i].1) by {
            if i > 0 {
                assert(r[i] == rt[i - 1]);
            }
        }
    }
}

proof fn lemma_scoped_props_sorted(st: BlockMap, n: int)
    ensures
        scoped_props_spec(st, n) matches Ok(sp) ==> maps_sorted(sp),
    decreases n,
{
    if 0 < n <= st.len() {
        lemma_scoped_props_sorted(st, n - 1);
        lemma_types_blocks_sorted(st[n - 1].1, st[n - 1].1.len() as int);
        match (scoped_props_spec(st, n - 1), types_blocks_spec(st[n - 1].1, st[n - 1].1.len() as int)) {
            (Ok(m), Ok(p)) => lemma_insert_maps_sorted(m, st[n - 1].0, p),
            _ => {},
        }
    }
}

proof fn lemma_scoped_get_sorted(m: ScopedProps, cur: Option<Seq<char>>)
    requires
        maps_sorted(m),
    ensures
        scoped_get(m, cur) matches Some(p) ==> smap_sorted(p),
{
    match cur {
        Some(k) => if smap_index(m, k, 0) is Some {
            lemma_smap_index_found(m, k, 0);
        },
        None => {},
    }
}

pub open spec fn opt_sorted(o: Option<PropertyMapView>) -> bool {
    match o {
        Some(p) => smap_sorted(p),
        None => true,
    }
}

/// Every property map of a loaded schema (the global one, and that of each
/// H1 node and section) holds each key once, in ascending order.
pub proof fn lemma_loaded_maps_sorted(text: Seq<char>, name: Seq<char>)
    ensures
        load_schema_spec(text, name) matches Outcome::Done(s) ==> {
            &&& smap_sorted(s.global_properties)
            &&& forall|i: int|
                0 <= i < s.nodes.len() ==> opt_sorted((#[trigger] s.nodes[i]).properties)
            &&& forall|i: int, j: int|
                0 <= i < s.nodes.len() && 0 <= j < s.nodes[i].children.len() ==> opt_sorted(
                (#[trigger] s.nodes[i].children[j]).properties,
            )
            &&& forall|i: int, j: int, k: int|
                0 <= i < s.nodes.len() && 0 <= j < s.nodes[i].children.len() && 0 <= k
                    < s.nodes[i].children[j].children.len() ==> opt_sorted(
                (#[trigger] s.nodes[i].children[j].children[k]).properties,
            )
        },
{
    lemma_loaded_properties_sorted(text, name);
    lemma_scoped_declarations(text, name);
    let blocks = fenced_blocks(lines(text), 0);
    let c = classify(blocks, blocks.len() as int);
    lemma_scoped_props_sorted(c.scoped_types, c.scoped_types.len() as int);
    let sp = declared_props(text);
    assert(maps_sorted(sp));
    match load_schema_spec(text, name) {
        Outcome::Done(s) => {
            assert forall|i: int| 0 <= i < s.nodes.len() implies (#[trigger] s.nodes[i]).properties matches Some(p)
                ==> smap_sorted(p) by {
                lemma_scoped_get_sorted(sp, s.nodes[i].production_name);
            }
            assert forall|i: int, j: int|
                0 <= i < s.nodes.len() && 0 <= j < s.nodes[i].children.len() implies opt_sorted(
                (#[trigger] s.nodes[i].children[j]).properties,
            ) by {
                assert(section_scoped(sp, declared_tables(text), s.nodes[i].children[j]));
                lemma_scoped_get_sorted(sp, s.nodes[i].children[j].production_name);
            }
            assert forall|i: int, j: int, k: int|
                0 <= i < s.nodes.len() && 0 <= j < s.nodes[i].children.len() && 0 <= k
                    < s.nodes[i].children[j].children.len() implies opt_sorted(
                (#[trigger] s.nodes[i].children[j].children[k]).properties,
            ) by {
                assert(section_scoped(sp, declared_tables(text), s.nodes[i].children[j]));
                assert(own_scoped(sp, declared_tables(text), s.nodes[i].children[j].children[k]));
                lemma_scoped_get_sorted(sp, s.nodes[i].children[j].children[k].production_name);
            }
        },
        _ => {},
    }
}


// ── Modifier splitting loses nothing ──

proof fn lemma_join_cons(a: Seq<char>, r: Seq<Seq<char>>, sep: Seq<char>)
    requires
        r.len() >= 1,
    ensures
        join(seq![a] + r, sep) == a + sep + join(r, sep),
    decreases r.len(),
{
    let whole = seq![a] + r;
    assert(whole.drop_last() =~= seq![a] + r.drop_last());
    assert(whole.last() == r.last());
    if r.len() == 1 {
        assert(seq![a] + r.drop_last() =~= seq![a]);
        assert(join(seq![a], sep) == a);
        assert(join(r, sep) == r[0]);
        assert(join(whole, sep) == join(whole.drop_last(), sep) + sep + whole.last());
    } else {
        lemma_join_cons(a, r.drop_last(), sep);
        assert(join(whole, sep) == join(whole.drop_last(), sep) + sep + whole.last());
        assert(join(r, sep) == join(r.drop_last(), sep) + sep + r.last());
        assert(a + sep + join(r.drop_last(), sep) + sep + r.last() =~= a + sep + (join(r.drop_last(), sep) + sep
            + r.last()));
    }
}

proof fn lemma_split_mod_join(s: Seq<char>, i: int, start: int, depth: int)
    requires
        0 <= start <= i <= s.len(),
    ensures
        split_mod(s, i, start, depth).len() >= 1,
        join(split_mod(s, i, start, depth), ","@) == s.subrange(start, s.len() as int),
    decreases s.len() - i,
{
    if i >= s.len() {
    } else if s[i] == '(' {
        lemma_split_mod_join(s, i + 1, start, depth + 1);
    } else if s[i] == ')' {
        lemma_split_mod_join(s, i + 1, start, depth - 1);
    } else if s[i] == ',' && depth == 0 {
        lemma_split_mod_join(s, i + 1, i + 1, depth);
        let rest = split_mod(s, i + 1, i + 1, depth);
        lemma_join_cons(s.subrange(start, i), rest, ","@);
        reveal_strlit(",");
        assert(s.subrange(start, i) + ","@ + s.subrange(i + 1, s.len() as int) =~= s.subrange(start, s.len() as int));
    } else {
        lemma_split_mod_join(s, i + 1, start, depth);
    }
}

/// Splitting a type annotation at top-level commas loses nothing: joining the
/// pieces with commas gives the annotation back.
pub proof fn lemma_split_modifiers_join(s: Seq<char>)
    ensures
        join(split_modifiers_spec(s), ","@) == s,
{
    lemma_split_mod_join(s, 0, 0, 0);
    assert(s.subrange(0, s.len() as int) =~= s);
}

// ── How a resolution can fail ──

proof fn lemma_prefix_of_concat(a: Seq<char>, b: Seq<char>)
    ensures
        starts_with(a + b, a),
{
    assert((a + b).subrange(0, a.len() as int) =~= a);
}

/// A failed resolution reports either a circular reference or an unknown name
/// pattern, and says so at the start of its message.
pub proof fn lemma_resolve_failures(
    env: Env,
    toks: Seq<Seq<char>>,
    n: int,
    cur: Option<Seq<char>>,
    visited: Seq<Seq<char>>,
    t: Tree,
)
    ensures
        resolve_seq(env, toks, n, cur, visited, t) matches Outcome::Fail(m) ==> starts_with(
            m,
            "circular reference in grammar: "@,
        ) || starts_with(m, "unknown name pattern: "@),
    decreases unvisited(env.prods, visited), n,
{
    if 0 < n <= toks.len() {
        lemma_resolve_failures(env, toks, n - 1, cur, visited, t);
        match resolve_seq(env, toks, n - 1, cur, visited, t) {
            Outcome::Done(t1) => {
                let s = toks[n - 1];
                let (base, q) = split_quantifier_spec(s);
                if starts_with(s, h1_mark()) {
                } else if starts_with(s, h2_mark()) || starts_with(s, h3_mark()) {
                    match paren_arg(base) {
                        Outcome::Done(arg) => {
                            let pat = match arg {
                                Some(x) => x,
                                None => "ANY"@,
                            };
                            lemma_prefix_of_concat("unknown name pattern: "@, pat);
                        },
                        _ => {},
                    }
                } else if base == "prose"@ || base == "property"@ || base == "table"@ {
                } else {
                    match smap_index(env.prods, base, 0) {
                        Some(i) => if visited.contains(base) {
                            lemma_prefix_of_concat("circular reference in grammar: "@, base);
                        } else {
                            lemma_smap_index_found(env.prods, base, 0);
                            lemma_unvisited_push(env.prods, visited, base, i);
                            let body = env.prods[i].1;
                            lemma_resolve_failures(env, body, body.len() as int, Some(base), visited.push(base), t1);
                        },
                        None => {},
                    }
                }
            },
            _ => {},
        }
    }
}


// ── How many modifier pieces there are ──

/// Parenthesis depth before position `i`: opening minus closing parentheses in `s[..i]`.
pub open spec fn paren_depth(s: Seq<char>, i: int) -> int
    decreases i,
{
    if i <= 0 || i > s.len() {
        0
    } else {
        paren_depth(s, i - 1) + if s[i - 1] == '(' {
            1int
        } else if s[i - 1] == ')' {
            -1int
        } else {
            0int
        }
    }
}

/// How many of the first `n` positions of `s` hold a comma at parenthesis depth 0.
pub open spec fn top_level_commas(s: Seq<char>, n: int) -> nat
    decreases n,
{
    if n <= 0 || n > s.len() {
        0
    } else {
        top_level_commas(s, n - 1) + if s[n - 1] == ',' && paren_depth(s, n - 1) == 0 {
            1nat
        } else {
            0nat
        }
    }
}

proof fn lemma_split_mod_count(s: Seq<char>, i: int, start: int)
    requires
        0 <= start <= i <= s.len(),
    ensures
        split_mod(s, i, start, paren_depth(s, i)).len() == 1 + top_level_commas(s, s.len() as int)
            - top_level_commas(s, i),
    decreases s.len() - i,
{
    if i < s.len() {
        assert(paren_depth(s, i + 1) == paren_depth(s, i) + if s[i] == '(' {
            1int
        } else if s[i] == ')' {
            -1int
        } else {
            0int
        });
        if s[i] == ',' && paren_depth(s, i) == 0 {
            lemma_split_mod_count(s, i + 1, i + 1);
        } else {
            lemma_split_mod_count(s, i + 1, start);
        }
    }
}

/// `split_modifiers` gives one piece more than there are commas outside
/// parentheses (so `enum(a, b), required` gives two).
pub proof fn lemma_split_modifiers_count(s: Seq<char>)
    ensures
        split_modifiers_spec(s).len() == 1 + top_level_commas(s, s.len() as int),
{
    lemma_split_mod_count(s, 0, 0);
}


// ── What each heading pattern accepts ──

/// `snake_case`: a lowercase ASCII letter first, then lowercase letters, digits or `_`.
pub open spec fn snake_name(n: Seq<char>) -> bool {
    &&& n.len() > 0
    &&& 'a' <= n[0] <= 'z'
    &&& forall|i: int| 0 <= i < n.len() ==> ('a' <= #[trigger] n[i] <= 'z') || ('0' <= n[i] <= '9') || n[i] == '_'
}

/// `kebab-case`: a lowercase ASCII letter first, then lowercase letters, digits or `-`.
pub open spec fn kebab_name(n: Seq<char>) -> bool {
    &&& n.len() > 0
    &&& 'a' <= n[0] <= 'z'
    &&& forall|i: int| 0 <= i < n.len() ==> ('a' <= #[trigger] n[i] <= 'z') || ('0' <= n[i] <= '9') || n[i] == '-'
}

/// An identifier: an ASCII letter first, then ASCII letters, digits, `_` or `-`.
pub open spec fn ident_name(n: Seq<char>) -> bool {
    &&& n.len() > 0
    &&& ('a' <= n[0] <= 'z' || 'A' <= n[0] <= 'Z')
    &&& forall|i: int|
        0 <= i < n.len() ==> ('a' <= #[trigger] n[i] <= 'z') || ('A' <= n[i] <= 'Z') || ('0' <= n[i] <= '9')
            || n[i] == '_' || n[i] == '-'
}

/// Each pattern accepts exactly the names its kind describes: `SnakeCase` the
/// snake_case names (digits allowed after the first letter, as in `step_2`),
/// `KebabCase` the kebab-case names, `Ident` identifiers, `Exact(e)` only `e`,
/// and `Any` every name.
pub proof fn lemma_pattern_accepts(name: Seq<char>, e: Seq<char>)
    ensures
        pattern_matches(NamePatternView::SnakeCase, name) == snake_name(name),
        pattern_matches(NamePatternView::KebabCase, name) == kebab_name(name),
        pattern_matches(NamePatternView::Ident, name) == ident_name(name),
        pattern_matches(NamePatternView::Exact(e), name) == (name == e),
        pattern_matches(NamePatternView::Any, name),
{
}

/// The grammar's pattern words load as the pattern they name, so a grammar
/// written with `SNAKE_CASE`, `KEBAB_CASE` or `KEBAB-CASE`, `IDENT` or
/// `IDENTIFIER`, `ANY`, or a quoted name accepts exactly the names of that kind.
pub proof fn lemma_pattern_words(name: Seq<char>, quoted: Seq<char>)
    requires
        quoted.len() >= 2,
        quoted[0] == '"',
        quoted.last() == '"',
    ensures
        name_pattern_spec("SNAKE_CASE"@) matches Outcome::Done(p) && (pattern_matches(p, name) == snake_name(name)),
        name_pattern_spec("KEBAB_CASE"@) matches Outcome::Done(p) && (pattern_matches(p, name) == kebab_name(name)),
        name_pattern_spec("KEBAB-CASE"@) matches Outcome::Done(p) && (pattern_matches(p, name) == kebab_name(name)),
        name_pattern_spec("IDENT"@) matches Outcome::Done(p) && (pattern_matches(p, name) == ident_name(name)),
        name_pattern_spec("IDENTIFIER"@) matches Outcome::Done(p) && (pattern_matches(p, name) == ident_name(name)),
        name_pattern_spec("ANY"@) matches Outcome::Done(p) && pattern_matches(p, name),
        name_pattern_spec(quoted) matches Outcome::Done(p) && (pattern_matches(p, name) == (name == quoted.subrange(
            1,
            quoted.len() - 1,
        ))),
{
    reveal_strlit("SNAKE_CASE");
    reveal_strlit("KEBAB_CASE");
    reveal_strlit("KEBAB-CASE");
    reveal_strlit("IDENT");
    reveal_strlit("IDENTIFIER");
    reveal_strlit("ANY");
    assert("SNAKE_CASE"@[0] == 'S' && "KEBAB_CASE"@[0] == 'K' && "KEBAB-CASE"@[0] == 'K' && "IDENT"@[0] == 'I'
        && "IDENTIFIER"@[0] == 'I' && "ANY"@[0] == 'A');
    assert("KEBAB_CASE"@[5] != "KEBAB-CASE"@[5]);
    assert("IDENT"@.len() != "IDENTIFIER"@.len());
    assert(quoted != "SNAKE_CASE"@ && quoted != "KEBAB_CASE"@ && quoted != "KEBAB-CASE"@ && quoted != "IDENT"@
        && quoted != "IDENTIFIER"@ && quoted != "ANY"@);
}


} // verus!
