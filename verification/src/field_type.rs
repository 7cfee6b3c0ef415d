//! Parsing the type names of networked entity fields.
use vstd::prelude::*;
use vstd::string::StrSliceExecFns;
use crate::text::{
    chars_of, find_char, first_index, last_index, lemma_index_before_found, lemma_index_from_found, rfind_char,
    text_eq,
};

verus! {

/// Whether `c` has the Unicode `White_Space` property, as
/// `char::is_whitespace` tests.
pub open spec fn is_white_space(c: char) -> bool {
    ('\u{9}' <= c <= '\u{d}') || c == ' ' || c == '\u{85}' || c == '\u{a0}' || c == '\u{1680}'
        || ('\u{2000}' <= c <= '\u{200a}') || c == '\u{2028}' || c == '\u{2029}' || c == '\u{202f}'
        || c == '\u{205f}' || c == '\u{3000}'
}

/// The text without its leading whitespace.
pub open spec fn trimmed_start(s: Seq<char>) -> Seq<char>
    decreases s.len(),
{
    if s.len() > 0 && is_white_space(s[0]) {
        trimmed_start(s.drop_first())
    } else {
        s
    }
}

/// The text without its trailing whitespace.
pub open spec fn trimmed_end(s: Seq<char>) -> Seq<char>
    decreases s.len(),
{
    if s.len() > 0 && is_white_space(s.last()) {
        trimmed_end(s.drop_last())
    } else {
        s
    }
}

/// What `str::trim` gives: the text without leading and trailing
/// whitespace.
pub open spec fn trimmed(s: Seq<char>) -> Seq<char> {
    trimmed_end(trimmed_start(s))
}

/// Whether `c` is whitespace, as `char::is_whitespace` tells.
fn white_space(c: char) -> (r: bool)
    ensures
        r == is_white_space(c),
{
    ('\u{9}' <= c && c <= '\u{d}') || c == ' ' || c == '\u{85}' || c == '\u{a0}' || c == '\u{1680}'
        || ('\u{2000}' <= c && c <= '\u{200a}') || c == '\u{2028}' || c == '\u{2029}' || c == '\u{202f}'
        || c == '\u{205f}' || c == '\u{3000}'
}

/// The text without leading and trailing whitespace, as `str::trim`
/// gives it.
fn trim_text<'a>(s: &'a str) -> (r: &'a str)
    ensures
        r@ == trimmed(s@),
        r@.len() <= s@.len(),
{
    let n = s.unicode_len();
    let mut start: usize = 0;
    proof {
        assert(s@.subrange(0, n as int) =~= s@);
    }
    while start < n && white_space(s.get_char(start))
        invariant
            n == s@.len(),
            start <= n,
            trimmed_start(s@) == trimmed_start(s@.subrange(start as int, n as int)),
        decreases n - start,
    {
        proof {
            let t = s@.subrange(start as int, n as int);
            assert(t[0] == s@[start as int]);
            assert(t.drop_first() =~= s@.subrange(start + 1, n as int));
        }
        start = start + 1;
    }
    let ghost t = s@.subrange(start as int, n as int);
    proof {
        if start < n {
            assert(t[0] == s@[start as int]);
        }
        assert(trimmed_start(s@) == t);
        assert(t.subrange(0, t.len() as int) =~= t);
    }
    let mut end: usize = n;
    while end > start && white_space(s.get_char(end - 1))
        invariant
            n == s@.len(),
            start <= end <= n,
            t == s@.subrange(start as int, n as int),
            trimmed_end(t) == trimmed_end(s@.subrange(start as int, end as int)),
        decreases end - start,
    {
        proof {
            let u = s@.subrange(start as int, end as int);
            assert(u.last() == s@[end - 1]);
            assert(u.drop_last() =~= s@.subrange(start as int, end - 1));
        }
        end = end - 1;
    }
    proof {
        let u = s@.subrange(start as int, end as int);
        if end > start {
            assert(u.last() == s@[end - 1]);
        }
        assert(trimmed_end(t) == u);
    }
    s.substring_char(start, end)
}

/// The value of a sequence of decimal digits.
pub open spec fn decimal_value(ds: Seq<char>) -> int
    decreases ds.len(),
{
    if ds.len() == 0 {
        0
    } else {
        10 * decimal_value(ds.drop_last()) + (ds.last() as int - '0' as int)
    }
}

/// Whether `ds` is a non-empty sequence of decimal digits.
pub open spec fn all_digits(ds: Seq<char>) -> bool {
    ds.len() > 0 && forall|i: int| 0 <= i < ds.len() ==> '0' as int <= #[trigger] ds[i] as int <= '9' as int
}

/// What `str::parse::<i32>` gives: an optional `+` or `-` sign followed
/// by decimal digits, within the range of `i32`.
pub open spec fn decimal_i32(s: Seq<char>) -> Option<i32> {
    let signed = s.len() > 0 && (s[0] == '-' || s[0] == '+');
    let ds = if signed { s.drop_first() } else { s };
    let v = if signed && s[0] == '-' { -decimal_value(ds) } else { decimal_value(ds) };
    if all_digits(ds) && i32::MIN <= v <= i32::MAX {
        Some(v as i32)
    } else {
        None
    }
}

/// A longer run of digits has at least the value of its prefix.
proof fn lemma_decimal_value_grows(ds: Seq<char>, k: int)
    requires
        0 <= k <= ds.len(),
        forall|i: int| 0 <= i < ds.len() ==> '0' as int <= #[trigger] ds[i] as int <= '9' as int,
    ensures
        0 <= decimal_value(ds.take(k)) <= decimal_value(ds),
    decreases ds.len(),
{
    if k == ds.len() {
        assert(ds.take(k) =~= ds);
        if ds.len() > 0 {
            lemma_decimal_value_grows(ds.drop_last(), ds.len() - 1);
            assert(ds.drop_last().take(ds.len() - 1) =~= ds.drop_last());
        }
    } else {
        lemma_decimal_value_grows(ds.drop_last(), k);
        assert(ds.drop_last().take(k) =~= ds.take(k));
        lemma_decimal_value_grows(ds.drop_last(), ds.len() - 1);
        assert(ds.drop_last().take(ds.len() - 1) =~= ds.drop_last());
    }
}

/// Parses an `i32` as `str::parse::<i32>` does: an optional `+` or `-`
/// sign followed by decimal digits, the value within range.
fn parse_i32(s: &str) -> (r: Option<i32>)
    ensures
        r == decimal_i32(s@),
{
    let cs = crate::text::chars_of(s);
    let n = cs.len();
    let signed = n > 0 && (cs[0] == '-' || cs[0] == '+');
    let negative = n > 0 && cs[0] == '-';
    let start: usize = if signed { 1 } else { 0 };
    let ghost ds = if signed { s@.drop_first() } else { s@ };
    proof {
        assert(signed == (s@.len() > 0 && (s@[0] == '-' || s@[0] == '+')));
        assert(negative == (signed && s@[0] == '-'));
    }
    if start >= n {
        proof {
            assert(ds.len() == 0);
        }
        return None;
    }
    let mut acc: i64 = 0;
    let mut i: usize = start;
    while i < n
        invariant
            cs@ == s@,
            n == cs@.len(),
            signed == (s@.len() > 0 && (s@[0] == '-' || s@[0] == '+')),
            negative == (signed && s@[0] == '-'),
            ds == if signed { s@.drop_first() } else { s@ },
            start <= i <= n,
            start < n,
            ds == cs@.subrange(start as int, n as int),
            0 <= acc <= 2147483648,
            acc == decimal_value(ds.take(i - start)),
            forall|j: int| 0 <= j < i - start ==> '0' as int <= #[trigger] ds[j] as int <= '9' as int,
        decreases n - i,
    {
        let c = cs[i];
        proof {
            assert(ds[i - start] == c);
            assert(ds.take(i - start + 1).drop_last() =~= ds.take(i - start));
        }
        if !('0' <= c && c <= '9') {
            proof {
                assert(!all_digits(ds));
            }
            return None;
        }
        let d = (c as u32 - '0' as u32) as i64;
        acc = acc * 10 + d;
        i = i + 1;
        if acc > 2147483648 {
            proof {
                let k = i - start;
                if all_digits(ds) {
                    lemma_decimal_value_grows(ds, k as int);
                }
            }
            return None;
        }
    }
    proof {
        assert(ds.take(n - start) =~= ds);
        assert(all_digits(ds));
    }
    let v: i64 = if negative { -acc } else { acc };
    if v < -2147483648 || v > 2147483647 {
        return None;
    }
    Some(v as i32)
}

/// Type names that are pointers although they are written without `*`.
pub open spec fn pointer_component(name: Seq<char>) -> bool {
    name == "CBodyComponent"@ || name == "CLightComponent"@ || name == "CPhysicsComponent"@
        || name == "CRenderComponent"@ || name == "CPlayerLocalData"@
}

/// The element count written between brackets: a named constant or a
/// decimal number.
pub open spec fn array_count(s: Seq<char>) -> Option<i32> {
    if s == "MAX_ITEM_STOCKS"@ {
        Some(8)
    } else if s == "MAX_ABILITY_DRAFT_ABILITIES"@ {
        Some(48)
    } else if s == "DOTA_ABILITY_DRAFT_HEROES_PER_GAME"@ {
        Some(10)
    } else {
        decimal_i32(s)
    }
}

/// The parts of a field type name.
pub struct FieldTypeView {
    pub base: Seq<char>,
    pub generic: Option<Box<FieldTypeView>>,
    pub pointer: bool,
    pub count: Option<i32>,
}

/// The field type that `name` spells, reading at most `depth` nested
/// generic arguments: a base name, an optional generic argument between
/// the first `<` and the last `>`, a pointer flag for a trailing `*` or a
/// known component, and an optional count between the first `[` and the
/// first `]`. `None` when a bracket is unclosed or closed before it opens,
/// the count is not a number, or the generic argument does not parse.
pub open spec fn field_type_at(name: Seq<char>, depth: nat) -> Option<FieldTypeView>
    decreases depth,
{
    let n = name.len() as int;
    let star = n > 0 && name[n - 1] == '*';
    let pointer = star || pointer_component(name);
    let end0: int = if star { n - 1 } else { n };
    let bracket: Option<(Option<i32>, int)> = match first_index(name, '[') {
        None => Some((None, end0)),
        Some(o) => match first_index(name, ']') {
            None => None,
            Some(c) => if o + 1 <= c {
                match array_count(name.subrange(o + 1, c)) {
                    Some(k) => Some((Some(k), o)),
                    None => None,
                }
            } else {
                None
            },
        },
    };
    match bracket {
        None => None,
        Some((count, end1)) => match first_index(name, '<') {
            None => Some(FieldTypeView { base: trimmed(name.take(end1)), generic: None, pointer, count }),
            Some(oa) => match last_index(name, '>') {
                None => None,
                Some(ca) => if oa + 1 <= ca && depth > 0 {
                    match field_type_at(trimmed(name.subrange(oa + 1, ca)), (depth - 1) as nat) {
                        Some(g) => Some(
                            FieldTypeView { base: trimmed(name.take(oa)), generic: Some(Box::new(g)), pointer, count },
                        ),
                        None => None,
                    }
                } else {
                    None
                },
            },
        },
    }
}

/// The field type that `name` spells.
pub open spec fn field_type_of(name: Seq<char>) -> Option<FieldTypeView> {
    field_type_at(name, name.len())
}

/// A field type is a pointer exactly when its name ends in `*` or is one of
/// the components `CBodyComponent`, `CLightComponent`, `CPhysicsComponent`,
/// `CRenderComponent` and `CPlayerLocalData`.
pub proof fn pointer_types(name: Seq<char>)
    requires
        field_type_of(name) is Some,
    ensures
        field_type_of(name)->Some_0.pointer <==> ((name.len() > 0 && name.last() == '*') || name
            == "CBodyComponent"@ || name == "CLightComponent"@ || name == "CPhysicsComponent"@ || name
            == "CRenderComponent"@ || name == "CPlayerLocalData"@),
{
}

/// The type of a networked entity field, parsed from its name.
#[derive(Debug)]
pub struct FieldType {
    pub base: String,
    pub generic: Option<Box<FieldType>>,
    pub pointer: bool,
    pub count: Option<i32>,
}

/// The parts of a field type.
pub open spec fn field_type_view(t: FieldType) -> FieldTypeView
    decreases t,
{
    FieldTypeView {
        base: t.base@,
        generic: match t.generic {
            Some(g) => Some(Box::new(field_type_view(*g))),
            None => None,
        },
        pointer: t.pointer,
        count: t.count,
    }
}

/// Whether `name` is one of the components that are pointers.
fn is_pointer_component(name: &str) -> (r: bool)
    ensures
        r == pointer_component(name@),
{
    text_eq(name, "CBodyComponent") || text_eq(name, "CLightComponent") || text_eq(name, "CPhysicsComponent")
        || text_eq(name, "CRenderComponent") || text_eq(name, "CPlayerLocalData")
}

/// Reads an element count.
fn read_array_count(s: &str) -> (r: Option<i32>)
    ensures
        r == array_count(s@),
{
    if text_eq(s, "MAX_ITEM_STOCKS") {
        Some(8)
    } else if text_eq(s, "MAX_ABILITY_DRAFT_ABILITIES") {
        Some(48)
    } else if text_eq(s, "DOTA_ABILITY_DRAFT_HEROES_PER_GAME") {
        Some(10)
    } else {
        parse_i32(s)
    }
}

fn parse_field_type(name: &str, Ghost(depth): Ghost<nat>) -> (r: Option<FieldType>)
    requires
        depth >= name@.len(),
    ensures
        match field_type_at(name@, depth) {
            Some(v) => r matches Some(t) && field_type_view(t) == v,
            None => r is None,
        },
    decreases depth,
{
    let cs = chars_of(name);
    let n = cs.len();
    let star = n > 0 && cs[n - 1] == '*';
    let pointer = star || is_pointer_component(name);
    let mut base_end: usize = if star { n - 1 } else { n };
    let mut count: Option<i32> = None;
    proof {
        lemma_index_from_found(cs@, '[', 0);
        lemma_index_from_found(cs@, ']', 0);
        lemma_index_from_found(cs@, '<', 0);
        lemma_index_before_found(cs@, '>', cs@.len() as int);
    }
    match find_char(&cs, '[') {
        None => {},
        Some(o) => {
            match find_char(&cs, ']') {
                None => return None,
                Some(c) => {
                    if o + 1 > c {
                        return None;
                    }
                    match read_array_count(name.substring_char(o + 1, c)) {
                        None => return None,
                        Some(k) => {
                            count = Some(k);
                            base_end = o;
                        },
                    }
                },
            }
        },
    }
    let mut generic: Option<Box<FieldType>> = None;
    match find_char(&cs, '<') {
        None => {},
        Some(oa) => {
            match rfind_char(&cs, '>') {
                None => return None,
                Some(ca) => {
                    if oa + 1 > ca {
                        return None;
                    }
                    let inner = trim_text(name.substring_char(oa + 1, ca));
                    match parse_field_type(inner, Ghost((depth - 1) as nat)) {
                        None => return None,
                        Some(g) => {
                            generic = Some(Box::new(g));
                            base_end = oa;
                        },
                    }
                },
            }
        },
    }
    let base = trim_text(name.substring_char(0, base_end)).to_owned();
    proof {
        assert(name@.subrange(0, base_end as int) =~= name@.take(base_end as int));
    }
    Some(FieldType { base, generic, pointer, count })
}

impl FieldType {
    /// Parses a field type name.
    pub fn new(name: &str) -> (t: Self)
        requires
            field_type_of(name@) is Some,
        ensures
            Some(field_type_view(t)) == field_type_of(name@),
    {
        match parse_field_type(name, Ghost(name@.len())) {
            Some(t) => t,
            None => {
                proof {
                    assert(false);
                }
                FieldType { base: String::new(), generic: None, pointer: false, count: None }
            },
        }
    }

    /// Parses a field type name, or gives `None` for a name that does not
    /// spell a field type.
    pub fn try_new(name: &str) -> (r: Option<Self>)
        ensures
            match field_type_of(name@) {
                Some(v) => r matches Some(t) && field_type_view(t) == v,
                None => r is None,
            },
    {
        match parse_field_type(name, Ghost(name@.len())) {
            Some(_) => Some(Self::new(name)),
            None => None,
        }
    }
}

} // verus!
