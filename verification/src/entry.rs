//! String table entry updates handed to rewriters.
use vstd::prelude::*;
use vstd::slice::slice_to_vec;
use crate::error::ParserError;

verus! {

/// The contents of a string table entry update.
pub struct EntryView {
    pub index: i32,
    pub key: Option<Seq<char>>,
    pub value: Option<Seq<u8>>,
    pub value_compressed: bool,
}

/// A change that the methods of an entry update make.
pub enum EntryEdit {
    /// `set_key`.
    SetKey(Seq<char>),
    /// `clear_key`.
    ClearKey,
    /// `set_value`.
    SetValue(Seq<u8>),
    /// `clear_value`.
    ClearValue,
    /// A write through `value_mut`, leaving these bytes.
    WriteValue(Seq<u8>),
}

impl EntryView {
    /// The entry after `edit`.
    pub open spec fn edited(self, edit: EntryEdit) -> EntryView {
        match edit {
            EntryEdit::SetKey(k) => EntryView { key: Some(k), ..self },
            EntryEdit::ClearKey => EntryView { key: None, ..self },
            EntryEdit::SetValue(v) => EntryView { value: Some(v), ..self },
            EntryEdit::ClearValue => EntryView { value: None, ..self },
            EntryEdit::WriteValue(v) => if self.value is Some {
                EntryView { value: Some(v), ..self }
            } else {
                self
            },
        }
    }
}

/// The entry after each of `edits` in turn.
pub open spec fn edits_applied(e: EntryView, edits: Seq<EntryEdit>) -> EntryView
    decreases edits.len(),
{
    if edits.len() == 0 {
        e
    } else {
        edits_applied(e, edits.drop_last()).edited(edits.last())
    }
}

/// No sequence of edits through an update's methods changes its index or
/// whether its value was compressed where it was read from.
pub proof fn edits_keep_index(e: EntryView, edits: Seq<EntryEdit>)
    ensures
        edits_applied(e, edits).index == e.index,
        edits_applied(e, edits).value_compressed == e.value_compressed,
    decreases edits.len(),
{
    if edits.len() > 0 {
        edits_keep_index(e, edits.drop_last());
    }
}

/// A mutable string table entry update passed to demo rewriters.
#[derive(Debug)]
pub struct StringTableEntryUpdate {
    index: i32,
    key: Option<String>,
    value: Option<Vec<u8>>,
    value_compressed: bool,
}

pub open spec fn opt_string_view(s: Option<String>) -> Option<Seq<char>> {
    match s {
        Some(k) => Some(k@),
        None => None,
    }
}

pub open spec fn opt_bytes_view(v: Option<Vec<u8>>) -> Option<Seq<u8>> {
    match v {
        Some(b) => Some(b@),
        None => None,
    }
}

impl View for StringTableEntryUpdate {
    type V = EntryView;

    closed spec fn view(&self) -> EntryView {
        EntryView {
            index: self.index,
            key: opt_string_view(self.key),
            value: opt_bytes_view(self.value),
            value_compressed: self.value_compressed,
        }
    }
}

/// Copies an optional string.
pub fn clone_opt_string(s: &Option<String>) -> (r: Option<String>)
    ensures
        opt_string_view(r) == opt_string_view(*s),
{
    match s {
        Some(k) => Some(k.clone()),
        None => None,
    }
}

/// Copies optional bytes.
pub fn clone_opt_bytes(v: &Option<Vec<u8>>) -> (r: Option<Vec<u8>>)
    ensures
        opt_bytes_view(r) == opt_bytes_view(*v),
{
    match v {
        Some(b) => Some(slice_to_vec(b.as_slice())),
        None => None,
    }
}

/// Whether two byte slices are equal.
pub fn bytes_eq(a: &[u8], b: &[u8]) -> (r: bool)
    ensures
        r == (a@ == b@),
{
    if a.len() != b.len() {
        return false;
    }
    let mut i: usize = 0;
    while i < a.len()
        invariant
            a@.len() == b@.len(),
            i <= a@.len(),
            forall|j: int| 0 <= j < i ==> a@[j] == b@[j],
        decreases a.len() - i,
    {
        if a[i] != b[i] {
            return false;
        }
        i = i + 1;
    }
    proof {
        assert(a@ =~= b@);
    }
    true
}

/// Whether two optional strings are equal.
pub fn opt_string_eq(a: &Option<String>, b: &Option<String>) -> (r: bool)
    ensures
        r == (opt_string_view(*a) == opt_string_view(*b)),
{
    match (a, b) {
        (Some(x), Some(y)) => x.eq(y),
        (None, None) => true,
        _ => false,
    }
}

/// Whether two optional byte strings are equal.
pub fn opt_bytes_eq(a: &Option<Vec<u8>>, b: &Option<Vec<u8>>) -> (r: bool)
    ensures
        r == (opt_bytes_view(*a) == opt_bytes_view(*b)),
{
    match (a, b) {
        (Some(x), Some(y)) => bytes_eq(x.as_slice(), y.as_slice()),
        (None, None) => true,
        _ => false,
    }
}

impl StringTableEntryUpdate {
    /// Creates an update whose value is not compressed.
    pub fn new(index: i32, key: Option<String>, value: Option<Vec<u8>>) -> (e: Self)
        ensures
            e@ == (EntryView {
                index,
                key: opt_string_view(key),
                value: opt_bytes_view(value),
                value_compressed: false,
            }),
    {
        StringTableEntryUpdate { index, key, value, value_compressed: false }
    }

    /// Creates an update, recording whether its value was compressed.
    pub fn new_with_compression(
        index: i32,
        key: Option<String>,
        value: Option<Vec<u8>>,
        value_compressed: bool,
    ) -> (e: Self)
        ensures
            e@ == (EntryView {
                index,
                key: opt_string_view(key),
                value: opt_bytes_view(value),
                value_compressed,
            }),
    {
        StringTableEntryUpdate { index, key, value, value_compressed }
    }

    /// Splits the update into its index, key and value.
    pub fn into_parts(self) -> (parts: (i32, Option<String>, Option<Vec<u8>>))
        ensures
            parts.0 == self@.index,
            opt_string_view(parts.1) == self@.key,
            opt_bytes_view(parts.2) == self@.value,
    {
        (self.index, self.key, self.value)
    }

    /// Returns the entry index in the table.
    pub fn index(&self) -> (i: i32)
        ensures
            i == self@.index,
    {
        self.index
    }

    /// Returns the entry key, if this update includes one.
    pub fn key(&self) -> (k: Option<&str>)
        ensures
            match k {
                Some(s) => self@.key == Some(s@),
                None => self@.key is None,
            },
    {
        match &self.key {
            Some(k) => Some(k.as_str()),
            None => None,
        }
    }

    /// Replaces the entry key.
    pub fn set_key(&mut self, key: String)
        ensures
            final(self)@ == (EntryView { key: Some(key@), ..old(self)@ }),
            final(self)@ == old(self)@.edited(EntryEdit::SetKey(key@)),
    {
        self.key = Some(key);
    }

    /// Clears the entry key from this update.
    pub fn clear_key(&mut self)
        ensures
            final(self)@ == (EntryView { key: None, ..old(self)@ }),
            final(self)@ == old(self)@.edited(EntryEdit::ClearKey),
    {
        self.key = None;
    }

    /// Returns the entry value bytes, if present.
    pub fn value(&self) -> (v: Option<&[u8]>)
        ensures
            match v {
                Some(b) => self@.value == Some(b@),
                None => self@.value is None,
            },
    {
        match &self.value {
            Some(v) => Some(v.as_slice()),
            None => None,
        }
    }

    /// Returns mutable entry value bytes, if present.
    pub fn value_mut(&mut self) -> (v: Option<&mut Vec<u8>>)
        ensures
            match old(self)@.value {
                None => v is None && final(self)@ == old(self)@,
                Some(b) => v is Some && (*v->0)@ == b && final(self)@ == (EntryView {
                    value: Some((*final(v->0))@),
                    ..old(self)@
                }),
            },
            v is Some ==> final(self)@ == old(self)@.edited(EntryEdit::WriteValue((*final(v->0))@)),
    {
        self.value.as_mut()
    }

    /// Replaces the entry value bytes.
    pub fn set_value(&mut self, value: Vec<u8>)
        ensures
            final(self)@ == (EntryView { value: Some(value@), ..old(self)@ }),
            final(self)@ == old(self)@.edited(EntryEdit::SetValue(value@)),
    {
        self.value = Some(value);
    }

    /// Clears the entry value from this update.
    pub fn clear_value(&mut self)
        ensures
            final(self)@ == (EntryView { value: None, ..old(self)@ }),
            final(self)@ == old(self)@.edited(EntryEdit::ClearValue),
    {
        self.value = None;
    }

    /// Whether the value was compressed where it was read from.
    pub fn value_compressed(&self) -> (b: bool)
        ensures
            b == self@.value_compressed,
    {
        self.value_compressed
    }

    /// A copy of this update.
    pub fn duplicate(&self) -> (e: Self)
        ensures
            e@ == self@,
    {
        StringTableEntryUpdate {
            index: self.index,
            key: clone_opt_string(&self.key),
            value: clone_opt_bytes(&self.value),
            value_compressed: self.value_compressed,
        }
    }
}

impl StringTableEntryUpdate {
    /// Whether two updates have the same key and value.
    pub fn same_contents(&self, other: &Self) -> (r: bool)
        ensures
            r == (self@.key == other@.key && self@.value == other@.value),
    {
        opt_string_eq(&self.key, &other.key) && opt_bytes_eq(&self.value, &other.value)
    }

    /// Whether two updates have the same key.
    pub fn same_key(&self, other: &Self) -> (r: bool)
        ensures
            r == (self@.key == other@.key),
    {
        opt_string_eq(&self.key, &other.key)
    }

    /// Whether two updates have the same value.
    pub fn same_value(&self, other: &Self) -> (r: bool)
        ensures
            r == (self@.value == other@.value),
    {
        opt_bytes_eq(&self.value, &other.value)
    }

    /// Whether the update holds a value.
    pub fn has_value(&self) -> (r: bool)
        ensures
            r == self@.value is Some,
    {
        self.value.is_some()
    }

    /// This update's index and compression flag with the key and value of
    /// `other`.
    pub fn with_contents_of(&self, other: Self) -> (e: Self)
        ensures
            e@ == (EntryView { key: other@.key, value: other@.value, ..self@ }),
    {
        StringTableEntryUpdate {
            index: self.index,
            key: other.key,
            value: other.value,
            value_compressed: self.value_compressed,
        }
    }
}

/// Rewrites string table entries one at a time.
pub trait EntryRewriter: Sized {
    /// Whether `rewrites` describes this rewriter. A rewriter that does not
    /// describe itself is promised nothing by the functions that call it.
    open spec fn obeys_rewrites() -> bool {
        false
    }

    /// What rewriting `entry` does from this state, where the rewriter
    /// describes itself: the entry it leaves, or the error it fails with,
    /// and the state it moves to.
    open spec fn rewrites(&self, entry: EntryView) -> (Result<EntryView, ParserError>, Self) {
        (Ok(entry), *self)
    }

    /// Rewrites one decoded entry in place.
    fn rewrite_entry(&mut self, entry: &mut StringTableEntryUpdate) -> (r: Result<(), ParserError>)
        ensures
            Self::obeys_rewrites() ==> ({
                let (res, next) = old(self).rewrites(old(entry)@);
                &&& *final(self) == next
                &&& match res {
                    Ok(e) => r is Ok && final(entry)@ == e,
                    Err(err) => r == Err::<(), ParserError>(err),
                }
            }),
    ;
}


} // verus!
