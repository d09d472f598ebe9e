//! The value type produced by directory traversal, and its order:
//! directories sort before files, and entries of the same kind sort by name,
//! ascending and case-sensitive. Only the directory flag and the name take
//! part in comparisons; path, icon and extension are payload.
use vstd::prelude::*;

use crate::strcmp::{
    lemma_str_le_trans, lemma_str_lt_asym, lemma_str_lt_connected, lemma_str_lt_irreflexive,
    str_le_chars, str_lt,
};

verus! {

/// One filesystem entry as reported to the host: display name, full path,
/// directory flag, icon resource tag, and extension.
pub struct Record {
    pub name: String,
    pub path: String,
    pub is_directory: bool,
    pub icon: String,
    pub ext: String,
}

/// The mathematical image of a `Record`: every string field as a character
/// sequence.
pub ghost struct RecordView {
    pub name: Seq<char>,
    pub path: Seq<char>,
    pub is_directory: bool,
    pub icon: Seq<char>,
    pub ext: Seq<char>,
}

impl View for Record {
    type V = RecordView;

    open spec fn view(&self) -> RecordView {
        RecordView {
            name: self.name@,
            path: self.path@,
            is_directory: self.is_directory,
            icon: self.icon@,
            ext: self.ext@,
        }
    }
}

/// Strict order on records: a directory precedes a file, and records of the
/// same kind compare by name.
pub open spec fn record_lt(a: RecordView, b: RecordView) -> bool {
    if a.is_directory != b.is_directory {
        a.is_directory
    } else {
        str_lt(a.name, b.name)
    }
}

/// Non-strict order on records; a total preorder. Two distinct records can
/// compare equal when they share the directory flag and the name.
pub open spec fn record_le(a: RecordView, b: RecordView) -> bool {
    !record_lt(b, a)
}

/// Comparison equality: the order ignores path, icon and extension.
pub open spec fn record_tie(a: RecordView, b: RecordView) -> bool {
    record_le(a, b) && record_le(b, a)
}

pub proof fn lemma_record_le_refl(a: RecordView)
    ensures
        record_le(a, a),
{
    lemma_str_lt_irreflexive(a.name);
}

pub proof fn lemma_record_le_total(a: RecordView, b: RecordView)
    ensures
        record_le(a, b) || record_le(b, a),
{
    if record_lt(a, b) && record_lt(b, a) {
        if a.is_directory == b.is_directory {
            lemma_str_lt_asym(a.name, b.name);
        }
    }
}

pub proof fn lemma_record_le_trans(a: RecordView, b: RecordView, c: RecordView)
    requires
        record_le(a, b),
        record_le(b, c),
    ensures
        record_le(a, c),
{
    if a.is_directory == b.is_directory && b.is_directory == c.is_directory {
        lemma_str_le_trans(a.name, b.name, c.name);
    }
}

/// Records that compare equal agree on the directory flag and the name.
pub proof fn lemma_record_tie(a: RecordView, b: RecordView)
    requires
        record_tie(a, b),
    ensures
        a.is_directory == b.is_directory,
        a.name == b.name,
{
    lemma_str_lt_connected(a.name, b.name);
}

impl Record {
    /// The order used by the merge sort, decided executably.
    pub fn le(&self, other: &Record) -> (r: bool)
        ensures
            r == record_le(self@, other@),
    {
        if self.is_directory != other.is_directory {
            self.is_directory
        } else {
            str_le_chars(self.name.as_str(), other.name.as_str())
        }
    }

    /// Equality as the original order understands it: the directory flag
    /// alone; all other fields are payload.
    pub fn eq(&self, other: &Record) -> (r: bool)
        ensures
            r == (self.is_directory == other.is_directory),
    {
        self.is_directory == other.is_directory
    }

    /// The partial order view of `cmp`: always decided.
    pub fn partial_cmp(&self, other: &Record) -> (o: Option<core::cmp::Ordering>)
        ensures
            o is Some,
            (o->Some_0 == core::cmp::Ordering::Less) == record_lt(self@, other@),
            (o->Some_0 == core::cmp::Ordering::Greater) == record_lt(other@, self@),
            (o->Some_0 == core::cmp::Ordering::Equal) == record_tie(self@, other@),
    {
        Some(self.cmp(other))
    }

    /// Three-way comparison: directories first, then names ascending.
    pub fn cmp(&self, other: &Record) -> (o: core::cmp::Ordering)
        ensures
            (o == core::cmp::Ordering::Less) == record_lt(self@, other@),
            (o == core::cmp::Ordering::Greater) == record_lt(other@, self@),
            (o == core::cmp::Ordering::Equal) == record_tie(self@, other@),
    {
        proof {
            lemma_record_le_total(self@, other@);
        }
        if self.is_directory != other.is_directory {
            if self.is_directory {
                core::cmp::Ordering::Less
            } else {
                core::cmp::Ordering::Greater
            }
        } else {
            if !str_le_chars(other.name.as_str(), self.name.as_str()) {
                core::cmp::Ordering::Less
            } else if !str_le_chars(self.name.as_str(), other.name.as_str()) {
                core::cmp::Ordering::Greater
            } else {
                core::cmp::Ordering::Equal
            }
        }
    }
}

/// The views of a sequence of records.
pub open spec fn views_of(s: Seq<Record>) -> Seq<RecordView> {
    s.map_values(|r: Record| r@)
}

} // verus!
