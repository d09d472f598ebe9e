//! Recursive substring search over an in-memory directory tree.
//!
//! Enumeration of a real filesystem is the application's business; the tree
//! handed in records, per directory, either its entries or the message of
//! the enumeration failure. A failed branch contributes an error and no
//! records, and never hides its siblings. Two traversal strategies are
//! provided: `search` visits a directory's children before the directory's
//! own match, as a depth-first scan does, and `search2` takes the own-level
//! match first and appends what the children report, as a worker-pool
//! fan-out does. Both return the same sorted records.
use vstd::prelude::*;

use crate::record::{views_of, Record, RecordView};
use crate::sort::{sort, sort_spec};
use crate::strcmp::{contains_substr, name_matches, str_equal};

verus! {

/// What the directory-entry adapter reports for one entry: display name,
/// extension, full path, and whether the entry is itself a directory.
pub struct RawEntry {
    pub name: String,
    pub ext: String,
    pub path: String,
    pub is_directory: bool,
}

/// One entry of the in-memory tree: its adapter data and, when it is a
/// directory, the outcome of enumerating it. The children of a non-directory
/// are ignored.
pub struct TreeEntry {
    pub info: RawEntry,
    pub children: ListOutcome,
}

/// The outcome of enumerating one directory: its entries, or the message of
/// the failure (missing path, permission denied).
pub enum ListOutcome {
    Listed(Vec<TreeEntry>),
    Failed(String),
}

/// Injected icon configuration: extension keyed pairs, tried in order, with
/// a fallback for unrecognized extensions. The key `"dir"` is reserved for
/// directories.
pub struct IconTable {
    pub entries: Vec<(String, String)>,
    pub default_icon: String,
}

/// An enumeration failure attached to the branch it struck.
pub struct SearchError {
    pub path: String,
    pub message: String,
}

/// The mathematical image of a `SearchError`.
pub ghost struct ErrorView {
    pub path: Seq<char>,
    pub message: Seq<char>,
}

impl View for SearchError {
    type V = ErrorView;

    open spec fn view(&self) -> ErrorView {
        ErrorView { path: self.path@, message: self.message@ }
    }
}

/// The views of a sequence of search errors.
pub open spec fn err_views_of(s: Seq<SearchError>) -> Seq<ErrorView> {
    s.map_values(|e: SearchError| e@)
}

/// What one search returns: every matching record, sorted, and the
/// enumeration failures met along the way.
pub struct SearchOutcome {
    pub records: Vec<Record>,
    pub errors: Vec<SearchError>,
}

/// The first icon paired with `key`, or the fallback.
pub open spec fn icon_lookup(entries: Seq<(String, String)>, key: Seq<char>, dflt: Seq<char>) -> Seq<
    char,
>
    decreases entries.len(),
{
    if entries.len() == 0 {
        dflt
    } else if entries.first().0@ == key {
        entries.first().1@
    } else {
        icon_lookup(entries.drop_first(), key, dflt)
    }
}

/// The characters after the last `'.'` of `name`, or all of `name` when it
/// holds no `'.'`.
pub open spec fn last_dot_segment(name: Seq<char>) -> Seq<char>
    decreases name.len(),
{
    if name.len() == 0 {
        name
    } else if name.last() == '.' {
        Seq::empty()
    } else {
        last_dot_segment(name.drop_last()).push(name.last())
    }
}

/// The icon chosen for an entry: the reserved `"dir"` key for directories,
/// otherwise the segment of the display name after its last dot.
pub open spec fn icon_of(t: IconTable, name: Seq<char>, is_dir: bool) -> Seq<char> {
    if is_dir {
        icon_lookup(t.entries@, "dir"@, t.default_icon@)
    } else {
        icon_lookup(t.entries@, last_dot_segment(name), t.default_icon@)
    }
}

/// The record a traversal produces for one adapter entry.
pub open spec fn record_view_of(e: RawEntry, t: IconTable) -> RecordView {
    RecordView {
        name: e.name@,
        path: e.path@,
        is_directory: e.is_directory,
        icon: icon_of(t, e.name@, e.is_directory),
        ext: e.ext@,
    }
}

proof fn lemma_icon_lookup_skip(entries: Seq<(String, String)>, key: Seq<char>, dflt: Seq<char>, k: int)
    requires
        0 <= k <= entries.len(),
        forall|j: int| 0 <= j < k ==> entries[j].0@ != key,
    ensures
        icon_lookup(entries, key, dflt) == icon_lookup(entries.skip(k), key, dflt),
    decreases k,
{
    if k > 0 {
        lemma_icon_lookup_skip(entries.drop_first(), key, dflt, k - 1);
        assert(entries.drop_first().skip(k - 1) =~= entries.skip(k));
        assert(forall|j: int| 0 <= j < k - 1 ==> entries.drop_first()[j] == entries[j + 1]);
    } else {
        assert(entries.skip(0) =~= entries);
    }
}

fn lookup_icon(t: &IconTable, key: &str) -> (r: String)
    ensures
        r@ == icon_lookup(t.entries@, key@, t.default_icon@),
{
    let n = t.entries.len();
    let mut i: usize = 0;
    while i < n
        invariant
            i <= n,
            n == t.entries@.len(),
            forall|j: int| 0 <= j < i ==> t.entries@[j].0@ != key@,
        decreases n - i,
    {
        if str_equal(t.entries[i].0.as_str(), key) {
            proof {
                lemma_icon_lookup_skip(t.entries@, key@, t.default_icon@, i as int);
                assert(t.entries@.skip(i as int).first() == t.entries@[i as int]);
            }
            return t.entries[i].1.clone();
        }
        i += 1;
    }
    proof {
        lemma_icon_lookup_skip(t.entries@, key@, t.default_icon@, n as int);
        assert(t.entries@.skip(n as int).len() == 0);
    }
    t.default_icon.clone()
}

proof fn lemma_last_seg_after_dot(s: Seq<char>, d: int)
    requires
        0 <= d < s.len(),
        s[d] == '.',
        forall|j: int| d < j < s.len() ==> s[j] != '.',
    ensures
        last_dot_segment(s) == s.subrange(d + 1, s.len() as int),
    decreases s.len(),
{
    if d == s.len() - 1 {
        assert(s.last() == '.');
        assert(s.subrange(d + 1, s.len() as int) =~= Seq::<char>::empty());
    } else {
        assert(s.last() != '.');
        assert(s.drop_last()[d] == s[d]);
        assert(forall|j: int| d < j < s.drop_last().len() ==> s.drop_last()[j] == s[j]);
        lemma_last_seg_after_dot(s.drop_last(), d);
        assert(s.drop_last().subrange(d + 1, s.len() - 1).push(s.last()) =~= s.subrange(
            d + 1,
            s.len() as int,
        ));
    }
}

proof fn lemma_last_seg_no_dot(s: Seq<char>)
    requires
        forall|j: int| 0 <= j < s.len() ==> s[j] != '.',
    ensures
        last_dot_segment(s) == s,
    decreases s.len(),
{
    if s.len() > 0 {
        assert(forall|j: int| 0 <= j < s.drop_last().len() ==> s.drop_last()[j] == s[j]);
        lemma_last_seg_no_dot(s.drop_last());
        assert(s.drop_last().push(s.last()) =~= s);
    }
}

fn last_segment<'a>(name: &'a str) -> (r: &'a str)
    ensures
        r@ == last_dot_segment(name@),
{
    let n = name.unicode_len();
    let mut i: usize = n;
    while i > 0
        invariant
            i <= n,
            n == name@.len(),
            forall|j: int| i <= j < n ==> name@[j] != '.',
        decreases i,
    {
        if name.get_char(i - 1) == '.' {
            let r = name.substring_char(i, n);
            proof {
                lemma_last_seg_after_dot(name@, i - 1);
            }
            return r;
        }
        i -= 1;
    }
    proof {
        lemma_last_seg_no_dot(name@);
    }
    name
}

/// The icon for a display name: the reserved `"dir"` entry for directories,
/// otherwise the table entry for the name's last dot segment, defaulting
/// when no entry has that key.
pub fn get_icon_for_file(file_name: &str, is_dir: bool, icons: &IconTable) -> (r: String)
    ensures
        r@ == icon_of(*icons, file_name@, is_dir),
{
    if is_dir {
        lookup_icon(icons, "dir")
    } else {
        let seg = last_segment(file_name);
        lookup_icon(icons, seg)
    }
}

/// Builds the record reported for one adapter entry.
pub fn make_record(e: &RawEntry, icons: &IconTable) -> (r: Record)
    ensures
        r@ == record_view_of(*e, *icons),
{
    let icon = get_icon_for_file(e.name.as_str(), e.is_directory, icons);
    Record {
        name: e.name.clone(),
        path: e.path.clone(),
        is_directory: e.is_directory,
        icon,
        ext: e.ext.clone(),
    }
}

/// The records a depth-first scan collects for one entry: what the children
/// yield, then the entry's own match.
pub open spec fn gather_entry(sub: Seq<char>, e: TreeEntry, t: IconTable) -> Seq<RecordView>
    decreases e,
{
    let from_children = if e.info.is_directory {
        match e.children {
            ListOutcome::Listed(v) => gather_list(sub, v@, t),
            ListOutcome::Failed(_) => Seq::empty(),
        }
    } else {
        Seq::empty()
    };
    if name_matches(e.info.name@, sub) {
        from_children.push(record_view_of(e.info, t))
    } else {
        from_children
    }
}

/// The records a depth-first scan collects for a run of sibling entries.
pub open spec fn gather_list(sub: Seq<char>, s: Seq<TreeEntry>, t: IconTable) -> Seq<RecordView>
    decreases s,
{
    if s.len() == 0 {
        Seq::empty()
    } else {
        gather_entry(sub, s.first(), t) + gather_list(sub, s.drop_first(), t)
    }
}

/// The enumeration failures below one entry.
pub open spec fn errors_entry(e: TreeEntry) -> Seq<ErrorView>
    decreases e,
{
    if e.info.is_directory {
        match e.children {
            ListOutcome::Listed(v) => errors_list(v@),
            ListOutcome::Failed(m) => seq![ErrorView { path: e.info.path@, message: m@ }],
        }
    } else {
        Seq::empty()
    }
}

/// The enumeration failures below a run of sibling entries.
pub open spec fn errors_list(s: Seq<TreeEntry>) -> Seq<ErrorView>
    decreases s,
{
    if s.len() == 0 {
        Seq::empty()
    } else {
        errors_entry(s.first()) + errors_list(s.drop_first())
    }
}

/// The records to report for a whole tree: nothing when the root could not
/// be enumerated.
pub open spec fn gather_root(sub: Seq<char>, root: ListOutcome, t: IconTable) -> Seq<RecordView> {
    match root {
        ListOutcome::Listed(v) => gather_list(sub, v@, t),
        ListOutcome::Failed(_) => Seq::empty(),
    }
}

/// The failures to report for a whole tree.
pub open spec fn errors_root(root_path: Seq<char>, root: ListOutcome) -> Seq<ErrorView> {
    match root {
        ListOutcome::Listed(v) => errors_list(v@),
        ListOutcome::Failed(m) => seq![ErrorView { path: root_path, message: m@ }],
    }
}

proof fn lemma_gather_list_concat(sub: Seq<char>, a: Seq<TreeEntry>, b: Seq<TreeEntry>, t: IconTable)
    ensures
        gather_list(sub, a + b, t) == gather_list(sub, a, t) + gather_list(sub, b, t),
    decreases a.len(),
{
    if a.len() == 0 {
        assert(a + b =~= b);
        assert(Seq::<RecordView>::empty() + gather_list(sub, b, t) =~= gather_list(sub, b, t));
    } else {
        assert((a + b).first() == a.first());
        assert((a + b).drop_first() =~= a.drop_first() + b);
        lemma_gather_list_concat(sub, a.drop_first(), b, t);
        assert(gather_entry(sub, a.first(), t) + (gather_list(sub, a.drop_first(), t) + gather_list(
            sub,
            b,
            t,
        )) =~= (gather_entry(sub, a.first(), t) + gather_list(sub, a.drop_first(), t))
            + gather_list(sub, b, t));
    }
}

proof fn lemma_errors_list_concat(a: Seq<TreeEntry>, b: Seq<TreeEntry>)
    ensures
        errors_list(a + b) == errors_list(a) + errors_list(b),
    decreases a.len(),
{
    if a.len() == 0 {
        assert(a + b =~= b);
        assert(Seq::<ErrorView>::empty() + errors_list(b) =~= errors_list(b));
    } else {
        assert((a + b).first() == a.first());
        assert((a + b).drop_first() =~= a.drop_first() + b);
        lemma_errors_list_concat(a.drop_first(), b);
        assert(errors_entry(a.first()) + (errors_list(a.drop_first()) + errors_list(b)) =~= (
        errors_entry(a.first()) + errors_list(a.drop_first())) + errors_list(b));
    }
}

proof fn lemma_single_entry(sub: Seq<char>, e: TreeEntry, t: IconTable)
    ensures
        gather_list(sub, seq![e], t) == gather_entry(sub, e, t),
        errors_list(seq![e]) == errors_entry(e),
{
    let s = seq![e];
    assert(s.len() == 1);
    assert(s.first() == e);
    assert(s.drop_first() =~= Seq::<TreeEntry>::empty());
    assert(gather_list(sub, s.drop_first(), t) == Seq::<RecordView>::empty());
    assert(errors_list(s.drop_first()) == Seq::<ErrorView>::empty());
    assert(gather_list(sub, s, t) == gather_entry(sub, e, t) + gather_list(sub, s.drop_first(), t));
    assert(errors_list(s) == errors_entry(e) + errors_list(s.drop_first()));
    assert(gather_entry(sub, e, t) + Seq::<RecordView>::empty() =~= gather_entry(sub, e, t));
    assert(errors_entry(e) + Seq::<ErrorView>::empty() =~= errors_entry(e));
}

fn search_list(sub: &str, entries: &Vec<TreeEntry>, icons: &IconTable) -> (out: (
    Vec<Record>,
    Vec<SearchError>,
))
    ensures
        views_of(out.0@) == gather_list(sub@, entries@, *icons),
        err_views_of(out.1@) == errors_list(entries@),
    decreases entries@,
{
    let mut records: Vec<Record> = Vec::new();
    let mut errors: Vec<SearchError> = Vec::new();
    proof {
        assert(views_of(records@) =~= gather_list(sub@, entries@.subrange(0, 0), *icons)) by {
            assert(entries@.subrange(0, 0) =~= Seq::<TreeEntry>::empty());
        }
        assert(err_views_of(errors@) =~= errors_list(entries@.subrange(0, 0)));
    }
    let n = entries.len();
    let mut i: usize = 0;
    while i < n
        invariant
            i <= n,
            n == entries@.len(),
            views_of(records@) == gather_list(sub@, entries@.subrange(0, i as int), *icons),
            err_views_of(errors@) == errors_list(entries@.subrange(0, i as int)),
        decreases n - i,
    {
        let ghost vrec = views_of(records@);
        let ghost verr = err_views_of(errors@);
        let ghost e_g = entries@[i as int];
        let e = &entries[i];
        if e.info.is_directory {
            match &e.children {
                ListOutcome::Listed(v) => {
                    proof {
                        assert(decreases_to!(entries@ => v@));
                    }
                    let (mut rs, mut es) = search_list(sub, v, icons);
                    let ghost vrs = views_of(rs@);
                    let ghost ves = err_views_of(es@);
                    records.append(&mut rs);
                    errors.append(&mut es);
                    proof {
                        assert(views_of(records@) =~= vrec + vrs);
                        assert(err_views_of(errors@) =~= verr + ves);
                    }
                }
                ListOutcome::Failed(m) => {
                    errors.push(SearchError { path: e.info.path.clone(), message: m.clone() });
                    proof {
                        assert(err_views_of(errors@) =~= verr + errors_entry(e_g));
                    }
                }
            }
        }
        let ghost vrec2 = views_of(records@);
        if contains_substr(e.info.name.as_str(), sub) {
            let rec = make_record(&e.info, icons);
            records.push(rec);
            proof {
                assert(views_of(records@) =~= vrec2.push(record_view_of(e_g.info, *icons)));
            }
        }
        proof {
            assert(views_of(records@) =~= vrec + gather_entry(sub@, e_g, *icons));
            assert(err_views_of(errors@) =~= verr + errors_entry(e_g));
            lemma_gather_list_concat(sub@, entries@.subrange(0, i as int), seq![e_g], *icons);
            lemma_errors_list_concat(entries@.subrange(0, i as int), seq![e_g]);
            lemma_single_entry(sub@, e_g, *icons);
            assert(entries@.subrange(0, i + 1) =~= entries@.subrange(0, i as int) + seq![e_g]);
        }
        i += 1;
    }
    proof {
        assert(entries@.subrange(0, n as int) =~= entries@);
    }
    (records, errors)
}

/// The records a fan-out scan collects for one entry: the entry's own match
/// first, then what the children report.
pub open spec fn gather2_entry(sub: Seq<char>, e: TreeEntry, t: IconTable) -> Seq<RecordView>
    decreases e,
{
    let from_children = if e.info.is_directory {
        match e.children {
            ListOutcome::Listed(v) => gather2_list(sub, v@, t),
            ListOutcome::Failed(_) => Seq::empty(),
        }
    } else {
        Seq::empty()
    };
    if name_matches(e.info.name@, sub) {
        seq![record_view_of(e.info, t)] + from_children
    } else {
        from_children
    }
}

/// The records a fan-out scan collects for a run of sibling entries.
pub open spec fn gather2_list(sub: Seq<char>, s: Seq<TreeEntry>, t: IconTable) -> Seq<RecordView>
    decreases s,
{
    if s.len() == 0 {
        Seq::empty()
    } else {
        gather2_entry(sub, s.first(), t) + gather2_list(sub, s.drop_first(), t)
    }
}

/// The records the fan-out strategy reports for a whole tree.
pub open spec fn gather2_root(sub: Seq<char>, root: ListOutcome, t: IconTable) -> Seq<RecordView> {
    match root {
        ListOutcome::Listed(v) => gather2_list(sub, v@, t),
        ListOutcome::Failed(_) => Seq::empty(),
    }
}

proof fn lemma_gather2_list_concat(
    sub: Seq<char>,
    a: Seq<TreeEntry>,
    b: Seq<TreeEntry>,
    t: IconTable,
)
    ensures
        gather2_list(sub, a + b, t) == gather2_list(sub, a, t) + gather2_list(sub, b, t),
    decreases a.len(),
{
    if a.len() == 0 {
        assert(a + b =~= b);
        assert(Seq::<RecordView>::empty() + gather2_list(sub, b, t) =~= gather2_list(sub, b, t));
    } else {
        assert((a + b).first() == a.first());
        assert((a + b).drop_first() =~= a.drop_first() + b);
        lemma_gather2_list_concat(sub, a.drop_first(), b, t);
        assert(gather2_entry(sub, a.first(), t) + (gather2_list(sub, a.drop_first(), t)
            + gather2_list(sub, b, t)) =~= (gather2_entry(sub, a.first(), t) + gather2_list(
            sub,
            a.drop_first(),
            t,
        )) + gather2_list(sub, b, t));
    }
}

proof fn lemma_single_entry2(sub: Seq<char>, e: TreeEntry, t: IconTable)
    ensures
        gather2_list(sub, seq![e], t) == gather2_entry(sub, e, t),
{
    let s = seq![e];
    assert(s.len() == 1);
    assert(s.first() == e);
    assert(s.drop_first() =~= Seq::<TreeEntry>::empty());
    assert(gather2_list(sub, s.drop_first(), t) == Seq::<RecordView>::empty());
    assert(gather2_list(sub, s, t) == gather2_entry(sub, e, t) + gather2_list(
        sub,
        s.drop_first(),
        t,
    ));
    assert(gather2_entry(sub, e, t) + Seq::<RecordView>::empty() =~= gather2_entry(sub, e, t));
}

fn search2_list(sub: &str, entries: &Vec<TreeEntry>, icons: &IconTable) -> (out: (
    Vec<Record>,
    Vec<SearchError>,
))
    ensures
        views_of(out.0@) == gather2_list(sub@, entries@, *icons),
        err_views_of(out.1@) == errors_list(entries@),
    decreases entries@,
{
    let mut records: Vec<Record> = Vec::new();
    let mut errors: Vec<SearchError> = Vec::new();
    proof {
        assert(views_of(records@) =~= gather2_list(sub@, entries@.subrange(0, 0), *icons)) by {
            assert(entries@.subrange(0, 0) =~= Seq::<TreeEntry>::empty());
        }
        assert(err_views_of(errors@) =~= errors_list(entries@.subrange(0, 0)));
    }
    let n = entries.len();
    let mut i: usize = 0;
    while i < n
        invariant
            i <= n,
            n == entries@.len(),
            views_of(records@) == gather2_list(sub@, entries@.subrange(0, i as int), *icons),
            err_views_of(errors@) == errors_list(entries@.subrange(0, i as int)),
        decreases n - i,
    {
        let ghost vrec = views_of(records@);
        let ghost verr = err_views_of(errors@);
        let ghost e_g = entries@[i as int];
        let e = &entries[i];
        if contains_substr(e.info.name.as_str(), sub) {
            let rec = make_record(&e.info, icons);
            records.push(rec);
            proof {
                assert(views_of(records@) =~= vrec.push(record_view_of(e_g.info, *icons)));
                assert(vrec.push(record_view_of(e_g.info, *icons)) =~= vrec + seq![
                    record_view_of(e_g.info, *icons),
                ]);
            }
        }
        let ghost vrec2 = views_of(records@);
        if e.info.is_directory {
            match &e.children {
                ListOutcome::Listed(v) => {
                    proof {
                        assert(decreases_to!(entries@ => v@));
                    }
                    let (mut rs, mut es) = search2_list(sub, v, icons);
                    let ghost vrs = views_of(rs@);
                    let ghost ves = err_views_of(es@);
                    records.append(&mut rs);
                    errors.append(&mut es);
                    proof {
                        assert(views_of(records@) =~= vrec2 + vrs);
                        assert(err_views_of(errors@) =~= verr + ves);
                    }
                }
                ListOutcome::Failed(m) => {
                    errors.push(SearchError { path: e.info.path.clone(), message: m.clone() });
                    proof {
                        assert(err_views_of(errors@) =~= verr + errors_entry(e_g));
                    }
                }
            }
        }
        proof {
            if name_matches(e_g.info.name@, sub@) {
                assert(vrec2 =~= vrec + seq![record_view_of(e_g.info, *icons)]);
                assert(views_of(records@) =~= vrec + gather2_entry(sub@, e_g, *icons));
            } else {
                assert(views_of(records@) =~= vrec + gather2_entry(sub@, e_g, *icons));
            }
            assert(err_views_of(errors@) =~= verr + errors_entry(e_g));
            lemma_gather2_list_concat(sub@, entries@.subrange(0, i as int), seq![e_g], *icons);
            lemma_errors_list_concat(entries@.subrange(0, i as int), seq![e_g]);
            lemma_single_entry2(sub@, e_g, *icons);
            lemma_single_entry(sub@, e_g, *icons);
            assert(entries@.subrange(0, i + 1) =~= entries@.subrange(0, i as int) + seq![e_g]);
        }
        i += 1;
    }
    proof {
        assert(entries@.subrange(0, n as int) =~= entries@);
    }
    (records, errors)
}

/// Fan-out search, the worker-pool strategy's computation: the own-level
/// match is taken while sub-directory results arrive, and everything is
/// sorted before return. Same records, errors and order as `search`
/// (see `lemma_strategies_agree`).
pub fn search2(substring: &str, root_path: &str, root: &ListOutcome, icons: &IconTable) -> (out:
    SearchOutcome)
    ensures
        views_of(out.records@) == sort_spec(gather2_root(substring@, *root, *icons)),
        crate::sort::sorted(views_of(out.records@)),
        err_views_of(out.errors@) == errors_root(root_path@, *root),
{
    match root {
        ListOutcome::Listed(entries) => {
            let (mut records, errors) = search2_list(substring, entries, icons);
            sort(&mut records);
            proof {
                crate::sort::lemma_sort_spec_ensures(gather2_root(substring@, *root, *icons));
            }
            SearchOutcome { records, errors }
        }
        ListOutcome::Failed(m) => {
            let records: Vec<Record> = Vec::new();
            let mut errors: Vec<SearchError> = Vec::new();
            errors.push(SearchError { path: root_path.to_owned(), message: m.clone() });
            proof {
                assert(views_of(records@) =~= Seq::<RecordView>::empty());
                assert(err_views_of(errors@) =~= errors_root(root_path@, *root));
            }
            SearchOutcome { records, errors }
        }
    }
}

/// Depth-first search: every entry anywhere under the root whose name
/// contains `substring`, as sorted records, together with the enumeration
/// failures met. A branch that failed to enumerate contributes its error and
/// nothing else; the siblings' results are kept.
pub fn search(substring: &str, root_path: &str, root: &ListOutcome, icons: &IconTable) -> (out:
    SearchOutcome)
    ensures
        views_of(out.records@) == sort_spec(gather_root(substring@, *root, *icons)),
        crate::sort::sorted(views_of(out.records@)),
        err_views_of(out.errors@) == errors_root(root_path@, *root),
{
    match root {
        ListOutcome::Listed(entries) => {
            let (mut records, errors) = search_list(substring, entries, icons);
            sort(&mut records);
            proof {
                crate::sort::lemma_sort_spec_ensures(gather_root(substring@, *root, *icons));
            }
            SearchOutcome { records, errors }
        }
        ListOutcome::Failed(m) => {
            let records: Vec<Record> = Vec::new();
            let mut errors: Vec<SearchError> = Vec::new();
            errors.push(SearchError { path: root_path.to_owned(), message: m.clone() });
            proof {
                assert(views_of(records@) =~= Seq::<RecordView>::empty());
                assert(err_views_of(errors@) =~= errors_root(root_path@, *root));
            }
            SearchOutcome { records, errors }
        }
    }
}

proof fn lemma_gather_entry_ms(sub: Seq<char>, e: TreeEntry, t: IconTable)
    ensures
        gather2_entry(sub, e, t).to_multiset() == gather_entry(sub, e, t).to_multiset(),
    decreases e,
{
    broadcast use vstd::seq_lib::group_to_multiset_ensures;

    let ch = if e.info.is_directory {
        match e.children {
            ListOutcome::Listed(v) => gather_list(sub, v@, t),
            ListOutcome::Failed(_) => Seq::<RecordView>::empty(),
        }
    } else {
        Seq::<RecordView>::empty()
    };
    let ch2 = if e.info.is_directory {
        match e.children {
            ListOutcome::Listed(v) => gather2_list(sub, v@, t),
            ListOutcome::Failed(_) => Seq::<RecordView>::empty(),
        }
    } else {
        Seq::<RecordView>::empty()
    };
    if e.info.is_directory {
        match e.children {
            ListOutcome::Listed(v) => {
                lemma_gather_list_ms(sub, v@, t);
            },
            ListOutcome::Failed(_) => {},
        }
    }
    assert(ch2.to_multiset() == ch.to_multiset());
    if name_matches(e.info.name@, sub) {
        let rv = record_view_of(e.info, t);
        vstd::seq_lib::lemma_seq_union_to_multiset_commutative(seq![rv], ch2);
        assert(ch2 + seq![rv] =~= ch2.push(rv));
        assert((ch2.push(rv)).to_multiset() =~= ch2.to_multiset().insert(rv));
        assert((ch.push(rv)).to_multiset() =~= ch.to_multiset().insert(rv));
        assert(gather2_entry(sub, e, t) == seq![rv] + ch2);
        assert(gather_entry(sub, e, t) == ch.push(rv));
    }
}

proof fn lemma_gather_list_ms(sub: Seq<char>, s: Seq<TreeEntry>, t: IconTable)
    ensures
        gather2_list(sub, s, t).to_multiset() == gather_list(sub, s, t).to_multiset(),
    decreases s,
{
    if s.len() > 0 {
        lemma_gather_entry_ms(sub, s.first(), t);
        lemma_gather_list_ms(sub, s.drop_first(), t);
        vstd::seq_lib::lemma_multiset_commutative(
            gather_entry(sub, s.first(), t),
            gather_list(sub, s.drop_first(), t),
        );
        vstd::seq_lib::lemma_multiset_commutative(
            gather2_entry(sub, s.first(), t),
            gather2_list(sub, s.drop_first(), t),
        );
    }
}

/// The two traversal strategies cross-validate: on any tree they report the
/// same multiset of records — nothing found by one is missed or duplicated
/// by the other.
pub proof fn lemma_strategies_agree(sub: Seq<char>, root: ListOutcome, t: IconTable)
    ensures
        sort_spec(gather_root(sub, root, t)).to_multiset() == sort_spec(
            gather2_root(sub, root, t),
        ).to_multiset(),
{
    match root {
        ListOutcome::Listed(v) => {
            lemma_gather_list_ms(sub, v@, t);
        },
        ListOutcome::Failed(_) => {},
    }
    crate::sort::lemma_sort_spec_ensures(gather_root(sub, root, t));
    crate::sort::lemma_sort_spec_ensures(gather2_root(sub, root, t));
}

/// On trees where no two distinct collected records tie under the order —
/// ties arise only between records sharing directory flag and name — the two
/// strategies return the very same sorted sequence.
pub proof fn lemma_strategies_agree_exactly(sub: Seq<char>, root: ListOutcome, t: IconTable)
    requires
        forall|x: RecordView, y: RecordView|
            gather_root(sub, root, t).contains(x) && gather_root(sub, root, t).contains(y)
                && crate::record::record_tie(x, y) ==> x == y,
    ensures
        sort_spec(gather_root(sub, root, t)) == sort_spec(gather2_root(sub, root, t)),
{
    broadcast use vstd::seq_lib::group_to_multiset_ensures;

    let g1 = gather_root(sub, root, t);
    let g2 = gather2_root(sub, root, t);
    match root {
        ListOutcome::Listed(v) => {
            lemma_gather_list_ms(sub, v@, t);
        },
        ListOutcome::Failed(_) => {},
    }
    crate::sort::lemma_sort_spec_ensures(g1);
    crate::sort::lemma_sort_spec_ensures(g2);
    let s1 = sort_spec(g1);
    let s2 = sort_spec(g2);
    assert forall|x: RecordView, y: RecordView|
        s1.contains(x) && s1.contains(y) && crate::record::record_tie(x, y) implies x == y by {
        assert(s1.to_multiset().contains(x));
        assert(s1.to_multiset().contains(y));
        assert(g1.contains(x));
        assert(g1.contains(y));
    }
    crate::sort::lemma_sorted_unique_up_to_ties(s1, s2);
}

/// The records of a single-level listing, before sorting.
pub open spec fn listing_views(s: Seq<RawEntry>, t: IconTable) -> Seq<RecordView> {
    s.map_values(|e: RawEntry| record_view_of(e, t))
}

/// Non-recursive listing of one directory's entries, sorted: directories
/// first, names ascending.
pub fn list_directory(entries: &Vec<RawEntry>, icons: &IconTable) -> (out: Vec<Record>)
    ensures
        views_of(out@) == sort_spec(listing_views(entries@, *icons)),
{
    let mut records: Vec<Record> = Vec::new();
    let n = entries.len();
    let mut i: usize = 0;
    while i < n
        invariant
            i <= n,
            n == entries@.len(),
            views_of(records@).len() == i,
            forall|j: int|
                0 <= j < i ==> views_of(records@)[j] == listing_views(entries@, *icons)[j],
        decreases n - i,
    {
        let ghost vr = views_of(records@);
        let rec = make_record(&entries[i], icons);
        records.push(rec);
        proof {
            assert(views_of(records@) =~= vr.push(record_view_of(entries@[i as int], *icons)));
            assert(listing_views(entries@, *icons)[i as int] == record_view_of(
                entries@[i as int],
                *icons,
            ));
        }
        i += 1;
    }
    proof {
        assert(views_of(records@) =~= listing_views(entries@, *icons));
    }
    sort(&mut records);
    records
}

} // verus!
