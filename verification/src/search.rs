//! The search engine: root-path validation, directory traversal, and
//! result assembly.
//!
//! The traversal itself is done by the `walkdir` crate behind a trusted
//! wrapper that hands back plain entries (base name, parent path, file
//! flag). Everything that decides — validation, matching, assembly — is
//! verified.

use vstd::prelude::*;

use crate::json::json_of_results;
use crate::json::results_to_json;
use crate::matching::file_name_matches;
use crate::matching::name_matches;

verus! {

/// One match: the base file name and the path of its parent directory.
#[derive(Debug)]
pub struct FileResult {
    pub full_file_name: String,
    pub path: String,
}

/// The mathematical content of a `FileResult`.
pub struct FileResultView {
    pub full_file_name: Seq<char>,
    pub path: Seq<char>,
}

impl View for FileResult {
    type V = FileResultView;

    open spec fn view(&self) -> FileResultView {
        FileResultView { full_file_name: self.full_file_name@, path: self.path@ }
    }
}

/// One entry met during traversal, reduced to plain values: its base
/// name, the path of its parent directory (empty when the entry has no
/// parent), and whether it is a regular file.
pub struct WalkEntry {
    pub file_name: String,
    pub parent: String,
    pub is_file: bool,
}

/// The mathematical content of a `WalkEntry`.
pub struct WalkEntryView {
    pub file_name: Seq<char>,
    pub parent: Seq<char>,
    pub is_file: bool,
}

impl View for WalkEntry {
    type V = WalkEntryView;

    open spec fn view(&self) -> WalkEntryView {
        WalkEntryView { file_name: self.file_name@, parent: self.parent@, is_file: self.is_file }
    }
}

/// Why a search could not run or could not be serialized.
#[derive(Clone, Copy, Debug, PartialEq, Eq, Structural)]
pub enum SearchError {
    /// The root path does not exist.
    PathNotFound,
    /// The root path exists but is not a directory.
    PathNotADirectory,
    /// The result list could not be serialized.
    SerializationFailed,
}

/// Relies on `std::path::Path::exists`: whether the path refers to an
/// existing filesystem entry. The answer depends on the filesystem.
#[verifier::external_body]
fn path_exists(p: &str) -> bool {
    std::path::Path::new(p).exists()
}

/// Relies on `std::path::Path::is_dir`: whether the path refers to an
/// existing directory. The answer depends on the filesystem.
#[verifier::external_body]
fn path_is_dir(p: &str) -> bool {
    std::path::Path::new(p).is_dir()
}

/// Relies on `walkdir::WalkDir`: yields the root and every descendant
/// entry, depth-first, without following symbolic links into
/// directories. Entries that cannot be read and entries whose base name
/// is not representable as a string are skipped, as are roots for which
/// nothing can be read at all. The answer depends on the filesystem.
#[verifier::external_body]
fn walk_dir_entries(root: &str) -> Vec<WalkEntry> {
    walkdir::WalkDir::new(root)
        .into_iter()
        .filter_map(|e| e.ok())
        .filter_map(|e| {
            let file_name = e.file_name().to_str()?.to_string();
            let parent = match e.path().parent() {
                Some(p) => p.to_string_lossy().to_string(),
                None => String::new(),
            };
            Some(WalkEntry { file_name, parent, is_file: e.file_type().is_file() })
        })
        .collect()
}

/// An entry is reported when it is a regular file and its base name
/// matches the term.
pub open spec fn entry_matches(term: Seq<char>, e: WalkEntryView) -> bool {
    e.is_file && name_matches(term, e.file_name)
}

/// The record reported for a matching entry.
pub open spec fn result_of_entry(e: WalkEntryView) -> FileResultView {
    FileResultView { full_file_name: e.file_name, path: e.parent }
}

pub open spec fn views_of_entries(es: Seq<WalkEntry>) -> Seq<WalkEntryView> {
    es.map_values(|e: WalkEntry| e@)
}

pub open spec fn views_of_results(rs: Seq<FileResult>) -> Seq<FileResultView> {
    rs.map_values(|r: FileResult| r@)
}

/// What a search over the given entries returns: exactly the matching
/// file entries, in traversal order, each reduced to its record.
pub open spec fn spec_search_results(term: Seq<char>, entries: Seq<WalkEntryView>) -> Seq<
    FileResultView,
> {
    entries.filter(|e: WalkEntryView| entry_matches(term, e)).map_values(
        |e: WalkEntryView| result_of_entry(e),
    )
}

/// Everything the filter keeps comes from the sequence and satisfies
/// the predicate.
proof fn lemma_filter_subset(
    s: Seq<WalkEntryView>,
    pred: spec_fn(WalkEntryView) -> bool,
    x: WalkEntryView,
)
    ensures
        s.filter(pred).contains(x) ==> s.contains(x) && pred(x),
    decreases s.len(),
{
    reveal_with_fuel(Seq::filter, 1);
    if s.len() == 0 {
    } else {
        lemma_filter_subset(s.drop_last(), pred, x);
        if s.filter(pred).contains(x) {
            if pred(s.last()) {
                assert(s.filter(pred) == s.drop_last().filter(pred).push(s.last()));
                let j = choose|j: int|
                    0 <= j < s.filter(pred).len() && s.filter(pred)[j] == x;
                if j == s.filter(pred).len() - 1 {
                    assert(s[s.len() - 1] == x);
                } else {
                    assert(s.drop_last().filter(pred)[j] == x);
                    assert(s.drop_last().filter(pred).contains(x));
                    let i = choose|i: int|
                        0 <= i < s.drop_last().len() && s.drop_last()[i] == x;
                    assert(s[i] == x);
                }
            } else {
                assert(s.filter(pred) == s.drop_last().filter(pred));
                assert(s.drop_last().filter(pred).contains(x));
                let i = choose|i: int| 0 <= i < s.drop_last().len() && s.drop_last()[i] == x;
                assert(s[i] == x);
            }
        }
    }
}

/// Law: a record is among the search results exactly when some matching
/// file entry yields it. Membership depends only on which entries were
/// met, not on the order they were met in.
pub proof fn lemma_result_membership(
    term: Seq<char>,
    entries: Seq<WalkEntryView>,
    r: FileResultView,
)
    ensures
        spec_search_results(term, entries).contains(r) <==> exists|x: WalkEntryView|
            entries.contains(x) && #[trigger] entry_matches(term, x) && r == result_of_entry(x),
{
    let pred = |e: WalkEntryView| entry_matches(term, e);
    let f = |e: WalkEntryView| result_of_entry(e);
    let fs = entries.filter(pred);
    entries.filter_lemma(pred);
    if spec_search_results(term, entries).contains(r) {
        let j = choose|j: int| 0 <= j < fs.map_values(f).len() && fs.map_values(f)[j] == r;
        assert(pred(fs[j]));
        assert(fs.contains(fs[j]));
        lemma_filter_subset(entries, pred, fs[j]);
        assert(entries.contains(fs[j]) && entry_matches(term, fs[j]) && r == result_of_entry(
            fs[j],
        ));
    }
    if exists|x: WalkEntryView|
        entries.contains(x) && #[trigger] entry_matches(term, x) && r == result_of_entry(x) {
        let x = choose|x: WalkEntryView|
            entries.contains(x) && #[trigger] entry_matches(term, x) && r == result_of_entry(x);
        let i = choose|i: int| 0 <= i < entries.len() && entries[i] == x;
        assert(fs.contains(entries[i]));
        let j = choose|j: int| 0 <= j < fs.len() && fs[j] == x;
        assert(fs.map_values(f)[j] == r);
        assert(spec_search_results(term, entries).contains(r));
    }
}

/// Law: searches that meet the same set of entries report the same set
/// of records, whatever order the entries came in and however often one
/// was repeated. With an unchanged filesystem this is idempotence over
/// result sets.
pub proof fn lemma_search_set_order_independent(
    term: Seq<char>,
    entries1: Seq<WalkEntryView>,
    entries2: Seq<WalkEntryView>,
)
    requires
        entries1.to_set() == entries2.to_set(),
    ensures
        spec_search_results(term, entries1).to_set() == spec_search_results(
            term,
            entries2,
        ).to_set(),
{
    let s1 = spec_search_results(term, entries1).to_set();
    let s2 = spec_search_results(term, entries2).to_set();
    assert forall|r: FileResultView| s1.contains(r) implies s2.contains(r) by {
        lemma_result_membership(term, entries1, r);
        lemma_result_membership(term, entries2, r);
        let x = choose|x: WalkEntryView|
            entries1.contains(x) && #[trigger] entry_matches(term, x) && r == result_of_entry(x);
        assert(entries1.to_set().contains(x));
        assert(entries2.contains(x));
    };
    assert forall|r: FileResultView| s2.contains(r) implies s1.contains(r) by {
        lemma_result_membership(term, entries1, r);
        lemma_result_membership(term, entries2, r);
        let x = choose|x: WalkEntryView|
            entries2.contains(x) && #[trigger] entry_matches(term, x) && r == result_of_entry(x);
        assert(entries2.to_set().contains(x));
        assert(entries1.contains(x));
    };
    assert(s1 =~= s2);
}

proof fn lemma_filter_push(s: Seq<WalkEntryView>, e: WalkEntryView, pred: spec_fn(WalkEntryView) -> bool)
    ensures
        s.push(e).filter(pred) == (if pred(e) {
            s.filter(pred).push(e)
        } else {
            s.filter(pred)
        }),
{
    reveal_with_fuel(Seq::filter, 1);
    assert(s.push(e).drop_last() =~= s);
    assert(s.push(e).last() == e);
}

/// Collect, in order, the record of every matching file entry.
/// This is the whole deciding core of a search: for a fixed term it is a
/// pure function of the entries handed in.
pub fn collect_matches(term: &str, entries: &Vec<WalkEntry>) -> (r: Vec<FileResult>)
    ensures
        views_of_results(r@) == spec_search_results(term@, views_of_entries(entries@)),
        forall|i: int|
            0 <= i < r@.len() ==> name_matches(term@, #[trigger] r@[i].full_file_name@),
{
    let ghost evs = views_of_entries(entries@);
    let ghost pred = |e: WalkEntryView| entry_matches(term@, e);
    let n: usize = entries.len();
    let mut results: Vec<FileResult> = Vec::new();
    let mut j: usize = 0;
    proof {
        assert(evs.take(0) =~= Seq::<WalkEntryView>::empty());
        assert(views_of_results(results@) =~= spec_search_results(term@, evs.take(0)));
    }
    while j < n
        invariant
            j <= n,
            n == entries@.len(),
            evs == views_of_entries(entries@),
            pred == (|e: WalkEntryView| entry_matches(term@, e)),
            views_of_results(results@) == spec_search_results(term@, evs.take(j as int)),
            forall|i: int|
                0 <= i < results@.len() ==> name_matches(
                    term@,
                    #[trigger] results@[i].full_file_name@,
                ),
        decreases n - j,
    {
        let e = &entries[j];
        let ghost old_results = results@;
        if e.is_file && file_name_matches(term, e.file_name.as_str()) {
            results.push(FileResult { full_file_name: e.file_name.clone(), path: e.parent.clone() });
        }
        proof {
            assert(evs.take(j + 1) =~= evs.take(j as int).push(entries@[j as int]@));
            lemma_filter_push(evs.take(j as int), entries@[j as int]@, pred);
            if pred(entries@[j as int]@) {
                assert(views_of_results(results@) =~= views_of_results(old_results).push(
                    result_of_entry(entries@[j as int]@),
                ));
                assert(evs.take(j as int).filter(pred).push(entries@[j as int]@).map_values(
                    |e: WalkEntryView| result_of_entry(e),
                ) =~= spec_search_results(term@, evs.take(j as int)).push(
                    result_of_entry(entries@[j as int]@),
                ));
            } else {
                assert(views_of_results(results@) =~= views_of_results(old_results));
            }
        }
        j = j + 1;
    }
    proof {
        assert(evs.take(n as int) =~= evs);
    }
    results
}

/// The validation rule on the root path: a missing root is
/// `PathNotFound`; an existing root that is not a directory is
/// `PathNotADirectory`; a directory passes.
pub open spec fn spec_validate_root(found: bool, is_dir: bool) -> Result<(), SearchError> {
    if !found {
        Err(SearchError::PathNotFound)
    } else if !is_dir {
        Err(SearchError::PathNotADirectory)
    } else {
        Ok(())
    }
}

/// Decide whether a search may run, from what the filesystem said of the
/// root path.
pub fn validate_root(found: bool, is_dir: bool) -> (r: Result<(), SearchError>)
    ensures
        r == spec_validate_root(found, is_dir),
{
    if !found {
        Err(SearchError::PathNotFound)
    } else if !is_dir {
        Err(SearchError::PathNotADirectory)
    } else {
        Ok(())
    }
}

/// Search for files under `search_path` whose base name contains
/// `file_name`, case-insensitively.
///
/// On success the returned records are exactly the matching file entries
/// of some traversal of the tree, in traversal order; in particular every
/// returned base name matches the term. The only possible errors are the
/// two validation failures.
pub fn search_files(file_name: &str, search_path: &str) -> (r: Result<Vec<FileResult>, SearchError>)
    ensures
        r matches Err(e) ==> e == SearchError::PathNotFound || e == SearchError::PathNotADirectory,
        r matches Ok(v) ==> exists|entries: Seq<WalkEntryView>|
            views_of_results(v@) == #[trigger] spec_search_results(file_name@, entries),
        r matches Ok(v) ==> forall|i: int|
            0 <= i < v@.len() ==> name_matches(file_name@, #[trigger] v@[i].full_file_name@),
{
    let found: bool = path_exists(search_path);
    let is_dir: bool = path_is_dir(search_path);
    match validate_root(found, is_dir) {
        Err(e) => Err(e),
        Ok(()) => {
            let entries: Vec<WalkEntry> = walk_dir_entries(search_path);
            let results: Vec<FileResult> = collect_matches(file_name, &entries);
            proof {
                assert(views_of_results(results@) == spec_search_results(
                    file_name@,
                    views_of_entries(entries@),
                ));
            }
            Ok(results)
        },
    }
}

/// Search as `search_files` does, and serialize the result list to one
/// JSON string.
///
/// On success the string is the JSON array of the records of some
/// traversal's matching file entries, in traversal order. Serialization
/// is total, so the only possible errors are the two validation
/// failures.
pub fn search_files_json(file_name: &str, search_path: &str) -> (r: Result<String, SearchError>)
    ensures
        r matches Err(e) ==> e == SearchError::PathNotFound || e == SearchError::PathNotADirectory,
        r matches Ok(s) ==> exists|entries: Seq<WalkEntryView>|
            s@ == json_of_results(#[trigger] spec_search_results(file_name@, entries)),
{
    match search_files(file_name, search_path) {
        Err(e) => Err(e),
        Ok(results) => {
            let s: String = results_to_json(&results);
            proof {
                let entries = choose|entries: Seq<WalkEntryView>|
                    views_of_results(results@) == #[trigger] spec_search_results(
                        file_name@,
                        entries,
                    );
                assert(s@ == json_of_results(spec_search_results(file_name@, entries)));
            }
            Ok(s)
        },
    }
}

} // verus!
