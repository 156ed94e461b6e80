//! Scanning a workspace folder for Markdown documents.
//!
//! A directory walk (performed outside the library) reports its entries in
//! pre-order: the root at depth 0, and every other entry right after the
//! directory that contains it or after that directory's earlier contents.
//! The scan rebuilds each entry's path from those reports, keeps the regular
//! Markdown files, and lists them ordered by their lowercased relative paths.
use vstd::prelude::*;
use crate::error::AppError;
use crate::markdown::{is_markdown, spec_is_markdown};
use crate::path::{join, spec_join};
use crate::text::{
    chars_of, lemma_lex_asymmetric, lemma_lex_irreflexive, lemma_lex_total, lemma_lex_transitive,
    lex_less, lex_lt, spec_to_lowercase, to_lowercase,
};

verus! {

/// The largest number of Markdown files a workspace may hold.
pub const MAX_WORKSPACE_FILES: usize = 20000;

/// One entry reported by the directory walk.
pub struct WalkEntry {
    /// 0 for the root, 1 for its contents, and so on.
    pub depth: usize,
    /// The entry's file name.
    pub name: String,
    /// The entry is a regular file (symbolic links are not followed).
    pub is_file: bool,
}

/// What the directory walk reports next.
pub enum WalkEvent {
    Entry(WalkEntry),
    /// The walk failed; the text is the walker's message.
    Failure(String),
}

/// A Markdown document found in a workspace.
#[derive(Debug, Clone, PartialEq, Eq)]
pub struct WorkspaceEntry {
    pub path: String,
    /// The path below the workspace root.
    pub relative_path: String,
    pub name: String,
}

/// The abstract value of a workspace entry.
#[verifier::ext_equal]
pub struct EntryModel {
    pub path: Seq<char>,
    pub relative_path: Seq<char>,
    pub name: Seq<char>,
}

pub open spec fn entry_model(e: WorkspaceEntry) -> EntryModel {
    EntryModel { path: e.path@, relative_path: e.relative_path@, name: e.name@ }
}

pub open spec fn entry_models(s: Seq<WorkspaceEntry>) -> Seq<EntryModel> {
    s.map_values(|e: WorkspaceEntry| entry_model(e))
}

/// The state of a scan: the root, the names from the root down to the last
/// entry reported, and the documents found so far, in walk order.
#[verifier::ext_equal]
pub struct ScanModel {
    pub root: Seq<char>,
    pub ancestors: Seq<Seq<char>>,
    pub files: Seq<EntryModel>,
}

/// `base` joined with each name in turn.
pub open spec fn join_all(base: Seq<char>, names: Seq<Seq<char>>) -> Seq<char>
    decreases names.len(),
{
    if names.len() == 0 {
        base
    } else {
        spec_join(join_all(base, names.drop_last()), names.last())
    }
}

/// The names from the root down to an entry at `depth` named `name`, given
/// the names down to the previously reported entry: its parent is the last
/// reported entry at `depth - 1`.
pub open spec fn names_at(ancestors: Seq<Seq<char>>, depth: nat, name: Seq<char>) -> Seq<Seq<char>> {
    if depth == 0 {
        seq![]
    } else {
        let keep = if depth - 1 <= ancestors.len() {
            depth - 1
        } else {
            ancestors.len() as int
        };
        ancestors.take(keep).push(name)
    }
}

/// One step of a scan.  A walk failure ends it; a regular Markdown file is
/// recorded with its full and relative paths, unless 20,000 are already
/// recorded, which ends the scan.
pub open spec fn spec_visit(s: ScanModel, event: WalkEvent) -> Result<ScanModel, AppError> {
    match event {
        WalkEvent::Failure(m) => Err(AppError::Walk(m)),
        WalkEvent::Entry(e) => {
            let names = names_at(s.ancestors, e.depth as nat, e.name@);
            let path = join_all(s.root, names);
            if !e.is_file || !spec_is_markdown(path) {
                Ok(ScanModel { ancestors: names, ..s })
            } else if s.files.len() >= MAX_WORKSPACE_FILES {
                Err(AppError::WorkspaceTooLarge)
            } else {
                Ok(
                    ScanModel {
                        ancestors: names,
                        files: s.files.push(
                            EntryModel {
                                path,
                                relative_path: join_all(seq![], names),
                                name: e.name@,
                            },
                        ),
                        ..s
                    },
                )
            }
        },
    }
}

/// The scan state at the start.
pub open spec fn initial_scan(root: Seq<char>) -> ScanModel {
    ScanModel { root, ancestors: seq![], files: seq![] }
}

/// The outcome of scanning the given walk events, in order.
pub open spec fn spec_scan(root: Seq<char>, events: Seq<WalkEvent>) -> Result<ScanModel, AppError>
    decreases events.len(),
{
    if events.len() == 0 {
        Ok(initial_scan(root))
    } else {
        match spec_scan(root, events.drop_last()) {
            Ok(s) => spec_visit(s, events.last()),
            Err(e) => Err(e),
        }
    }
}

/// Documents are ordered by their relative paths in lowercase.
pub open spec fn entry_key(e: EntryModel) -> Seq<char> {
    spec_to_lowercase(e.relative_path)
}

pub open spec fn sorted_by_key(s: Seq<EntryModel>) -> bool {
    forall|i: int, j: int| 0 <= i < j < s.len() ==> !lex_lt(entry_key(s[j]), entry_key(s[i]))
}

pub open spec fn with_key(k: Seq<char>) -> spec_fn(EntryModel) -> bool {
    |e: EntryModel| entry_key(e) == k
}

/// `out` is `inp` sorted by key, with entries of equal key kept in the
/// order in which they came.
pub open spec fn is_stable_sort_of(out: Seq<EntryModel>, inp: Seq<EntryModel>) -> bool {
    &&& sorted_by_key(out)
    &&& forall|k: Seq<char>| #[trigger] out.filter(with_key(k)) == inp.filter(with_key(k))
}

/// The entries whose relative path, lowercased, is `k`.
pub open spec fn with_lowercased_relative_path(k: Seq<char>) -> spec_fn(EntryModel) -> bool {
    |e: EntryModel| spec_to_lowercase(e.relative_path) == k
}

/// `out` lists the entries of `inp` in order of their lowercased relative
/// paths, entries whose lowercased relative paths are equal keeping their
/// order in `inp`.
pub open spec fn ordered_by_lowercased_relative_path(out: Seq<EntryModel>, inp: Seq<EntryModel>) -> bool {
    &&& forall|i: int, j: int|
        0 <= i < j < out.len() ==> !lex_lt(
            spec_to_lowercase(#[trigger] out[j].relative_path),
            spec_to_lowercase(#[trigger] out[i].relative_path),
        )
    &&& forall|k: Seq<char>| #[trigger]
        out.filter(with_lowercased_relative_path(k)) == inp.filter(with_lowercased_relative_path(k))
}

/// The listing of a workspace is ordered by lowercased relative path (not by
/// file name or anything else), and documents whose lowercased relative paths
/// are equal stay in walk order.
pub proof fn lemma_listing_ordered_by_relative_path(out: Seq<EntryModel>, inp: Seq<EntryModel>)
    requires
        is_stable_sort_of(out, inp),
    ensures
        ordered_by_lowercased_relative_path(out, inp),
{
    assert forall|i: int, j: int| 0 <= i < j < out.len() implies !lex_lt(
        spec_to_lowercase(#[trigger] out[j].relative_path),
        spec_to_lowercase(#[trigger] out[i].relative_path),
    ) by {
        assert(entry_key(out[j]) == spec_to_lowercase(out[j].relative_path));
        assert(entry_key(out[i]) == spec_to_lowercase(out[i].relative_path));
    }
    assert forall|k: Seq<char>| #[trigger] out.filter(with_lowercased_relative_path(k)) == inp.filter(
        with_lowercased_relative_path(k),
    ) by {
        assert(with_lowercased_relative_path(k) =~= with_key(k));
        assert(out.filter(with_key(k)) == inp.filter(with_key(k)));
    }
}

impl WorkspaceEntry {
    fn duplicate(&self) -> (res: WorkspaceEntry)
        ensures
            res == *self,
    {
        WorkspaceEntry {
            path: self.path.clone(),
            relative_path: self.relative_path.clone(),
            name: self.name.clone(),
        }
    }
}

/// `base` joined with each of `names` in turn.
fn join_names(base: String, names: &Vec<String>) -> (res: String)
    ensures
        res@ == join_all(base@, names@.map_values(|s: String| s@)),
{
    let ghost ns = names@.map_values(|s: String| s@);
    let mut acc = base;
    let ghost b = acc@;
    let mut i: usize = 0;
    assert(ns.take(0) =~= Seq::<Seq<char>>::empty());
    while i < names.len()
        invariant
            i <= names@.len(),
            ns == names@.map_values(|s: String| s@),
            acc@ == join_all(b, ns.take(i as int)),
        decreases names.len() - i,
    {
        acc = join(acc.as_str(), names[i].as_str());
        assert(ns.take(i + 1).drop_last() =~= ns.take(i as int));
        i = i + 1;
    }
    assert(ns.take(names@.len() as int) =~= ns);
    acc
}

/// The sort key of an entry, as characters.
fn key_chars(e: &WorkspaceEntry) -> (res: Vec<char>)
    ensures
        res@ == entry_key(entry_model(*e)),
{
    let lower = to_lowercase(e.relative_path.as_str());
    chars_of(lower.as_str())
}

/// The position after every entry whose key is at most `key`.
fn upper_bound(out: &Vec<WorkspaceEntry>, key: &Vec<char>) -> (pos: usize)
    requires
        sorted_by_key(entry_models(out@)),
    ensures
        pos <= out@.len(),
        forall|j: int| 0 <= j < pos ==> !lex_lt(key@, #[trigger] entry_key(entry_models(out@)[j])),
        forall|j: int| pos <= j < out@.len() ==> lex_lt(key@, #[trigger] entry_key(entry_models(out@)[j])),
{
    let ghost m = entry_models(out@);
    let mut lo: usize = 0;
    let mut hi: usize = out.len();
    while lo < hi
        invariant
            lo <= hi <= out@.len(),
            m == entry_models(out@),
            sorted_by_key(m),
            forall|j: int| 0 <= j < lo ==> !lex_lt(key@, #[trigger] entry_key(m[j])),
            forall|j: int| hi <= j < out@.len() ==> lex_lt(key@, #[trigger] entry_key(m[j])),
        decreases hi - lo,
    {
        let mid = lo + (hi - lo) / 2;
        let mk = key_chars(&out[mid]);
        assert(mk@ == entry_key(m[mid as int]));
        if lex_less(key, &mk) {
            assert forall|j: int| mid <= j < out@.len() implies lex_lt(key@, #[trigger] entry_key(m[j])) by {
                if j > mid {
                    lemma_lex_total(entry_key(m[mid as int]), entry_key(m[j]));
                    if lex_lt(entry_key(m[mid as int]), entry_key(m[j])) {
                        lemma_lex_transitive(key@, entry_key(m[mid as int]), entry_key(m[j]));
                    }
                }
            }
            hi = mid;
        } else {
            assert forall|j: int| 0 <= j < mid + 1 implies !lex_lt(key@, #[trigger] entry_key(m[j])) by {
                if j < mid {
                    let a = key@;
                    let b = entry_key(m[mid as int]);
                    let c = entry_key(m[j]);
                    if lex_lt(a, c) {
                        lemma_lex_total(a, b);
                        lemma_lex_total(b, c);
                        if lex_lt(b, a) {
                            lemma_lex_transitive(b, a, c);
                        }
                        if lex_lt(b, c) {
                            lemma_lex_asymmetric(b, c);
                        }
                        if b == c {
                            lemma_lex_irreflexive(b);
                        }
                    }
                }
            }
            lo = mid + 1;
        }
    }
    lo
}

proof fn lemma_singleton_filter(x: EntryModel, p: spec_fn(EntryModel) -> bool)
    ensures
        seq![x].filter(p) == (if p(x) {
            seq![x]
        } else {
            Seq::<EntryModel>::empty()
        }),
{
    reveal_with_fuel(Seq::filter, 2);
    assert(seq![x].drop_last() =~= Seq::<EntryModel>::empty());
    if p(x) {
        assert(Seq::<EntryModel>::empty().push(x) =~= seq![x]);
    }
}

proof fn lemma_filter_none(s: Seq<EntryModel>, p: spec_fn(EntryModel) -> bool)
    requires
        forall|j: int| 0 <= j < s.len() ==> !p(#[trigger] s[j]),
    ensures
        s.filter(p) == Seq::<EntryModel>::empty(),
    decreases s.len(),
{
    reveal(Seq::filter);
    if s.len() > 0 {
        lemma_filter_none(s.drop_last(), p);
        assert(!p(s[s.len() - 1]));
    }
    assert(s.filter(p) =~= Seq::<EntryModel>::empty());
}

/// Inserting `x` before every entry with a greater key adds it at the end of
/// the entries with its key and changes no other key's entries.
proof fn lemma_insert_filter(s: Seq<EntryModel>, pos: int, x: EntryModel, k: Seq<char>)
    requires
        0 <= pos <= s.len(),
        forall|j: int| pos <= j < s.len() ==> lex_lt(entry_key(x), #[trigger] entry_key(s[j])),
    ensures
        s.insert(pos, x).filter(with_key(k)) == (if entry_key(x) == k {
            s.filter(with_key(k)).push(x)
        } else {
            s.filter(with_key(k))
        }),
{
    broadcast use vstd::seq_lib::group_seq_properties;

    let p = with_key(k);
    let a = s.take(pos);
    let b = s.skip(pos);
    assert(s.insert(pos, x) =~= a + seq![x] + b);
    assert(s =~= a + b);
    Seq::filter_distributes_over_add(a + seq![x], b, p);
    Seq::filter_distributes_over_add(a, seq![x], p);
    Seq::filter_distributes_over_add(a, b, p);
    lemma_singleton_filter(x, p);
    if entry_key(x) == k {
        assert forall|j: int| 0 <= j < b.len() implies !p(#[trigger] b[j]) by {
            assert(b[j] == s[pos + j]);
            lemma_lex_irreflexive(entry_key(x));
        }
        lemma_filter_none(b, p);
        assert(a.filter(p) + seq![x].filter(p) + b.filter(p) =~= (a.filter(p) + b.filter(p)).push(
            x,
        ));
    } else {
        assert(a.filter(p) + seq![x].filter(p) =~= a.filter(p));
    }
}

proof fn lemma_insert_sorted(s: Seq<EntryModel>, pos: int, x: EntryModel)
    requires
        0 <= pos <= s.len(),
        sorted_by_key(s),
        forall|j: int| 0 <= j < pos ==> !lex_lt(entry_key(x), #[trigger] entry_key(s[j])),
        forall|j: int| pos <= j < s.len() ==> lex_lt(entry_key(x), #[trigger] entry_key(s[j])),
    ensures
        sorted_by_key(s.insert(pos, x)),
{
    let t = s.insert(pos, x);
    assert forall|i: int, j: int| 0 <= i < j < t.len() implies !lex_lt(
        entry_key(t[j]),
        entry_key(t[i]),
    ) by {
        if i == pos {
            assert(t[j] == s[j - 1]);
            lemma_lex_asymmetric(entry_key(x), entry_key(s[j - 1]));
        } else if j == pos {
            assert(t[i] == s[i]);
        } else {
            let si = if i < pos {
                i
            } else {
                i - 1
            };
            let sj = if j < pos {
                j
            } else {
                j - 1
            };
            assert(t[i] == s[si]);
            assert(t[j] == s[sj]);
        }
    }
}

/// A stable sort of the entries by lowercased relative path.
fn sort_entries(v: &Vec<WorkspaceEntry>) -> (res: Vec<WorkspaceEntry>)
    ensures
        is_stable_sort_of(entry_models(res@), entry_models(v@)),
{
    let ghost mv = entry_models(v@);
    let mut out: Vec<WorkspaceEntry> = Vec::new();
    let mut i: usize = 0;
    proof {
        reveal(Seq::filter);
        assert forall|k: Seq<char>| #[trigger] entry_models(out@).filter(with_key(k)) == mv.take(
            0,
        ).filter(with_key(k)) by {
            assert(entry_models(out@) =~= Seq::<EntryModel>::empty());
            assert(mv.take(0) =~= Seq::<EntryModel>::empty());
        }
    }
    while i < v.len()
        invariant
            i <= v@.len(),
            mv == entry_models(v@),
            sorted_by_key(entry_models(out@)),
            forall|k: Seq<char>| #[trigger]
                entry_models(out@).filter(with_key(k)) == mv.take(i as int).filter(with_key(k)),
        decreases v.len() - i,
    {
        let x = v[i].duplicate();
        let xk = key_chars(&x);
        let pos = upper_bound(&out, &xk);
        let ghost before = entry_models(out@);
        out.insert(pos, x);
        proof {
            let xm = entry_model(x);
            assert(entry_models(out@) =~= before.insert(pos as int, xm));
            lemma_insert_sorted(before, pos as int, xm);
            assert(mv.take(i + 1).drop_last() =~= mv.take(i as int));
            assert(mv.take(i + 1).last() == xm);
            assert forall|k: Seq<char>| #[trigger] entry_models(out@).filter(with_key(k)) == mv.take(
                i + 1,
            ).filter(with_key(k)) by {
                lemma_insert_filter(before, pos as int, xm, k);
                reveal(Seq::filter);
            }
        }
        i = i + 1;
    }
    assert(mv.take(v@.len() as int) =~= mv);
    out
}

/// A scan of a workspace in progress.
pub struct WorkspaceScan {
    root: String,
    ancestors: Vec<String>,
    files: Vec<WorkspaceEntry>,
}

impl View for WorkspaceScan {
    type V = ScanModel;

    closed spec fn view(&self) -> ScanModel {
        ScanModel {
            root: self.root@,
            ancestors: self.ancestors@.map_values(|s: String| s@),
            files: entry_models(self.files@),
        }
    }
}

impl WorkspaceScan {
    /// A scan of the workspace at `root`, before the walk reports anything.
    pub fn new(root: &str) -> (res: WorkspaceScan)
        ensures
            res@ == initial_scan(root@),
    {
        let res = WorkspaceScan { root: String::from_str(root), ancestors: Vec::new(), files: Vec::new() };
        assert(res@.ancestors =~= Seq::<Seq<char>>::empty());
        assert(res@.files =~= Seq::<EntryModel>::empty());
        res
    }

    /// A scan of the workspace at `root`; a root that is not a directory is
    /// refused.
    pub fn start(root: &str, root_is_dir: bool) -> (res: Result<WorkspaceScan, AppError>)
        ensures
            !root_is_dir ==> (res matches Err(e) && e == AppError::NotADirectory),
            root_is_dir ==> (res matches Ok(s) && s@ == initial_scan(root@)),
    {
        if root_is_dir {
            Ok(WorkspaceScan::new(root))
        } else {
            Err(AppError::NotADirectory)
        }
    }

    /// Takes the next report of the walk into account.
    pub fn visit(&mut self, event: WalkEvent) -> (res: Result<(), AppError>)
        ensures
            match spec_visit(old(self)@, event) {
                Ok(s) => res is Ok && final(self)@ == s,
                Err(e) => res == Err::<(), AppError>(e),
            },
    {
        match event {
            WalkEvent::Failure(m) => Err(AppError::Walk(m)),
            WalkEvent::Entry(e) => {
                let ghost old_names = self.ancestors@.map_values(|s: String| s@);
                if e.depth == 0 {
                    self.ancestors = Vec::new();
                } else {
                    let keep = if e.depth - 1 <= self.ancestors.len() {
                        e.depth - 1
                    } else {
                        self.ancestors.len()
                    };
                    let ghost pre = self.ancestors@;
                    self.ancestors.truncate(keep);
                    self.ancestors.push(e.name.clone());
                    assert(self.ancestors@ =~= pre.take(keep as int).push(e.name));
                }
                let ghost names = names_at(old_names, e.depth as nat, e.name@);
                assert(self.ancestors@.map_values(|s: String| s@) =~= names);
                let path = join_names(self.root.clone(), &self.ancestors);
                if !e.is_file || !is_markdown(path.as_str()) {
                    return Ok(());
                }
                if self.files.len() >= MAX_WORKSPACE_FILES {
                    return Err(AppError::WorkspaceTooLarge);
                }
                let relative_path = join_names(String::new(), &self.ancestors);
                let entry = WorkspaceEntry { path, relative_path, name: e.name };
                let ghost before = self.files@;
                self.files.push(entry);
                assert(entry_models(self.files@) =~= entry_models(before).push(entry_model(entry)));
                Ok(())
            },
        }
    }

    /// The documents found, ordered by their lowercased relative paths;
    /// documents whose keys are equal stay in walk order.
    pub fn finish(self) -> (res: Vec<WorkspaceEntry>)
        ensures
            is_stable_sort_of(entry_models(res@), self@.files),
            ordered_by_lowercased_relative_path(entry_models(res@), self@.files),
    {
        let res = sort_entries(&self.files);
        proof {
            lemma_listing_ordered_by_relative_path(entry_models(res@), self@.files);
        }
        res
    }
}

/// Scans the workspace at `root` from the reports of a walk over it.  A root
/// that is not a directory is refused before anything else.
pub fn scan_workspace(root: &str, root_is_dir: bool, events: Vec<WalkEvent>) -> (res: Result<
    Vec<WorkspaceEntry>,
    AppError,
>)
    ensures
        !root_is_dir ==> res == Err::<Vec<WorkspaceEntry>, AppError>(AppError::NotADirectory),
        root_is_dir ==> match spec_scan(root@, events@) {
            Ok(s) => res matches Ok(v) && is_stable_sort_of(entry_models(v@), s.files)
                && ordered_by_lowercased_relative_path(entry_models(v@), s.files),
            Err(e) => res == Err::<Vec<WorkspaceEntry>, AppError>(e),
        },
{
    let mut scan = match WorkspaceScan::start(root, root_is_dir) {
        Ok(scan) => scan,
        Err(e) => {
            return Err(e);
        },
    };
    let ghost all = events@;
    let mut pending = into_reversed(events);
    let mut i: usize = 0;
    let n = pending.len();
    while i < n
        invariant
            root_is_dir,
            all == events@,
            n == all.len(),
            i <= n,
            pending@.len() == n - i,
            forall|j: int| 0 <= j < n - i ==> pending@[j] == all[n - 1 - j],
            spec_scan(root@, all.take(i as int)) == Ok::<ScanModel, AppError>(scan@),
        decreases n - i,
    {
        let event = pending.pop().unwrap();
        assert(event == all[i as int]);
        assert(all.take(i + 1).drop_last() =~= all.take(i as int));
        assert(all.take(i + 1).last() == all[i as int]);
        let ghost before = scan@;
        assert(spec_scan(root@, all.take(i + 1)) == spec_visit(before, event));
        match scan.visit(event) {
            Ok(()) => {},
            Err(e) => {
                proof {
                    assert(spec_scan(root@, all.take(i + 1)) == Err::<ScanModel, AppError>(e));
                    lemma_scan_error_sticks(root@, all, i + 1);
                }
                return Err(e);
            },
        }
        i = i + 1;
    }
    assert(all.take(n as int) =~= all);
    Ok(scan.finish())
}

proof fn lemma_filter_last(s: Seq<EntryModel>, k: Seq<char>)
    requires
        s.len() > 0,
    ensures
        s.filter(with_key(k)) == (if entry_key(s.last()) == k {
            s.drop_last().filter(with_key(k)).push(s.last())
        } else {
            s.drop_last().filter(with_key(k))
        }),
{
    reveal(Seq::filter);
}

proof fn lemma_key_present(a: Seq<EntryModel>, b: Seq<EntryModel>)
    requires
        b.len() > 0,
        forall|k: Seq<char>| #[trigger] a.filter(with_key(k)) == b.filter(with_key(k)),
    ensures
        exists|i: int| 0 <= i < a.len() && entry_key(#[trigger] a[i]) == entry_key(b.last()),
{
    broadcast use vstd::seq_lib::group_filter_ensures;

    let k = entry_key(b.last());
    b.lemma_filter_contains(with_key(k), b.len() - 1);
    assert(a.filter(with_key(k)) == b.filter(with_key(k)));
    a.lemma_filter_contains_rev(with_key(k), b.last());
    let i = choose|i: int| 0 <= i < a.len() && a[i] == b.last();
    assert(entry_key(a[i]) == k);
}

/// Two sequences that are both sorted by key and agree on the entries of
/// every key, in order, are equal: a stable sort has exactly one result.
pub proof fn lemma_stable_sort_unique(a: Seq<EntryModel>, b: Seq<EntryModel>)
    requires
        sorted_by_key(a),
        sorted_by_key(b),
        forall|k: Seq<char>| #[trigger] a.filter(with_key(k)) == b.filter(with_key(k)),
    ensures
        a == b,
    decreases a.len() + b.len(),
{
    if a.len() == 0 && b.len() == 0 {
        assert(a =~= b);
    } else if a.len() == 0 {
        lemma_key_present(a, b);
    } else if b.len() == 0 {
        lemma_key_present(b, a);
    } else {
        let x = a.last();
        let y = b.last();
        let kx = entry_key(x);
        let ky = entry_key(y);
        lemma_key_present(a, b);
        lemma_key_present(b, a);
        let i = choose|i: int| 0 <= i < a.len() && entry_key(#[trigger] a[i]) == ky;
        let j = choose|j: int| 0 <= j < b.len() && entry_key(#[trigger] b[j]) == kx;
        if i < a.len() - 1 {
            assert(!lex_lt(kx, ky));
        } else {
            lemma_lex_irreflexive(kx);
        }
        if j < b.len() - 1 {
            assert(!lex_lt(ky, kx));
        } else {
            lemma_lex_irreflexive(ky);
        }
        lemma_lex_total(kx, ky);
        assert(kx == ky);
        lemma_filter_last(a, kx);
        lemma_filter_last(b, kx);
        assert(a.filter(with_key(kx)).last() == x);
        assert(b.filter(with_key(kx)).last() == y);
        assert(x == y);
        let a2 = a.drop_last();
        let b2 = b.drop_last();
        assert forall|k: Seq<char>| #[trigger] a2.filter(with_key(k)) == b2.filter(with_key(k)) by {
            lemma_filter_last(a, k);
            lemma_filter_last(b, k);
            if kx == k {
                assert(a2.filter(with_key(k)) =~= a.filter(with_key(k)).drop_last());
                assert(b2.filter(with_key(k)) =~= b.filter(with_key(k)).drop_last());
            }
        }
        assert(sorted_by_key(a2));
        assert(sorted_by_key(b2));
        lemma_stable_sort_unique(a2, b2);
        assert(a =~= a2.push(x));
        assert(b =~= b2.push(y));
    }
}

/// Every document a scan lists is a Markdown file, and a scan lists at most
/// 20,000 of them.
pub proof fn lemma_scan_lists_markdown_documents(root: Seq<char>, events: Seq<WalkEvent>)
    ensures
        spec_scan(root, events) matches Ok(s) ==> {
            &&& s.root == root
            &&& s.files.len() <= 20000
            &&& forall|i: int| 0 <= i < s.files.len() ==> spec_is_markdown(#[trigger] s.files[i].path)
        },
    decreases events.len(),
{
    if events.len() > 0 {
        lemma_scan_lists_markdown_documents(root, events.drop_last());
        match spec_scan(root, events.drop_last()) {
            Ok(s) => {
                match spec_scan(root, events) {
                    Ok(t) => {
                        assert forall|i: int| 0 <= i < t.files.len() implies spec_is_markdown(
                            #[trigger] t.files[i].path,
                        ) by {
                            if i < s.files.len() {
                                assert(t.files[i] == s.files[i]);
                            }
                        }
                    },
                    Err(_) => {},
                }
            },
            Err(_) => {},
        }
    }
}

/// A regular Markdown file is listed, with its relative path and name, while
/// fewer than 20,000 documents are listed; once 20,000 are, it ends the scan
/// as too large.  Other entries are never listed.
pub proof fn lemma_visit_lists_up_to_the_limit(s: ScanModel, e: WalkEntry)
    ensures
        ({
            let names = names_at(s.ancestors, e.depth as nat, e.name@);
            let path = join_all(s.root, names);
            &&& (e.is_file && spec_is_markdown(path) && s.files.len() < 20000) ==> (spec_visit(
                s,
                WalkEvent::Entry(e),
            ) matches Ok(t) && t.files == s.files.push(
                EntryModel { path, relative_path: join_all(seq![], names), name: e.name@ },
            ))
            &&& (e.is_file && spec_is_markdown(path) && s.files.len() >= 20000) ==> spec_visit(
                s,
                WalkEvent::Entry(e),
            ) == Err::<ScanModel, AppError>(AppError::WorkspaceTooLarge)
            &&& !(e.is_file && spec_is_markdown(path)) ==> (spec_visit(s, WalkEvent::Entry(e))
                matches Ok(t) && t.files == s.files)
        }),
{
}

/// Below the root, an entry's path is the root joined with its relative
/// path, when every name on the way is a plain file name.
pub proof fn lemma_path_is_root_joined_with_relative(root: Seq<char>, names: Seq<Seq<char>>)
    requires
        names.len() > 0,
        forall|i: int| 0 <= i < names.len() ==> crate::path::is_plain_name(#[trigger] names[i]),
    ensures
        join_all(root, names) == spec_join(root, join_all(seq![], names)),
        join_all(seq![], names).len() > 0,
        join_all(seq![], names)[0] != '/',
        join_all(seq![], names).last() != '/',
    decreases names.len(),
{
    let n = names.last();
    assert(crate::path::is_plain_name(n));
    assert(n[0] != '/' && n.last() != '/');
    if names.len() == 1 {
        assert(names.drop_last() =~= Seq::<Seq<char>>::empty());
        assert(Seq::<char>::empty() + n =~= n);
        assert(join_all(seq![], names) == spec_join(seq![], n));
        assert(join_all(seq![], names) == n);
        assert(join_all(root, names.drop_last()) == root);
        assert(join_all(root, names) == spec_join(root, n));
    } else {
        let ns = names.drop_last();
        assert forall|i: int| 0 <= i < ns.len() implies crate::path::is_plain_name(#[trigger] ns[i]) by {
            assert(ns[i] == names[i]);
        }
        lemma_path_is_root_joined_with_relative(root, ns);
        let r = join_all(seq![], ns);
        let x = join_all(root, ns);
        assert(x == spec_join(root, r));
        let sep = if root.len() > 0 && root.last() != '/' {
            seq!['/']
        } else {
            Seq::<char>::empty()
        };
        assert(x =~= root + sep + r);
        assert(x.last() == r.last());
        assert(x.len() > 0);
        assert(join_all(root, names) =~= root + sep + r + seq!['/'] + n);
        assert(join_all(seq![], names) =~= r + seq!['/'] + n);
        assert((r + seq!['/'] + n)[0] == r[0]);
        assert(spec_join(root, r + seq!['/'] + n) =~= root + sep + r + seq!['/'] + n);
        assert(join_all(root, names) == spec_join(root, join_all(seq![], names)));
    }
}

/// The walk reports plain file names, and its root is not a file.
pub open spec fn walk_names_plain(events: Seq<WalkEvent>) -> bool {
    forall|i: int| 0 <= i < events.len() ==> match #[trigger] events[i] {
        WalkEvent::Entry(e) => crate::path::is_plain_name(e.name@) && (e.depth == 0 ==> !e.is_file),
        WalkEvent::Failure(_) => true,
    }
}

/// A listed document's path is the root joined with its relative path, and
/// its name is that path's file name.
pub open spec fn entry_consistent(root: Seq<char>, e: EntryModel) -> bool {
    &&& e.path == spec_join(root, e.relative_path)
    &&& crate::path::spec_file_name(e.path) == Some(e.name)
}

/// When the walk reports plain names, every document a scan lists has a path
/// that is the root joined with its relative path, and is named by that
/// path's file name.
pub proof fn lemma_scan_entries_consistent(root: Seq<char>, events: Seq<WalkEvent>)
    requires
        walk_names_plain(events),
    ensures
        spec_scan(root, events) matches Ok(s) ==> {
            &&& s.root == root
            &&& forall|i: int| 0 <= i < s.ancestors.len() ==> crate::path::is_plain_name(#[trigger] s.ancestors[i])
            &&& forall|i: int| 0 <= i < s.files.len() ==> entry_consistent(root, #[trigger] s.files[i])
        },
    decreases events.len(),
{
    if events.len() > 0 {
        let d = events.drop_last();
        assert forall|i: int| 0 <= i < d.len() implies match #[trigger] d[i] {
            WalkEvent::Entry(e) => crate::path::is_plain_name(e.name@) && (e.depth == 0 ==> !e.is_file),
            WalkEvent::Failure(_) => true,
        } by {
            assert(d[i] == events[i]);
        }
        lemma_scan_entries_consistent(root, d);
        let last = events[events.len() - 1];
        assert(last == events.last());
        match spec_scan(root, d) {
            Ok(s) => {
                match last {
                    WalkEvent::Entry(e) => {
                        let names = names_at(s.ancestors, e.depth as nat, e.name@);
                        assert forall|i: int| 0 <= i < names.len() implies crate::path::is_plain_name(
                            #[trigger] names[i],
                        ) by {
                            if i < names.len() - 1 {
                                assert(names[i] == s.ancestors[i]);
                            }
                        }
                        assert(spec_scan(root, events) == spec_visit(s, last));
                        match spec_scan(root, events) {
                            Ok(t) => {
                                assert(t.ancestors == names);
                                let path = join_all(root, names);
                                if e.is_file && spec_is_markdown(path) && s.files.len() < MAX_WORKSPACE_FILES {
                                    assert(e.depth != 0);
                                    lemma_path_is_root_joined_with_relative(root, names);
                                    assert(names.last() == e.name@);
                                    assert(join_all(root, names) == spec_join(join_all(root, names.drop_last()), names.last()));
                                    crate::path::lemma_join_plain_name(join_all(root, names.drop_last()), e.name@);
                                    let em = EntryModel {
                                        path,
                                        relative_path: join_all(seq![], names),
                                        name: e.name@,
                                    };
                                    assert(spec_visit(s, last) == Ok::<ScanModel, AppError>(
                                        ScanModel { root: s.root, ancestors: names, files: s.files.push(em) },
                                    ));
                                    assert(t.files == s.files.push(em));
                                    assert(entry_consistent(root, em));
                                    assert forall|i: int| 0 <= i < t.files.len() implies entry_consistent(
                                        root,
                                        #[trigger] t.files[i],
                                    ) by {
                                        if i < s.files.len() {
                                            assert(t.files[i] == s.files[i]);
                                        }
                                    }
                                } else {
                                    assert(spec_visit(s, last) == Ok::<ScanModel, AppError>(
                                        ScanModel { root: s.root, ancestors: names, files: s.files },
                                    ));
                                    assert(t.files == s.files);
                                }
                            },
                            Err(_) => {},
                        }
                    },
                    WalkEvent::Failure(_) => {},
                }
            },
            Err(_) => {},
        }
    }
}

/// The same items in the opposite order.
pub(crate) fn into_reversed<T>(v: Vec<T>) -> (res: Vec<T>)
    ensures
        res@.len() == v@.len(),
        forall|j: int| 0 <= j < v@.len() ==> res@[j] == v@[v@.len() - 1 - j],
{
    let ghost orig = v@;
    let mut v = v;
    let mut res: Vec<T> = Vec::new();
    while v.len() > 0
        invariant
            v@.len() + res@.len() == orig.len(),
            v@ == orig.take(v@.len() as int),
            forall|j: int| 0 <= j < res@.len() ==> res@[j] == orig[orig.len() - 1 - j],
        decreases v.len(),
    {
        let x = v.pop().unwrap();
        res.push(x);
    }
    res
}

/// Once a scan has failed, later events do not change its outcome.
proof fn lemma_scan_error_sticks(root: Seq<char>, events: Seq<WalkEvent>, i: int)
    requires
        0 <= i <= events.len(),
        spec_scan(root, events.take(i)) is Err,
    ensures
        spec_scan(root, events) == spec_scan(root, events.take(i)),
    decreases events.len() - i,
{
    if i < events.len() {
        assert(events.take(i + 1).drop_last() =~= events.take(i));
        lemma_scan_error_sticks(root, events, i + 1);
    } else {
        assert(events.take(i) =~= events);
    }
}

} // verus!
