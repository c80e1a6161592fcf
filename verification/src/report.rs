//! The hierarchical report: one node per file or directory, with bottom-up
//! count propagation, and the aggregator that builds the report from a
//! snapshot of a directory tree.

use vstd::prelude::*;
use vstd::string::StrSliceExecFns;

use crate::errors::ScanError;
use crate::scanner::{classify_content, marked_count, spec_lines};

verus! {

// ---------------------------------------------------------------------------
// The report tree
// ---------------------------------------------------------------------------

/// One node of the report: a file or a directory, its counts, and its
/// children in traversal order. For an interior node the counts are the
/// sums of the children's counts; for a file leaf they are the scan result.
pub struct Output {
    pub path: String,
    pub unsafe_lines: u64,
    pub all_lines: u64,
    pub children: Vec<Output>,
}

/// The mathematical shape of a report node.
pub ghost struct ReportV {
    pub path: Seq<char>,
    pub marked: nat,
    pub total: nat,
    pub children: Seq<ReportV>,
}

/// The views of a sequence of report nodes.
pub open spec fn views_of(s: Seq<Output>) -> Seq<ReportV>
    decreases s,
{
    if s.len() == 0 {
        Seq::empty()
    } else {
        views_of(s.drop_last()).push(report_view(s.last()))
    }
}

/// The view of one report node.
pub open spec fn report_view(o: Output) -> ReportV
    decreases o,
{
    ReportV {
        path: o.path@,
        marked: o.unsafe_lines as nat,
        total: o.all_lines as nat,
        children: views_of(o.children@),
    }
}

impl View for Output {
    type V = ReportV;

    open spec fn view(&self) -> ReportV {
        report_view(*self)
    }
}

/// The tree invariant: every interior node's counts are the sums of its
/// children's counts, at every level.
pub open spec fn well_formed(v: ReportV) -> bool
    decreases v,
{
    &&& (v.children.len() > 0 ==> v.marked == sum_marked(v.children) && v.total == sum_total(
        v.children,
    ))
    &&& forall|i: int| 0 <= i < v.children.len() ==> well_formed(#[trigger] v.children[i])
}

/// The sum of the children's marked-line counts.
pub open spec fn sum_marked(cs: Seq<ReportV>) -> nat
    decreases cs,
{
    if cs.len() == 0 {
        0
    } else {
        sum_marked(cs.drop_last()) + cs.last().marked
    }
}

/// The sum of the children's total-line counts.
pub open spec fn sum_total(cs: Seq<ReportV>) -> nat
    decreases cs,
{
    if cs.len() == 0 {
        0
    } else {
        sum_total(cs.drop_last()) + cs.last().total
    }
}

// ---------------------------------------------------------------------------
// The directory snapshot that aggregation runs over
// ---------------------------------------------------------------------------

/// A snapshot of one filesystem entry, as the caller hands it to the
/// aggregator: a file with its text (or none, when it could not be read),
/// a directory with its entries (or one that could not be listed), or a
/// path that does not exist.
pub enum FsTree {
    File { path: String, content: Option<String> },
    Dir { path: String, entries: Vec<FsTree> },
    UnlistableDir { path: String },
    Missing { path: String },
}

/// The path carries the recognized source-file suffix `.rs`.
pub open spec fn has_rs_suffix(p: Seq<char>) -> bool {
    &&& p.len() >= 3
    &&& p[p.len() - 3] == '.'
    &&& p[p.len() - 2] == 'r'
    &&& p[p.len() - 1] == 's'
}

/// A file entry that the traversal ignores: a file whose name does not
/// carry the `.rs` suffix. It produces no node and no error.
pub open spec fn is_skipped(t: FsTree) -> bool {
    t matches FsTree::File { path, .. } && !has_rs_suffix(path@)
}

/// Whether traversing this entry succeeds.
pub open spec fn entry_ok(t: FsTree) -> bool
    decreases t,
{
    match t {
        FsTree::File { path, content } => !has_rs_suffix(path@) || content is Some,
        FsTree::Dir { entries, .. } => entries_ok(entries@),
        FsTree::UnlistableDir { .. } => false,
        FsTree::Missing { .. } => false,
    }
}

/// Whether traversing every entry of the sequence succeeds.
pub open spec fn entries_ok(s: Seq<FsTree>) -> bool
    decreases s,
{
    if s.len() == 0 {
        true
    } else {
        entries_ok(s.drop_last()) && entry_ok(s.last())
    }
}

/// The error that a failing traversal of this entry reports: the first
/// one met in traversal order.
pub open spec fn entry_error(t: FsTree) -> ScanError
    decreases t,
{
    match t {
        FsTree::File { .. } => ScanError::ReadError,
        FsTree::Dir { entries, .. } => entries_error(entries@),
        FsTree::UnlistableDir { .. } => ScanError::PermissionError,
        FsTree::Missing { .. } => ScanError::NotFound,
    }
}

/// The first error met while traversing the sequence in order.
pub open spec fn entries_error(s: Seq<FsTree>) -> ScanError
    decreases s,
{
    if s.len() == 0 {
        arbitrary()
    } else if !entry_ok(s[0]) {
        entry_error(s[0])
    } else {
        entries_error(s.drop_first())
    }
}

/// The report node of one entry, when its traversal succeeds and it is
/// not skipped.
pub open spec fn entry_node(t: FsTree, count_blank: bool) -> ReportV
    decreases t,
{
    match t {
        FsTree::File { path, content } => (ReportV {
            path: path@,
            marked: match content {
                Some(c) => marked_count(spec_lines(c@), count_blank),
                None => arbitrary(),
            },
            total: match content {
                Some(c) => spec_lines(c@).len(),
                None => arbitrary(),
            },
            children: Seq::empty(),
        }),
        FsTree::Dir { path, entries } => {
            let cs = entries_nodes(entries@, count_blank);
            ReportV { path: path@, marked: sum_marked(cs), total: sum_total(cs), children: cs }
        },
        FsTree::UnlistableDir { path } => (ReportV {
            path: path@,
            marked: arbitrary(),
            total: arbitrary(),
            children: Seq::empty(),
        }),
        FsTree::Missing { path } => (ReportV {
            path: path@,
            marked: arbitrary(),
            total: arbitrary(),
            children: Seq::empty(),
        }),
    }
}

/// The report nodes of a sequence of entries, in order, with skipped
/// files absent.
pub open spec fn entries_nodes(s: Seq<FsTree>, count_blank: bool) -> Seq<ReportV>
    decreases s,
{
    if s.len() == 0 {
        Seq::empty()
    } else {
        let rest = entries_nodes(s.drop_last(), count_blank);
        if is_skipped(s.last()) {
            rest
        } else {
            rest.push(entry_node(s.last(), count_blank))
        }
    }
}

/// An upper bound on every line count the traversal of this entry can
/// produce: the line counts of all its readable source files.
pub open spec fn tree_cap(t: FsTree) -> nat
    decreases t,
{
    match t {
        FsTree::File { path, content } => match content {
            Some(c) => if has_rs_suffix(path@) {
                spec_lines(c@).len()
            } else {
                0
            },
            None => 0,
        },
        FsTree::Dir { entries, .. } => entries_cap(entries@),
        FsTree::UnlistableDir { .. } => 0,
        FsTree::Missing { .. } => 0,
    }
}

/// The bound summed over a sequence of entries.
pub open spec fn entries_cap(s: Seq<FsTree>) -> nat
    decreases s,
{
    if s.len() == 0 {
        0
    } else {
        entries_cap(s.drop_last()) + tree_cap(s.last())
    }
}

/// The nesting height of a snapshot: directories stand above their
/// entries. The traversal recurses along this measure.
pub open spec fn fs_height(t: FsTree) -> nat
    decreases t,
{
    match t {
        FsTree::Dir { entries, .. } => 1 + entries_height(entries@),
        _ => 0,
    }
}

/// The greatest height among a sequence of entries.
pub open spec fn entries_height(s: Seq<FsTree>) -> nat
    decreases s,
{
    if s.len() == 0 {
        0
    } else {
        let rest = entries_height(s.drop_last());
        let h = fs_height(s.last());
        if h > rest {
            h
        } else {
            rest
        }
    }
}

/// No entry of a sequence stands higher than the sequence's height.
pub proof fn lemma_entries_height(s: Seq<FsTree>, i: int)
    requires
        0 <= i < s.len(),
    ensures
        fs_height(s[i]) <= entries_height(s),
    decreases s,
{
    if i < s.len() - 1 {
        lemma_entries_height(s.drop_last(), i);
        assert(s.drop_last()[i] == s[i]);
    }
}

// ---------------------------------------------------------------------------
// Facts about the aggregation model
// ---------------------------------------------------------------------------

/// A sequence of entries traverses whole exactly when each of its entries
/// does.
pub proof fn lemma_entries_ok_iff(s: Seq<FsTree>)
    ensures
        entries_ok(s) <==> (forall|i: int| 0 <= i < s.len() ==> entry_ok(#[trigger] s[i])),
    decreases s,
{
    if s.len() > 0 {
        lemma_entries_ok_iff(s.drop_last());
        assert(forall|i: int|
            0 <= i < s.len() - 1 ==> s.drop_last()[i] == #[trigger] s[i]);
        if entries_ok(s.drop_last()) && entry_ok(s.last()) {
            assert(forall|i: int| 0 <= i < s.len() - 1 ==> entry_ok(#[trigger] s.drop_last()[i]));
            assert(forall|i: int|
                0 <= i < s.len() ==> entry_ok(#[trigger] s[i]) || i == s.len() - 1);
        }
    }
}

/// The first failing entry decides the error of the whole sequence.
pub proof fn lemma_entries_error_at(s: Seq<FsTree>, j: int)
    requires
        0 <= j < s.len(),
        forall|i: int| 0 <= i < j ==> entry_ok(#[trigger] s[i]),
        !entry_ok(s[j]),
    ensures
        entries_error(s) == entry_error(s[j]),
    decreases j,
{
    if entry_ok(s[0]) {
        assert(j > 0);
        let rest = s.drop_first();
        assert(forall|i: int| 0 <= i < j - 1 ==> rest[i] == #[trigger] s[i + 1]);
        lemma_entries_error_at(rest, j - 1);
    } else {
        assert(j == 0);
    }
}

/// A prefix of the sequence never carries a larger bound than the whole.
pub proof fn lemma_entries_cap_prefix(s: Seq<FsTree>, j: int)
    requires
        0 <= j <= s.len(),
    ensures
        entries_cap(s.take(j)) <= entries_cap(s),
    decreases s.len() - j,
{
    if j == s.len() {
        assert(s.take(j) =~= s);
    } else {
        assert(s.take(j + 1).drop_last() =~= s.take(j));
        assert(s.take(j + 1).last() == s[j]);
        lemma_entries_cap_prefix(s, j + 1);
    }
}

/// A successful, unskipped entry's node keeps its marked count within its
/// total, and its total within the bound.
pub proof fn lemma_entry_node_bounds(t: FsTree, count_blank: bool)
    requires
        entry_ok(t),
        !is_skipped(t),
    ensures
        entry_node(t, count_blank).marked <= entry_node(t, count_blank).total,
        entry_node(t, count_blank).total <= tree_cap(t),
    decreases t,
{
    match t {
        FsTree::File { path, content } => {
            let c = content->0;
            crate::scanner::lemma_marked_bounded(
                crate::scanner::initial_state(),
                spec_lines(c@),
                count_blank,
            );
        },
        FsTree::Dir { entries, .. } => {
            lemma_entries_node_bounds(entries@, count_blank);
        },
        _ => {},
    }
}

/// The bounds above, summed over a sequence of entries.
pub proof fn lemma_entries_node_bounds(s: Seq<FsTree>, count_blank: bool)
    requires
        entries_ok(s),
    ensures
        sum_marked(entries_nodes(s, count_blank)) <= sum_total(entries_nodes(s, count_blank)),
        sum_total(entries_nodes(s, count_blank)) <= entries_cap(s),
    decreases s,
{
    if s.len() > 0 {
        lemma_entries_node_bounds(s.drop_last(), count_blank);
        if !is_skipped(s.last()) {
            lemma_entry_node_bounds(s.last(), count_blank);
            let rest = entries_nodes(s.drop_last(), count_blank);
            let cs = entries_nodes(s, count_blank);
            assert(cs.drop_last() =~= rest);
            assert(cs.last() == entry_node(s.last(), count_blank));
        }
    }
}

/// Every report that a successful traversal produces satisfies the tree
/// invariant: interior counts are the sums of the children's counts.
pub proof fn lemma_entry_node_well_formed(t: FsTree, count_blank: bool)
    requires
        entry_ok(t),
    ensures
        well_formed(entry_node(t, count_blank)),
    decreases t,
{
    if let FsTree::Dir { entries, .. } = t {
        lemma_entries_nodes_well_formed(entries@, count_blank);
        let v = entry_node(t, count_blank);
        let cs = entries_nodes(entries@, count_blank);
        assert(v.children == cs);
        assert(forall|i: int| 0 <= i < v.children.len() ==> well_formed(#[trigger] v.children[i]));
    }
}

/// The tree invariant, over a sequence of entries.
pub proof fn lemma_entries_nodes_well_formed(s: Seq<FsTree>, count_blank: bool)
    requires
        entries_ok(s),
    ensures
        forall|i: int|
            0 <= i < entries_nodes(s, count_blank).len() ==> well_formed(
                #[trigger] entries_nodes(s, count_blank)[i],
            ),
    decreases s,
{
    if s.len() > 0 {
        lemma_entries_nodes_well_formed(s.drop_last(), count_blank);
        if !is_skipped(s.last()) {
            lemma_entry_node_well_formed(s.last(), count_blank);
        }
        let rest = entries_nodes(s.drop_last(), count_blank);
        let cs = entries_nodes(s, count_blank);
        assert(forall|i: int| 0 <= i < rest.len() ==> #[trigger] cs[i] == rest[i]);
    }
}

/// Aggregating an unmodified snapshot twice yields identical reports: the
/// report is a function of the snapshot and the blank-line policy alone.
pub proof fn lemma_aggregate_idempotent(t: FsTree, count_blank: bool, o1: Output, o2: Output)
    requires
        o1@ == entry_node(t, count_blank),
        o2@ == entry_node(t, count_blank),
    ensures
        o1@ == o2@,
{
}

// ---------------------------------------------------------------------------
// The report node's operations
// ---------------------------------------------------------------------------

impl Output {
    /// A fresh node for `path`, with zero counts and no children.
    pub fn default(path: String) -> (r: Output)
        ensures
            r@ == (ReportV { path: path@, marked: 0, total: 0, children: Seq::empty() }),
    {
        Output { path, unsafe_lines: 0, all_lines: 0, children: Vec::new() }
    }

    /// A fresh leaf node for `path` carrying measured counts.
    pub fn new(path: String, unsafe_lines: u64, all_lines: u64) -> (r: Output)
        ensures
            r@ == (ReportV {
                path: path@,
                marked: unsafe_lines as nat,
                total: all_lines as nat,
                children: Seq::empty(),
            }),
    {
        Output { path, unsafe_lines, all_lines, children: Vec::new() }
    }

    /// Sets the node's marked-line count.
    pub fn set_unsafe_lines(&mut self, unsafe_lines: u64)
        ensures
            final(self)@ == (ReportV { marked: unsafe_lines as nat, ..old(self)@ }),
    {
        self.unsafe_lines = unsafe_lines;
    }

    /// Sets the node's total-line count.
    pub fn set_all_lines(&mut self, all_lines: u64)
        ensures
            final(self)@ == (ReportV { total: all_lines as nat, ..old(self)@ }),
    {
        self.all_lines = all_lines;
    }

    /// Attaches a finished child node.
    pub fn add_child(&mut self, child: Output)
        ensures
            final(self)@ == (ReportV {
                children: old(self)@.children.push(child@),
                ..old(self)@
            }),
    {
        let ghost before = self.children@;
        self.children.push(child);
        proof {
            assert(self.children@.drop_last() =~= before);
            assert(self.children@.last() == child);
        }
    }

    /// The node's path.
    pub fn path(&self) -> (r: &String)
        ensures
            r@ == self@.path,
    {
        &self.path
    }

    /// The node's marked-line count.
    pub fn unsafe_lines(&self) -> (r: u64)
        ensures
            r as nat == self@.marked,
    {
        self.unsafe_lines
    }

    /// The node's total-line count.
    pub fn all_lines(&self) -> (r: u64)
        ensures
            r as nat == self@.total,
    {
        self.all_lines
    }

    /// The node's children, in traversal order.
    pub fn children(&self) -> (r: &Vec<Output>)
        ensures
            views_of(r@) == self@.children,
    {
        &self.children
    }
}

// ---------------------------------------------------------------------------
// The aggregator
// ---------------------------------------------------------------------------

/// Decides `has_rs_suffix` for a path.
fn rs_suffix(p: &str) -> (r: bool)
    ensures
        r == has_rs_suffix(p@),
{
    let n = p.unicode_len();
    if n < 3 {
        return false;
    }
    let c1 = p.get_char(n - 3);
    let c2 = p.get_char(n - 2);
    let c3 = p.get_char(n - 1);
    c1 == '.' && c2 == 'r' && c3 == 's'
}

/// What classifying one snapshot entry as a single file returns: the scan
/// counts of a readable source file, and otherwise the error that says why
/// no counts exist.
pub open spec fn spec_classify_file(t: FsTree, count_blank: bool) -> Result<(u64, u64), ScanError> {
    match t {
        FsTree::File { path, content } => if !has_rs_suffix(path@) {
            Err(ScanError::InvalidInput)
        } else {
            match content {
                Some(c) => Ok(
                    (
                        marked_count(spec_lines(c@), count_blank) as u64,
                        spec_lines(c@).len() as u64,
                    ),
                ),
                None => Err(ScanError::ReadError),
            }
        },
        FsTree::Dir { path, .. } => if !has_rs_suffix(path@) {
            Err(ScanError::InvalidInput)
        } else {
            Err(ScanError::ReadError)
        },
        FsTree::UnlistableDir { path } => if !has_rs_suffix(path@) {
            Err(ScanError::InvalidInput)
        } else {
            Err(ScanError::ReadError)
        },
        FsTree::Missing { path } => if !has_rs_suffix(path@) {
            Err(ScanError::InvalidInput)
        } else {
            Err(ScanError::NotFound)
        },
    }
}

/// Classifies one snapshot entry as a single file, as the scanner's entry
/// point does: the name must carry the `.rs` suffix, the path must exist,
/// and the text must have been readable.
pub fn classify_file(file: &FsTree, count_blank_lines_in_block: bool) -> (r: Result<
    (u64, u64),
    ScanError,
>)
    ensures
        r == spec_classify_file(*file, count_blank_lines_in_block),
{
    match file {
        FsTree::File { path, content } => {
            if !rs_suffix(path.as_str()) {
                Err(ScanError::InvalidInput)
            } else {
                match content {
                    Some(c) => classify_content(c.as_str(), count_blank_lines_in_block),
                    None => Err(ScanError::ReadError),
                }
            }
        },
        FsTree::Dir { path, .. } => {
            if !rs_suffix(path.as_str()) {
                Err(ScanError::InvalidInput)
            } else {
                Err(ScanError::ReadError)
            }
        },
        FsTree::UnlistableDir { path } => {
            if !rs_suffix(path.as_str()) {
                Err(ScanError::InvalidInput)
            } else {
                Err(ScanError::ReadError)
            }
        },
        FsTree::Missing { path } => {
            if !rs_suffix(path.as_str()) {
                Err(ScanError::InvalidInput)
            } else {
                Err(ScanError::NotFound)
            }
        },
    }
}

/// Traverses one snapshot entry: `Ok(None)` for a skipped file, `Ok(Some)`
/// with the finished node otherwise, and the first error met in traversal
/// order on failure.
fn aggregate_entry(t: &FsTree, count_blank: bool) -> (r: Result<Option<Output>, ScanError>)
    requires
        tree_cap(*t) <= u64::MAX,
    ensures
        entry_ok(*t) <==> r is Ok,
        r matches Ok(opt) ==> (match opt {
            Some(o) => !is_skipped(*t) && o@ == entry_node(*t, count_blank),
            None => is_skipped(*t),
        }),
        r matches Err(e) ==> e == entry_error(*t),
    decreases fs_height(*t),
{
    match t {
        FsTree::File { path, content } => {
            if !rs_suffix(path.as_str()) {
                Ok(None)
            } else {
                match content {
                    Some(c) => match classify_content(c.as_str(), count_blank) {
                        Ok((m, tl)) => Ok(
                            Some(
                                Output {
                                    path: path.clone(),
                                    unsafe_lines: m,
                                    all_lines: tl,
                                    children: Vec::new(),
                                },
                            ),
                        ),
                        Err(e) => {
                            proof {
                                assert(false);
                            }
                            Err(e)
                        },
                    },
                    None => Err(ScanError::ReadError),
                }
            }
        },
        FsTree::Dir { path, entries } => {
            let ghost es = entries@;
            proof {
                assert(t is Dir);
                assert(t->Dir_entries == *entries);
            }
            let mut children: Vec<Output> = Vec::new();
            let mut msum: u64 = 0;
            let mut tsum: u64 = 0;
            let mut j: usize = 0;
            let n = entries.len();
            while j < n
                invariant
                    n == es.len(),
                    0 <= j <= n,
                    es == entries@,
                    t is Dir,
                    t->Dir_entries == *entries,
                    entries_cap(es) <= u64::MAX,
                    forall|i: int| 0 <= i < j ==> entry_ok(#[trigger] es[i]),
                    views_of(children@) == entries_nodes(es.take(j as int), count_blank),
                    msum as nat == sum_marked(entries_nodes(es.take(j as int), count_blank)),
                    tsum as nat == sum_total(entries_nodes(es.take(j as int), count_blank)),
                    tsum as nat <= entries_cap(es.take(j as int)),
                    msum <= tsum,
                decreases n - j,
            {
                proof {
                    lemma_entries_cap_prefix(es, j + 1);
                    assert(es.take(j as int + 1).drop_last() =~= es.take(j as int));
                    assert(es.take(j as int + 1).last() == es[j as int]);
                    lemma_entries_height(es, j as int);
                    assert(fs_height(*t) == 1 + entries_height(es));
                }
                let child = &entries[j];
                match aggregate_entry(child, count_blank) {
                    Ok(Some(o)) => {
                        proof {
                            lemma_entry_node_bounds(*child, count_blank);
                        }
                        let ghost kids = children@;
                        msum = msum + o.unsafe_lines;
                        tsum = tsum + o.all_lines;
                        children.push(o);
                        proof {
                            assert(children@.drop_last() =~= kids);
                            let cs1 = entries_nodes(es.take(j as int + 1), count_blank);
                            assert(cs1.drop_last() =~= entries_nodes(
                                es.take(j as int),
                                count_blank,
                            ));
                            assert(cs1.last() == entry_node(es[j as int], count_blank));
                        }
                    },
                    Ok(None) => {
                    },
                    Err(e) => {
                        proof {
                            assert(entry_ok(*t) == entries_ok(es));
                            assert(entry_error(*t) == entries_error(es));
                            lemma_entries_error_at(es, j as int);
                            lemma_entries_ok_iff(es);
                        }
                        return Err(e);
                    },
                }
                j += 1;
            }
            proof {
                assert(es.take(j as int) =~= es);
                lemma_entries_ok_iff(es);
            }
            Ok(
                Some(
                    Output {
                        path: path.clone(),
                        unsafe_lines: msum,
                        all_lines: tsum,
                        children,
                    },
                ),
            )
        },
        FsTree::UnlistableDir { .. } => Err(ScanError::PermissionError),
        FsTree::Missing { .. } => Err(ScanError::NotFound),
    }
}

/// Whether aggregation of the whole snapshot succeeds: its root traverses
/// whole and is itself eligible (a directory, or a source file).
pub open spec fn aggregate_ok(t: FsTree) -> bool {
    entry_ok(t) && !is_skipped(t)
}

/// The error a failing aggregation reports.
pub open spec fn aggregate_error(t: FsTree) -> ScanError {
    if is_skipped(t) {
        ScanError::InvalidInput
    } else {
        entry_error(t)
    }
}

/// Builds the whole report for a snapshot: one node per source file and
/// per directory, counts propagated bottom-up, skipped files absent. The
/// first failure in traversal order aborts the traversal with no partial
/// report.
pub fn aggregate(tree: &FsTree, count_blank_lines_in_block: bool) -> (r: Result<Output, ScanError>)
    requires
        tree_cap(*tree) <= u64::MAX,
    ensures
        aggregate_ok(*tree) <==> r is Ok,
        r matches Ok(o) ==> o@ == entry_node(*tree, count_blank_lines_in_block) && well_formed(
            o@,
        ),
        r matches Err(e) ==> e == aggregate_error(*tree),
{
    if let FsTree::File { path, .. } = tree {
        if !rs_suffix(path.as_str()) {
            return Err(ScanError::InvalidInput);
        }
    }
    match aggregate_entry(tree, count_blank_lines_in_block) {
        Ok(Some(o)) => {
            proof {
                lemma_entry_node_well_formed(*tree, count_blank_lines_in_block);
            }
            Ok(o)
        },
        Ok(None) => {
            proof {
                assert(false);
            }
            Err(ScanError::InvalidInput)
        },
        Err(e) => Err(e),
    }
}

} // verus!
