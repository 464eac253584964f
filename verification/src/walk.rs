//! The walk over a directory snapshot: sizes are summed bottom-up, and every
//! entry that passes the filter yields one report line.

use crate::options::Options;
use crate::parallel::par_map;
use crate::report::{line_views, report_text, write_lines, LineView, ReportLine};
use crate::tree::{
    entry_views, forest_bytes, lemma_entry_views, lemma_forest_bytes_concat,
    lemma_forest_bytes_push, lemma_wrapped_add, wrapped, Directory, DirectoryView, Entry,
    EntryView,
};
use vstd::prelude::*;

verus! {

/// What a walk yields: the size of what was walked, and the lines to report.
#[derive(Debug)]
pub struct Report {
    /// The size attributed to the walked entry.
    pub total: u64,
    /// The report lines, children before their parent.
    pub lines: Vec<ReportLine>,
}

/// Mathematical model of a [`Report`].
pub struct ReportView {
    pub total: u64,
    pub lines: Seq<LineView>,
}

impl View for Report {
    type V = ReportView;

    open spec fn view(&self) -> ReportView {
        ReportView { total: self.total, lines: line_views(self.lines@) }
    }
}

/// The entries of `entries` that are directories (if `dirs`) or that are not
/// (if `!dirs`), in their order.
pub open spec fn select(entries: Seq<EntryView>, dirs: bool) -> Seq<EntryView>
    decreases entries.len(),
{
    if entries.len() == 0 {
        Seq::empty()
    } else if entries.last().is_dir() == dirs {
        select(entries.drop_last(), dirs).push(entries.last())
    } else {
        select(entries.drop_last(), dirs)
    }
}

/// The order in which the entries of a directory are visited: subdirectories
/// first, then everything else, each group in listing order.
pub open spec fn directories_first(entries: Seq<EntryView>) -> Seq<EntryView> {
    select(entries, true) + select(entries, false)
}

impl EntryView {
    /// The report lines of the entry when it lies `depth` levels below the root.
    ///
    /// A file of known length yields its own line if it passes the filter; a
    /// subdirectory yields the lines of its walk; anything else yields nothing.
    pub open spec fn lines(self, depth: int, options: Options) -> Seq<LineView>
        decreases self, 0nat,
    {
        match self {
            EntryView::File { path, len: Some(n) } => if options.shows(depth, n) {
                seq![LineView { size: n, path }]
            } else {
                Seq::empty()
            },
            EntryView::File { len: None, .. } => Seq::empty(),
            EntryView::Dir { dir } => dir.lines(depth, options),
            EntryView::Unknown { .. } => Seq::empty(),
        }
    }

    /// What a walk of the entry yields.
    pub open spec fn report(self, depth: int, options: Options) -> ReportView {
        ReportView { total: self.total(), lines: self.lines(depth, options) }
    }
}

impl DirectoryView {
    /// The report lines of a walk of this directory, which lies `depth` levels
    /// below the root.
    ///
    /// A directory that could not be listed yields nothing. Otherwise the
    /// lines of its subdirectories come first, then those of its other
    /// entries, all one level deeper, and last the line of the directory
    /// itself, if it passes the filter with its total.
    pub open spec fn lines(self, depth: int, options: Options) -> Seq<LineView>
        decreases self, 0nat,
    {
        match self.entries {
            None => Seq::empty(),
            Some(entries) => {
                let below = selected_lines(entries, true, depth + 1, options) + selected_lines(
                    entries,
                    false,
                    depth + 1,
                    options,
                );
                if options.shows(depth, self.total()) {
                    below.push(LineView { size: self.total(), path: self.path })
                } else {
                    below
                }
            },
        }
    }

    /// What a walk of the directory yields.
    pub open spec fn report(self, depth: int, options: Options) -> ReportView {
        ReportView { total: self.total(), lines: self.lines(depth, options) }
    }
}

/// The report lines of those entries of `entries` that are directories (if
/// `dirs`) or that are not (if `!dirs`), in listing order, all at `depth`.
pub open spec fn selected_lines(
    entries: Seq<EntryView>,
    dirs: bool,
    depth: int,
    options: Options,
) -> Seq<LineView>
    decreases entries, 1nat,
{
    if entries.len() == 0 {
        Seq::empty()
    } else if entries.last().is_dir() == dirs {
        selected_lines(entries.drop_last(), dirs, depth, options) + entries.last().lines(
            depth,
            options,
        )
    } else {
        selected_lines(entries.drop_last(), dirs, depth, options)
    }
}

/// The report lines of all of `entries`, in order, all at `depth`.
pub open spec fn forest_lines(entries: Seq<EntryView>, depth: int, options: Options) -> Seq<
    LineView,
>
    decreases entries.len(),
{
    if entries.len() == 0 {
        Seq::empty()
    } else {
        forest_lines(entries.drop_last(), depth, options) + entries.last().lines(depth, options)
    }
}

/// The lines of a concatenation are the lines of its parts.
pub proof fn lemma_forest_lines_concat(
    front: Seq<EntryView>,
    back: Seq<EntryView>,
    depth: int,
    options: Options,
)
    ensures
        forest_lines(front + back, depth, options) == forest_lines(front, depth, options)
            + forest_lines(back, depth, options),
    decreases back.len(),
{
    if back.len() == 0 {
        assert(front + back =~= front);
        assert(forest_lines(front + back, depth, options) =~= forest_lines(front, depth, options)
            + forest_lines(back, depth, options));
    } else {
        lemma_forest_lines_concat(front, back.drop_last(), depth, options);
        assert((front + back).drop_last() =~= front + back.drop_last());
        assert(forest_lines(front + back, depth, options) =~= forest_lines(front, depth, options)
            + forest_lines(back, depth, options));
    }
}

/// Selecting and then collecting lines is collecting the selected lines.
pub proof fn lemma_selected_lines(
    entries: Seq<EntryView>,
    dirs: bool,
    depth: int,
    options: Options,
)
    ensures
        forest_lines(select(entries, dirs), depth, options) == selected_lines(
            entries,
            dirs,
            depth,
            options,
        ),
    decreases entries.len(),
{
    if entries.len() > 0 {
        lemma_selected_lines(entries.drop_last(), dirs, depth, options);
        if entries.last().is_dir() == dirs {
            assert(select(entries, dirs).drop_last() =~= select(entries.drop_last(), dirs));
        }
    }
}

/// Visiting subdirectories first changes the order of the entries, not the
/// bytes below them.
pub proof fn lemma_directories_first_bytes(entries: Seq<EntryView>)
    ensures
        forest_bytes(directories_first(entries)) == forest_bytes(entries),
    decreases entries.len(),
{
    lemma_forest_bytes_concat(select(entries, true), select(entries, false));
    if entries.len() > 0 {
        let front = entries.drop_last();
        lemma_directories_first_bytes(front);
        lemma_forest_bytes_concat(select(front, true), select(front, false));
        lemma_forest_bytes_push(select(front, true), entries.last());
        lemma_forest_bytes_push(select(front, false), entries.last());
    }
}

/// The lines of a directory that could be listed, over the visiting order.
pub proof fn lemma_directory_lines(dir: DirectoryView, depth: int, options: Options)
    requires
        dir.entries is Some,
    ensures
        dir.lines(depth, options) == {
            let below = forest_lines(directories_first(dir.entries->0), depth + 1, options);
            if options.shows(depth, dir.total()) {
                below.push(LineView { size: dir.total(), path: dir.path })
            } else {
                below
            }
        },
{
    let entries = dir.entries->0;
    lemma_selected_lines(entries, true, depth + 1, options);
    lemma_selected_lines(entries, false, depth + 1, options);
    lemma_forest_lines_concat(select(entries, true), select(entries, false), depth + 1, options);
}

/// The models of a sequence of borrowed entries, in the same order.
spec fn borrowed_views(entries: Seq<&Entry>) -> Seq<EntryView> {
    Seq::new(entries.len(), |i: int| entries[i]@)
}

/// Whether a counted depth stands for the level `level`: either it is that
/// level, or both lie below everything that `options` shows.
spec fn tracks(depth: i64, level: int, options: Options) -> bool {
    depth == level || (depth > options.max_depth && level > options.max_depth)
}

/// Whether an entry of `size` bytes at the counted depth passes the filter.
fn passes(size: u64, depth: i64, Ghost(level): Ghost<int>, options: &Options) -> (shown: bool)
    requires
        tracks(depth, level, *options),
    ensures
        shown == options.shows(level, size),
{
    depth <= options.max_depth as i64 && size > options.threshold
}

/// The entries of a listing in visiting order: subdirectories first.
fn visiting_order(entries: &Vec<Entry>) -> (ordered: Vec<&Entry>)
    ensures
        borrowed_views(ordered@) == directories_first(entry_views(entries@)),
        forall|k: int| 0 <= k < ordered@.len() ==> entries@.contains(*#[trigger] ordered@[k]),
{
    let mut ordered: Vec<&Entry> = Vec::new();
    let mut i: usize = 0;
    while i < entries.len()
        invariant
            i <= entries@.len(),
            borrowed_views(ordered@) == select(entry_views(entries@.take(i as int)), true),
            forall|k: int| 0 <= k < ordered@.len() ==> entries@.contains(*#[trigger] ordered@[k]),
        decreases entries@.len() - i,
    {
        let entry = &entries[i];
        let ghost before = borrowed_views(ordered@);
        if let Entry::Dir { .. } = entry {
            ordered.push(entry);
            assert(borrowed_views(ordered@) =~= before.push(entry@));
        }
        proof {
            let seen = entry_views(entries@.take(i + 1));
            lemma_entry_views(entries@.take(i + 1));
            lemma_entry_views(entries@.take(i as int));
            assert(seen.drop_last() =~= entry_views(entries@.take(i as int)));
            assert(seen.last() == entry@);
        }
        i = i + 1;
    }
    assert(entries@.take(i as int) =~= entries@);
    let ghost dirs = borrowed_views(ordered@);
    let mut i: usize = 0;
    while i < entries.len()
        invariant
            i <= entries@.len(),
            dirs == select(entry_views(entries@), true),
            borrowed_views(ordered@) == dirs + select(
                entry_views(entries@.take(i as int)),
                false,
            ),
            forall|k: int| 0 <= k < ordered@.len() ==> entries@.contains(*#[trigger] ordered@[k]),
        decreases entries@.len() - i,
    {
        let entry = &entries[i];
        let ghost before = borrowed_views(ordered@);
        if let Entry::Dir { .. } = entry {
        } else {
            ordered.push(entry);
            assert(borrowed_views(ordered@) =~= before.push(entry@));
        }
        proof {
            let seen = entry_views(entries@.take(i + 1));
            lemma_entry_views(entries@.take(i + 1));
            lemma_entry_views(entries@.take(i as int));
            assert(seen.drop_last() =~= entry_views(entries@.take(i as int)));
            assert(seen.last() == entry@);
            assert(borrowed_views(ordered@) =~= dirs + select(seen, false));
        }
        i = i + 1;
    }
    assert(entries@.take(i as int) =~= entries@);
    ordered
}

/// Joins the reports of the entries of one directory, given in visiting
/// order, into the sum of their totals and the sequence of their lines.
fn merge(
    reports: Vec<Report>,
    Ghost(visited): Ghost<Seq<EntryView>>,
    Ghost(level): Ghost<int>,
    options: &Options,
) -> (merged: Report)
    requires
        reports@.len() == visited.len(),
        forall|i: int|
            0 <= i < visited.len() ==> (#[trigger] reports@[i])@ == visited[i].report(
                level,
                *options,
            ),
    ensures
        merged@ == (ReportView {
            total: wrapped(forest_bytes(visited)),
            lines: forest_lines(visited, level, *options),
        }),
{
    let mut total: u64 = 0;
    let mut lines: Vec<ReportLine> = Vec::new();
    let ghost all = reports@;
    for report in it: reports
        invariant
            all.len() == visited.len(),
            it.seq() == all,
            forall|i: int|
                0 <= i < visited.len() ==> (#[trigger] all[i])@ == visited[i].report(
                    level,
                    *options,
                ),
            total == wrapped(forest_bytes(visited.take(it.index()))),
            line_views(lines@) == forest_lines(visited.take(it.index()), level, *options),
    {
        let ghost done = it.index();
        let ghost before = line_views(lines@);
        let Report { total: part, lines: mut part_lines } = report;
        total = total.wrapping_add(part);
        lines.append(&mut part_lines);
        proof {
            let seen = visited.take(done + 1);
            assert(seen.drop_last() =~= visited.take(done));
            assert(seen.last() == visited[done]);
            lemma_wrapped_add(forest_bytes(visited.take(done)), visited[done].bytes());
            assert(line_views(lines@) =~= before + all[done]@.lines);
        }
    }
    assert(visited.take(visited.len() as int) =~= visited);
    Report { total, lines }
}

/// Walks one entry of a listing.
fn walk_entry(
    entry: &Entry,
    depth: i64,
    Ghost(level): Ghost<int>,
    options: &Options,
) -> (report: Report)
    requires
        tracks(depth, level, *options),
    ensures
        report@ == entry@.report(level, *options),
    decreases entry,
{
    match entry {
        Entry::File { path, len: Some(len) } => {
            let mut lines: Vec<ReportLine> = Vec::new();
            if passes(*len, depth, Ghost(level), options) {
                lines.push(ReportLine { size: *len, path: path.clone() });
            }
            let report = Report { total: *len, lines };
            assert(report@.lines =~= entry@.lines(level, *options));
            report
        },
        Entry::File { len: None, .. } => {
            let report = Report { total: 0, lines: Vec::new() };
            assert(report@.lines =~= entry@.lines(level, *options));
            report
        },
        Entry::Dir { dir } => walk_directory(dir, depth, Ghost(level), options),
        Entry::Unknown { .. } => {
            let report = Report { total: 0, lines: Vec::new() };
            assert(report@.lines =~= entry@.lines(level, *options));
            report
        },
    }
}

/// Walks a directory: its entries are walked in parallel, one level deeper,
/// and only when all of them are done is the directory itself reported.
fn walk_directory(
    dir: &Directory,
    depth: i64,
    Ghost(level): Ghost<int>,
    options: &Options,
) -> (report: Report)
    requires
        tracks(depth, level, *options),
    ensures
        report@ == dir@.report(level, *options),
    decreases dir,
{
    match &dir.entries {
        None => {
            let report = Report { total: 0, lines: Vec::new() };
            assert(report@.lines =~= dir@.lines(level, *options));
            report
        },
        Some(entries) => {
            let ordered = visiting_order(entries);
            let below: i64 = if depth < i64::MAX {
                depth + 1
            } else {
                depth
            };
            let ghost visited = borrowed_views(ordered@);
            let visit = |entry: &&Entry| -> (report: Report)
                requires
                    decreases_to!(dir => **entry),
                ensures
                    report@ == (**entry)@.report(level + 1, *options),
                { walk_entry(*entry, below, Ghost(level + 1), options) };
            assert forall|k: int| 0 <= k < ordered@.len() implies call_requires(
                visit,
                (&#[trigger] ordered@[k],),
            ) by {
                let j = entries@.index_of(*ordered@[k]);
                assert(decreases_to!(dir => entries@[j]));
            }
            let reports = par_map(&ordered, visit);
            let merged = merge(reports, Ghost(visited), Ghost(level + 1), options);
            let Report { total, mut lines } = merged;
            proof {
                lemma_directories_first_bytes(entry_views(entries@));
                lemma_directory_lines(dir@, level, *options);
                assert(dir@.entries == Some(entry_views(entries@)));
            }
            if passes(total, depth, Ghost(level), options) {
                let ghost before = line_views(lines@);
                lines.push(ReportLine { size: total, path: dir.path.clone() });
                assert(line_views(lines@) =~= before.push(
                    LineView { size: total, path: dir.path@ },
                ));
            }
            Report { total, lines }
        },
    }
}

/// Walks `dir`, taken to lie `depth` levels below the root of the report
/// (0 for the root itself), and returns the size attributed to it together
/// with the report lines of everything at or below it that passes the filter.
///
/// The entries of each directory are handed to the worker pool; the lines
/// nevertheless come out in one fixed order, those of an entry's children
/// before its own.
pub fn walk(dir: &Directory, depth: i32, options: &Options) -> (report: Report)
    ensures
        report@ == dir@.report(depth as int, *options),
{
    walk_directory(dir, depth as i64, Ghost(depth as int), options)
}

/// Walks `dir` as [`walk`] does, appends the text of the report lines to
/// `output_buffer`, and returns the size attributed to `dir`.
pub fn display_dir(
    dir: &Directory,
    depth: i32,
    options: &Options,
    output_buffer: &mut String,
) -> (total: u64)
    ensures
        total == dir@.total(),
        final(output_buffer)@ == old(output_buffer)@ + report_text(
            dir@.lines(depth as int, *options),
            options.human_readable,
        ),
{
    let report = walk(dir, depth, options);
    write_lines(&report.lines, options.human_readable, output_buffer);
    report.total
}

} // verus!
