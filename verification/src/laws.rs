//! What holds of every walk, whatever the tree and the options.

use crate::options::Options;
use crate::report::LineView;
use crate::tree::{
    forest_bytes, lemma_forest_bytes_concat, Directory, DirectoryView, EntryView,
};
use crate::walk::{selected_lines, ReportView};
use vstd::prelude::*;

verus! {

/// The lines of the selected entries of a concatenation are those of its parts.
pub proof fn lemma_selected_lines_concat(
    front: Seq<EntryView>,
    back: Seq<EntryView>,
    dirs: bool,
    depth: int,
    options: Options,
)
    ensures
        selected_lines(front + back, dirs, depth, options) == selected_lines(
            front,
            dirs,
            depth,
            options,
        ) + selected_lines(back, dirs, depth, options),
    decreases back.len(),
{
    let whole = selected_lines(front + back, dirs, depth, options);
    let parts = selected_lines(front, dirs, depth, options) + selected_lines(
        back,
        dirs,
        depth,
        options,
    );
    if back.len() == 0 {
        assert(front + back =~= front);
        assert(whole =~= parts);
    } else {
        lemma_selected_lines_concat(front, back.drop_last(), dirs, depth, options);
        assert((front + back).drop_last() =~= front + back.drop_last());
        assert((front + back).last() == back.last());
        assert(whole =~= parts);
    }
}

/// Below the deepest reported level an entry yields no line.
pub proof fn lemma_entry_hidden(entry: EntryView, depth: int, options: Options)
    requires
        depth > options.max_depth,
    ensures
        entry.lines(depth, options) == Seq::<LineView>::empty(),
    decreases entry, 0nat,
{
    match entry {
        EntryView::Dir { dir } => lemma_directory_hidden(dir, depth, options),
        _ => {},
    }
}

/// Below the deepest reported level a directory yields no line.
pub proof fn lemma_directory_hidden(dir: DirectoryView, depth: int, options: Options)
    requires
        depth > options.max_depth,
    ensures
        dir.lines(depth, options) == Seq::<LineView>::empty(),
    decreases dir, 0nat,
{
    match dir.entries {
        None => {},
        Some(entries) => {
            lemma_entries_hidden(entries, true, depth + 1, options);
            lemma_entries_hidden(entries, false, depth + 1, options);
            assert(dir.lines(depth, options) =~= Seq::<LineView>::empty());
        },
    }
}

/// Below the deepest reported level no entry of a listing yields a line.
pub proof fn lemma_entries_hidden(
    entries: Seq<EntryView>,
    dirs: bool,
    depth: int,
    options: Options,
)
    requires
        depth > options.max_depth,
    ensures
        selected_lines(entries, dirs, depth, options) == Seq::<LineView>::empty(),
    decreases entries, 1nat,
{
    if entries.len() > 0 {
        lemma_entries_hidden(entries.drop_last(), dirs, depth, options);
        lemma_entry_hidden(entries.last(), depth, options);
        assert(selected_lines(entries, dirs, depth, options) =~= Seq::<LineView>::empty());
    }
}

/// An entry without a byte below it yields no line.
pub proof fn lemma_entry_empty(entry: EntryView, depth: int, options: Options)
    requires
        entry.bytes() == 0,
    ensures
        entry.lines(depth, options) == Seq::<LineView>::empty(),
    decreases entry, 0nat,
{
    match entry {
        EntryView::Dir { dir } => law_zero_bytes_report_nothing(dir, depth, options),
        _ => {},
    }
}

/// Entries without a byte below them yield no line.
pub proof fn lemma_entries_empty(
    entries: Seq<EntryView>,
    dirs: bool,
    depth: int,
    options: Options,
)
    requires
        forest_bytes(entries) == 0,
    ensures
        selected_lines(entries, dirs, depth, options) == Seq::<LineView>::empty(),
    decreases entries, 1nat,
{
    if entries.len() > 0 {
        lemma_entries_empty(entries.drop_last(), dirs, depth, options);
        lemma_entry_empty(entries.last(), depth, options);
        assert(selected_lines(entries, dirs, depth, options) =~= Seq::<LineView>::empty());
    }
}

/// The size reported for a directory is the sum of the lengths of all
/// readable files below it, as far as 64 bits hold that sum: a directory
/// that passes the filter has its own line last, and the size on that line is
/// the sum reduced modulo 2^64, hence the sum itself whenever it fits.
pub proof fn law_reported_size_is_sum_of_files(
    dir: DirectoryView,
    depth: int,
    options: Options,
)
    requires
        dir.entries is Some,
        options.shows(depth, dir.total()),
    ensures
        dir.lines(depth, options).len() > 0,
        dir.lines(depth, options).last() == (LineView { size: dir.total(), path: dir.path }),
        dir.total() == dir.bytes() % 0x1_0000_0000_0000_0000,
        dir.bytes() <= u64::MAX ==> dir.total() == dir.bytes(),
{
}

/// Whether every size in `lines` is strictly greater than `threshold`.
pub open spec fn all_exceed(lines: Seq<LineView>, threshold: u64) -> bool {
    forall|i: int| 0 <= i < lines.len() ==> (#[trigger] lines[i]).size > threshold
}

/// Every reported size is strictly greater than the threshold.
pub proof fn law_lines_exceed_threshold(dir: DirectoryView, depth: int, options: Options)
    ensures
        all_exceed(dir.lines(depth, options), options.threshold),
    decreases dir, 0nat,
{
    match dir.entries {
        None => {},
        Some(entries) => {
            lemma_selected_exceed_threshold(entries, true, depth + 1, options);
            lemma_selected_exceed_threshold(entries, false, depth + 1, options);
            let dirs = selected_lines(entries, true, depth + 1, options);
            let others = selected_lines(entries, false, depth + 1, options);
            assert(all_exceed(dirs + others, options.threshold));
        },
    }
}

/// Every size reported for the entries of a listing is strictly greater than
/// the threshold.
pub proof fn lemma_selected_exceed_threshold(
    entries: Seq<EntryView>,
    dirs: bool,
    depth: int,
    options: Options,
)
    ensures
        all_exceed(selected_lines(entries, dirs, depth, options), options.threshold),
    decreases entries, 1nat,
{
    if entries.len() > 0 {
        lemma_selected_exceed_threshold(entries.drop_last(), dirs, depth, options);
        let front = selected_lines(entries.drop_last(), dirs, depth, options);
        let last = entries.last().lines(depth, options);
        match entries.last() {
            EntryView::Dir { dir } => law_lines_exceed_threshold(dir, depth, options),
            _ => {},
        }
        assert(all_exceed(last, options.threshold));
        assert(all_exceed(front + last, options.threshold));
    }
}

/// Two walks of snapshots that hold the same tree yield the same total and
/// the same lines in the same order: what a walk returns is a function of
/// the tree, the level and the options, and of nothing else.
pub proof fn law_walk_is_repeatable(
    first: Directory,
    second: Directory,
    depth: int,
    options: Options,
)
    requires
        first@ == second@,
    ensures
        first@.report(depth, options) == second@.report(depth, options),
{
}

/// With a deepest reported level of zero, a walk from the root reports the
/// root alone, and only if its total exceeds the threshold.
pub proof fn law_depth_zero_reports_root_only(dir: DirectoryView, options: Options)
    requires
        options.max_depth == 0,
    ensures
        dir.lines(0, options) == if dir.entries is Some && dir.total() > options.threshold {
            seq![LineView { size: dir.total(), path: dir.path }]
        } else {
            Seq::<LineView>::empty()
        },
{
    match dir.entries {
        None => {},
        Some(entries) => {
            lemma_entries_hidden(entries, true, 1, options);
            lemma_entries_hidden(entries, false, 1, options);
            if dir.total() > options.threshold {
                assert(dir.lines(0, options) =~= seq![
                    LineView { size: dir.total(), path: dir.path },
                ]);
            } else {
                assert(dir.lines(0, options) =~= Seq::<LineView>::empty());
            }
        },
    }
}

/// With a negative deepest reported level, a walk reports nothing.
pub proof fn law_negative_depth_reports_nothing(
    dir: DirectoryView,
    depth: int,
    options: Options,
)
    requires
        options.max_depth < 0,
        depth >= 0,
    ensures
        dir.lines(depth, options) == Seq::<LineView>::empty(),
{
    lemma_directory_hidden(dir, depth, options);
}

/// A tree without a byte in it reports nothing, whatever the threshold: a
/// size must exceed the threshold, and zero exceeds none.
pub proof fn law_zero_bytes_report_nothing(dir: DirectoryView, depth: int, options: Options)
    requires
        dir.bytes() == 0,
    ensures
        dir.lines(depth, options) == Seq::<LineView>::empty(),
    decreases dir, 0nat,
{
    match dir.entries {
        None => {},
        Some(entries) => {
            lemma_entries_empty(entries, true, depth + 1, options);
            lemma_entries_empty(entries, false, depth + 1, options);
            assert(dir.lines(depth, options) =~= Seq::<LineView>::empty());
        },
    }
}

/// A directory that could not be listed counts as zero bytes and has no line.
pub proof fn law_unreadable_directory_is_silent(
    dir: DirectoryView,
    depth: int,
    options: Options,
)
    requires
        dir.entries is None,
    ensures
        dir.report(depth, options) == (ReportView { total: 0, lines: Seq::empty() }),
{
}

/// A listing of one entry has the bytes of that entry, and its lines where the
/// entry is among the selected.
proof fn lemma_single_entry(entry: EntryView, depth: int, options: Options)
    ensures
        forest_bytes(seq![entry]) == entry.bytes(),
        selected_lines(seq![entry], entry.is_dir(), depth, options) == entry.lines(depth, options),
        selected_lines(seq![entry], !entry.is_dir(), depth, options) == Seq::<LineView>::empty(),
{
    let one = seq![entry];
    assert(one.drop_last() =~= Seq::<EntryView>::empty());
    assert(one.last() == entry);
    assert(forest_bytes(one.drop_last()) == 0);
    assert(selected_lines(one.drop_last(), true, depth, options) =~= Seq::<LineView>::empty());
    assert(selected_lines(one.drop_last(), false, depth, options) =~= Seq::<LineView>::empty());
    assert(selected_lines(one, entry.is_dir(), depth, options) =~= entry.lines(depth, options));
}

/// Entries that yield no line can be taken out of a listing without a change
/// to the lines of the rest.
proof fn lemma_gap_leaves_lines(
    front: Seq<EntryView>,
    gap: Seq<EntryView>,
    back: Seq<EntryView>,
    dirs: bool,
    depth: int,
    options: Options,
)
    requires
        selected_lines(gap, dirs, depth, options) == Seq::<LineView>::empty(),
    ensures
        selected_lines(front + gap + back, dirs, depth, options) == selected_lines(
            front + back,
            dirs,
            depth,
            options,
        ),
{
    lemma_selected_lines_concat(front, gap, dirs, depth, options);
    lemma_selected_lines_concat(front + gap, back, dirs, depth, options);
    lemma_selected_lines_concat(front, back, dirs, depth, options);
    assert(selected_lines(front + gap + back, dirs, depth, options) =~= selected_lines(
        front + back,
        dirs,
        depth,
        options,
    ));
}

/// An unreadable subdirectory leaves the walk of its parent as it would be
/// without it: the parent's total is that of its other entries, and all of
/// them are reported in full.
pub proof fn law_unreadable_subdirectory_is_skipped(
    path: Seq<char>,
    front: Seq<EntryView>,
    unreadable: DirectoryView,
    back: Seq<EntryView>,
    depth: int,
    options: Options,
)
    requires
        unreadable.entries is None,
    ensures
        ({
            let with = DirectoryView {
                path,
                entries: Some(front + seq![EntryView::Dir { dir: unreadable }] + back),
            };
            let without = DirectoryView { path, entries: Some(front + back) };
            with.report(depth, options) == without.report(depth, options)
        }),
{
    let gap = seq![EntryView::Dir { dir: unreadable }];
    let with = DirectoryView { path, entries: Some(front + gap + back) };
    let without = DirectoryView { path, entries: Some(front + back) };
    lemma_single_entry(EntryView::Dir { dir: unreadable }, depth + 1, options);
    lemma_forest_bytes_concat(front, gap);
    lemma_forest_bytes_concat(front + gap, back);
    lemma_forest_bytes_concat(front, back);
    assert(with.bytes() == without.bytes());
    lemma_gap_leaves_lines(front, gap, back, true, depth + 1, options);
    lemma_gap_leaves_lines(front, gap, back, false, depth + 1, options);
    assert(with.lines(depth, options) =~= without.lines(depth, options));
}

/// Taking one entry out of a listing takes its bytes from the sum and its
/// lines from the lines, and changes nothing else.
proof fn lemma_remove_entry(
    entries: Seq<EntryView>,
    at: int,
    dirs: bool,
    depth: int,
    options: Options,
)
    requires
        0 <= at < entries.len(),
    ensures
        forest_bytes(entries) == forest_bytes(entries.remove(at)) + entries[at].bytes(),
        selected_lines(entries, dirs, depth, options).to_multiset() == selected_lines(
            entries.remove(at),
            dirs,
            depth,
            options,
        ).to_multiset().add(selected_lines(seq![entries[at]], dirs, depth, options).to_multiset()),
{
    let front = entries.take(at);
    let one = seq![entries[at]];
    let back = entries.skip(at + 1);
    assert(entries =~= front + one + back);
    assert(entries.remove(at) =~= front + back);
    lemma_single_entry(entries[at], depth, options);
    lemma_forest_bytes_concat(front, one);
    lemma_forest_bytes_concat(front + one, back);
    lemma_forest_bytes_concat(front, back);
    lemma_selected_lines_concat(front, one, dirs, depth, options);
    lemma_selected_lines_concat(front + one, back, dirs, depth, options);
    lemma_selected_lines_concat(front, back, dirs, depth, options);
    let front_lines = selected_lines(front, dirs, depth, options);
    let one_lines = selected_lines(one, dirs, depth, options);
    let back_lines = selected_lines(back, dirs, depth, options);
    vstd::seq_lib::lemma_multiset_commutative(front_lines, one_lines);
    vstd::seq_lib::lemma_multiset_commutative(front_lines + one_lines, back_lines);
    vstd::seq_lib::lemma_multiset_commutative(front_lines, back_lines);
    assert(selected_lines(entries, dirs, depth, options).to_multiset() =~= selected_lines(
        entries.remove(at),
        dirs,
        depth,
        options,
    ).to_multiset().add(one_lines.to_multiset()));
}

/// Listings that hold the same entries, in whatever order, have the same
/// bytes below them and yield the same lines, each as often.
pub proof fn lemma_listing_order(
    first: Seq<EntryView>,
    second: Seq<EntryView>,
    dirs: bool,
    depth: int,
    options: Options,
)
    requires
        first.to_multiset() == second.to_multiset(),
    ensures
        forest_bytes(first) == forest_bytes(second),
        selected_lines(first, dirs, depth, options).to_multiset() == selected_lines(
            second,
            dirs,
            depth,
            options,
        ).to_multiset(),
    decreases first.len(),
{
    vstd::seq_lib::to_multiset_len(first);
    vstd::seq_lib::to_multiset_len(second);
    if first.len() > 0 {
        let last = first.len() - 1;
        let entry = first[last];
        assert(first.contains(entry));
        vstd::seq_lib::to_multiset_contains(first, entry);
        vstd::seq_lib::to_multiset_contains(second, entry);
        let at = choose|at: int| 0 <= at < second.len() && second[at] == entry;
        vstd::seq_lib::to_multiset_remove(first, last);
        vstd::seq_lib::to_multiset_remove(second, at);
        lemma_listing_order(first.remove(last), second.remove(at), dirs, depth, options);
        lemma_remove_entry(first, last, dirs, depth, options);
        lemma_remove_entry(second, at, dirs, depth, options);
    }
}

/// Two listed directories of one path and one total, whose subdirectories
/// yield the same lines and whose other entries yield the same lines, each
/// line as often, yield the same lines themselves, each as often.
proof fn lemma_directory_lines_agree(
    one: DirectoryView,
    other: DirectoryView,
    depth: int,
    options: Options,
)
    requires
        one.entries is Some,
        other.entries is Some,
        one.path == other.path,
        one.total() == other.total(),
        selected_lines(one.entries->0, true, depth + 1, options).to_multiset() == selected_lines(
            other.entries->0,
            true,
            depth + 1,
            options,
        ).to_multiset(),
        selected_lines(one.entries->0, false, depth + 1, options).to_multiset()
            == selected_lines(other.entries->0, false, depth + 1, options).to_multiset(),
    ensures
        one.lines(depth, options).to_multiset() == other.lines(depth, options).to_multiset(),
{
    let own = LineView { size: one.total(), path: one.path };
    let a = selected_lines(one.entries->0, true, depth + 1, options);
    let b = selected_lines(one.entries->0, false, depth + 1, options);
    let c = selected_lines(other.entries->0, true, depth + 1, options);
    let d = selected_lines(other.entries->0, false, depth + 1, options);
    vstd::seq_lib::lemma_multiset_commutative(a, b);
    vstd::seq_lib::lemma_multiset_commutative(c, d);
    vstd::seq_lib::to_multiset_build(a + b, own);
    vstd::seq_lib::to_multiset_build(c + d, own);
}

/// The order in which a directory was listed bears on neither its total nor
/// the lines of its walk: two listings of the same entries give the same
/// total and the same lines, each line as often, though not always in the
/// same order.
pub proof fn law_listing_order_is_immaterial(
    path: Seq<char>,
    first: Seq<EntryView>,
    second: Seq<EntryView>,
    depth: int,
    options: Options,
)
    requires
        first.to_multiset() == second.to_multiset(),
    ensures
        ({
            let one = DirectoryView { path, entries: Some(first) };
            let other = DirectoryView { path, entries: Some(second) };
            &&& one.total() == other.total()
            &&& one.lines(depth, options).to_multiset() == other.lines(
                depth,
                options,
            ).to_multiset()
        }),
{
    let one = DirectoryView { path, entries: Some(first) };
    let other = DirectoryView { path, entries: Some(second) };
    lemma_listing_order(first, second, true, depth + 1, options);
    lemma_listing_order(first, second, false, depth + 1, options);
    lemma_directory_lines_agree(one, other, depth, options);
}

/// Whether two entries hold the same tree, the order of the listings at
/// every level left aside.
pub open spec fn same_entry(one: EntryView, other: EntryView) -> bool
    decreases one, 0nat,
{
    match one {
        EntryView::Dir { dir } => other matches EntryView::Dir { dir: other_dir }
            && same_directory(dir, other_dir),
        _ => one == other,
    }
}

/// Whether two directories hold the same tree, the order of the listings at
/// every level left aside.
pub open spec fn same_directory(one: DirectoryView, other: DirectoryView) -> bool
    decreases one, 0nat,
{
    &&& one.path == other.path
    &&& match one.entries {
        None => other.entries is None,
        Some(entries) => other.entries matches Some(other_entries) && same_listing(
            entries,
            other_entries,
        ),
    }
}

/// Whether two listings hold the same trees, in whatever order: the last
/// entry of the one has its like somewhere in the other, and so have the
/// rest among the rest.
pub open spec fn same_listing(one: Seq<EntryView>, other: Seq<EntryView>) -> bool
    decreases one, 1nat,
{
    if one.len() == 0 {
        other.len() == 0
    } else {
        exists|at: int|
            0 <= at < other.len() && same_entry(one.last(), #[trigger] other[at]) && same_listing(
                one.drop_last(),
                other.remove(at),
            )
    }
}

/// Entries that hold the same tree have the same bytes below them and yield
/// the same lines, each as often.
pub proof fn lemma_same_entry(one: EntryView, other: EntryView, depth: int, options: Options)
    requires
        same_entry(one, other),
    ensures
        one.is_dir() == other.is_dir(),
        one.bytes() == other.bytes(),
        one.lines(depth, options).to_multiset() == other.lines(depth, options).to_multiset(),
    decreases one, 0nat,
{
    match one {
        EntryView::Dir { dir } => {
            law_walk_ignores_listing_order(dir, other->dir, depth, options);
        },
        _ => {},
    }
}

/// Listings that hold the same trees have the same bytes below them and
/// yield the same lines, each as often.
pub proof fn lemma_same_listing(
    one: Seq<EntryView>,
    other: Seq<EntryView>,
    dirs: bool,
    depth: int,
    options: Options,
)
    requires
        same_listing(one, other),
    ensures
        forest_bytes(one) == forest_bytes(other),
        selected_lines(one, dirs, depth, options).to_multiset() == selected_lines(
            other,
            dirs,
            depth,
            options,
        ).to_multiset(),
    decreases one, 1nat,
{
    if one.len() == 0 {
        assert(other =~= one);
    } else {
        let at = choose|at: int|
            0 <= at < other.len() && same_entry(one.last(), #[trigger] other[at]) && same_listing(
                one.drop_last(),
                other.remove(at),
            );
        let last = one.len() - 1;
        assert(one.remove(last) =~= one.drop_last());
        lemma_same_entry(one.last(), other[at], depth, options);
        lemma_same_listing(one.drop_last(), other.remove(at), dirs, depth, options);
        lemma_remove_entry(one, last, dirs, depth, options);
        lemma_remove_entry(other, at, dirs, depth, options);
        lemma_single_entry(one.last(), depth, options);
        lemma_single_entry(other[at], depth, options);
    }
}

/// Walks of the same tree agree, however the listings at any level were
/// ordered: the total is the same, and so are the lines, each line as often,
/// though not always in the same order.
pub proof fn law_walk_ignores_listing_order(
    one: DirectoryView,
    other: DirectoryView,
    depth: int,
    options: Options,
)
    requires
        same_directory(one, other),
    ensures
        one.bytes() == other.bytes(),
        one.total() == other.total(),
        one.lines(depth, options).to_multiset() == other.lines(depth, options).to_multiset(),
    decreases one, 0nat,
{
    match one.entries {
        None => {},
        Some(entries) => {
            let other_entries = other.entries->0;
            lemma_same_listing(entries, other_entries, true, depth + 1, options);
            lemma_same_listing(entries, other_entries, false, depth + 1, options);
            lemma_directory_lines_agree(one, other, depth, options);
        },
    }
}

/// Every tree is the same as itself, so that what holds of two walks of the
/// same tree holds of two walks of one snapshot.
pub proof fn law_same_directory_is_reflexive(dir: DirectoryView)
    ensures
        same_directory(dir, dir),
    decreases dir, 0nat,
{
    match dir.entries {
        None => {},
        Some(entries) => lemma_same_listing_reflexive(entries),
    }
}

/// Every listing is the same as itself.
proof fn lemma_same_listing_reflexive(entries: Seq<EntryView>)
    ensures
        same_listing(entries, entries),
    decreases entries, 1nat,
{
    if entries.len() > 0 {
        let last = entries.len() - 1;
        assert(entries.remove(last) =~= entries.drop_last());
        lemma_same_listing_reflexive(entries.drop_last());
        match entries.last() {
            EntryView::Dir { dir } => law_same_directory_is_reflexive(dir),
            _ => {},
        }
        assert(same_entry(entries.last(), entries[last]));
    }
}

} // verus!
