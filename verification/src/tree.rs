//! A snapshot of a directory tree, and the sizes it implies.
//!
//! The snapshot records what a listing of the file system returned, failures
//! included: a directory whose listing failed has no entries to offer, a file
//! whose length could not be read has none, and an entry whose type could not
//! be determined is kept as such. Each of these counts as zero bytes.

use vstd::prelude::*;

verus! {

/// A directory as it was found: its path and, if it could be listed, its entries.
#[derive(Debug)]
pub struct Directory {
    /// The path under which the directory is reported.
    pub path: String,
    /// The entries in the order in which the listing gave them; `None` if the
    /// directory could not be listed.
    pub entries: Option<Vec<Entry>>,
}

/// One entry of a directory listing.
#[derive(Debug)]
pub enum Entry {
    /// Anything that is not a directory.
    File {
        /// The path under which the file is reported.
        path: String,
        /// The length in bytes; `None` if it could not be read.
        len: Option<u64>,
    },
    /// A subdirectory.
    Dir {
        /// The subdirectory and what lies below it.
        dir: Directory,
    },
    /// An entry whose type could not be determined.
    Unknown {
        /// The path of the entry.
        path: String,
    },
}

/// Mathematical model of a [`Directory`].
pub struct DirectoryView {
    pub path: Seq<char>,
    pub entries: Option<Seq<EntryView>>,
}

/// Mathematical model of an [`Entry`].
pub enum EntryView {
    File { path: Seq<char>, len: Option<u64> },
    Dir { dir: DirectoryView },
    Unknown { path: Seq<char> },
}

impl View for Directory {
    type V = DirectoryView;

    open spec fn view(&self) -> DirectoryView
        decreases self, 0nat,
    {
        DirectoryView {
            path: self.path@,
            entries: match self.entries {
                Some(entries) => Some(entry_views(entries@)),
                None => None,
            },
        }
    }
}

impl View for Entry {
    type V = EntryView;

    open spec fn view(&self) -> EntryView
        decreases self, 0nat,
    {
        match self {
            Entry::File { path, len } => EntryView::File { path: path@, len: *len },
            Entry::Dir { dir } => EntryView::Dir { dir: dir@ },
            Entry::Unknown { path } => EntryView::Unknown { path: path@ },
        }
    }
}

/// The models of a sequence of entries, in the same order.
pub open spec fn entry_views(entries: Seq<Entry>) -> Seq<EntryView>
    decreases entries, 1nat,
{
    if entries.len() == 0 {
        Seq::empty()
    } else {
        entry_views(entries.drop_last()).push(entries.last()@)
    }
}

/// The model of a sequence of entries has the model of each entry in its place.
pub proof fn lemma_entry_views(entries: Seq<Entry>)
    ensures
        entry_views(entries).len() == entries.len(),
        forall|i: int|
            0 <= i < entries.len() ==> (#[trigger] entry_views(entries)[i]) == entries[i]@,
    decreases entries.len(),
{
    if entries.len() > 0 {
        lemma_entry_views(entries.drop_last());
        assert(entry_views(entries) == entry_views(entries.drop_last()).push(entries.last()@));
    } else {
        assert(entry_views(entries) == Seq::<EntryView>::empty());
    }
}

/// Two to the power of 64, the modulus of size arithmetic.
pub open spec fn size_modulus() -> nat {
    0x1_0000_0000_0000_0000
}

/// `bytes` as it is held in a 64-bit size: reduced modulo 2^64.
pub open spec fn wrapped(bytes: nat) -> u64 {
    (bytes % size_modulus()) as u64
}

impl EntryView {
    /// Whether the entry is a subdirectory.
    pub open spec fn is_dir(self) -> bool {
        self is Dir
    }

    /// The sum of the lengths of all readable files at or below this entry.
    pub open spec fn bytes(self) -> nat
        decreases self, 0nat,
    {
        match self {
            EntryView::File { len: Some(n), .. } => n as nat,
            EntryView::File { len: None, .. } => 0,
            EntryView::Dir { dir } => dir.bytes(),
            EntryView::Unknown { .. } => 0,
        }
    }

    /// The size that the entry adds to its parent.
    pub open spec fn total(self) -> u64 {
        wrapped(self.bytes())
    }
}

impl DirectoryView {
    /// The sum of the lengths of all readable files below this directory; zero
    /// if the directory could not be listed.
    pub open spec fn bytes(self) -> nat
        decreases self, 0nat,
    {
        match self.entries {
            Some(entries) => forest_bytes(entries),
            None => 0,
        }
    }

    /// The size attributed to the directory: the sum of what its entries add,
    /// in 64-bit arithmetic that wraps around.
    pub open spec fn total(self) -> u64 {
        wrapped(self.bytes())
    }
}

/// The sum of the lengths of all readable files at or below the given entries.
pub open spec fn forest_bytes(entries: Seq<EntryView>) -> nat
    decreases entries, 1nat,
{
    if entries.len() == 0 {
        0
    } else {
        forest_bytes(entries.drop_last()) + entries.last().bytes()
    }
}

/// Adding an entry at the end adds its bytes.
pub proof fn lemma_forest_bytes_push(entries: Seq<EntryView>, entry: EntryView)
    ensures
        forest_bytes(entries.push(entry)) == forest_bytes(entries) + entry.bytes(),
{
    assert(entries.push(entry).drop_last() =~= entries);
}

/// The bytes of a concatenation are the bytes of its parts.
pub proof fn lemma_forest_bytes_concat(front: Seq<EntryView>, back: Seq<EntryView>)
    ensures
        forest_bytes(front + back) == forest_bytes(front) + forest_bytes(back),
    decreases back.len(),
{
    if back.len() == 0 {
        assert(front + back =~= front);
    } else {
        lemma_forest_bytes_concat(front, back.drop_last());
        assert((front + back).drop_last() =~= front + back.drop_last());
    }
}

/// Wrapping addition of wrapped sizes is the wrapped sum.
pub proof fn lemma_wrapped_add(a: nat, b: nat)
    ensures
        vstd::wrapping::u64_specs::wrapping_add(wrapped(a), wrapped(b)) == wrapped(a + b),
{
}

} // verus!
