//! The listing: what a directory walk found, reduced to the files that can
//! take part in a scan.

use crate::seq_facts::lemma_filter_map_push;
use vstd::prelude::*;

verus! {

/// What the walk reports of one directory entry.
#[derive(Debug, PartialEq, Eq)]
pub enum WalkEntry<P> {
    /// A regular file, with the size that its metadata gave.
    File { size: u64, path: P },
    /// Something that is no regular file: a directory, a link, a device.
    Other,
    /// An entry that could not be read, or whose metadata could not.
    Failed,
}

/// The test for an entry that takes part in the scan: a regular file that
/// is not empty.
pub open spec fn takes_part<P>() -> spec_fn(WalkEntry<P>) -> bool {
    |entry: WalkEntry<P>| entry matches WalkEntry::File { size, .. } && size != 0
}

/// The size and the path of a file entry.
pub open spec fn file_of<P>() -> spec_fn(WalkEntry<P>) -> (u64, P) {
    |entry: WalkEntry<P>| (entry->size, entry->path)
}

/// The files of `entries` that take part, each with its size, in walk order.
pub open spec fn listed<P>(entries: Seq<WalkEntry<P>>) -> Seq<(u64, P)> {
    entries.filter(takes_part()).map_values(file_of())
}

/// Decides on one entry as it comes from the walk: a regular file that is
/// not empty is handed on with its size, anything else is skipped.
pub fn take_entry<P>(entry: WalkEntry<P>) -> (file: Option<(u64, P)>)
    ensures
        file == if takes_part()(entry) {
            Some(file_of()(entry))
        } else {
            None
        },
{
    match entry {
        WalkEntry::File { size, path } => {
            if size != 0 {
                Some((size, path))
            } else {
                None
            }
        },
        WalkEntry::Other => None,
        WalkEntry::Failed => None,
    }
}

/// Keeps the regular files that are not empty and skips everything else,
/// failures included.
pub fn walk_files<P>(entries: Vec<WalkEntry<P>>) -> (files: Vec<(u64, P)>)
    ensures
        files@ == listed(entries@),
{
    let mut files: Vec<(u64, P)> = Vec::new();
    let ghost all = entries@;
    proof {
        all.take(0).lemma_filter_len(takes_part());
    }
    for entry in it: entries.into_iter()
        invariant
            it.seq() == all,
            files@ == listed(all.take(it.index() as int)),
    {
        proof {
            assert(all.take(it.index() + 1) =~= all.take(it.index() as int).push(entry));
            lemma_filter_map_push(all.take(it.index() as int), entry, takes_part(), file_of());
        }
        match take_entry(entry) {
            Some(file) => {
                files.push(file);
            },
            None => {},
        }
    }
    proof {
        assert(all.take(all.len() as int) =~= all);
    }
    files
}

} // verus!
