//! Finding the other side of a rename between two trees: which files can be
//! it, and what the recorded renames say.

use vstd::prelude::*;
use crate::text::same_text;

verus! {

/// A file at a revision.
#[derive(Clone, Debug, PartialEq, Eq)]
pub struct Key {
    pub path: String,
    pub hgid: [u8; 20],
}

/// How a file differs between the old tree and the new one.
#[derive(Clone, Copy, Debug, PartialEq, Eq)]
pub enum DiffType {
    /// The file is in the old tree only.
    LeftOnly([u8; 20]),
    /// The file is in the new tree only.
    RightOnly([u8; 20]),
    /// The file is in both trees and differs.
    Changed([u8; 20], [u8; 20]),
}

/// One difference between two trees.
#[derive(Clone, Debug, PartialEq, Eq)]
pub struct DiffEntry {
    pub path: String,
    pub diff_type: DiffType,
}

/// Which way a rename is looked for.
#[derive(Clone, Copy, Debug, PartialEq, Eq)]
pub enum SearchDirection {
    /// From the old tree to the new one.
    Forward,
    /// From the new tree to the old one.
    Backward,
}

/// The files that are in the new tree only, in the order of the differences.
pub open spec fn added_files(entries: Seq<DiffEntry>) -> Seq<Key>
    decreases entries.len(),
{
    if entries.len() == 0 {
        Seq::empty()
    } else {
        let rest = added_files(entries.drop_last());
        match entries.last().diff_type {
            DiffType::RightOnly(hgid) => rest.push(Key { path: entries.last().path, hgid }),
            _ => rest,
        }
    }
}

/// The files that are in the old tree only, in the order of the differences.
pub open spec fn deleted_files(entries: Seq<DiffEntry>) -> Seq<Key>
    decreases entries.len(),
{
    if entries.len() == 0 {
        Seq::empty()
    } else {
        let rest = deleted_files(entries.drop_last());
        match entries.last().diff_type {
            DiffType::LeftOnly(hgid) => rest.push(Key { path: entries.last().path, hgid }),
            _ => rest,
        }
    }
}

/// The files that were added and the files that were deleted between two
/// trees.
pub fn get_added_and_deleted_files(entries: &Vec<DiffEntry>) -> (r: (Vec<Key>, Vec<Key>))
    ensures
        r.0@ == added_files(entries@),
        r.1@ == deleted_files(entries@),
{
    let mut added: Vec<Key> = Vec::new();
    let mut deleted: Vec<Key> = Vec::new();
    let mut i: usize = 0;
    while i < entries.len()
        invariant
            i <= entries.len(),
            added@ == added_files(entries@.subrange(0, i as int)),
            deleted@ == deleted_files(entries@.subrange(0, i as int)),
        decreases entries.len() - i,
    {
        proof {
            let next = entries@.subrange(0, i + 1);
            assert(next.drop_last() =~= entries@.subrange(0, i as int));
            assert(next.last() == entries@[i as int]);
        }
        let entry = &entries[i];
        match entry.diff_type {
            DiffType::RightOnly(hgid) => {
                added.push(Key { path: entry.path.clone(), hgid });
            },
            DiffType::LeftOnly(hgid) => {
                deleted.push(Key { path: entry.path.clone(), hgid });
            },
            DiffType::Changed(_, _) => {},
        }
        i += 1;
    }
    assert(entries@.subrange(0, i as int) =~= entries@);
    (added, deleted)
}

/// The files among which the other side of a rename is looked for: the
/// added ones going forward, the deleted ones going backward.
pub fn generate_candidates(added: Vec<Key>, deleted: Vec<Key>, direction: SearchDirection) -> (r:
    Vec<Key>)
    ensures
        r == match direction {
            SearchDirection::Forward => added,
            SearchDirection::Backward => deleted,
        },
{
    match direction {
        SearchDirection::Forward => added,
        SearchDirection::Backward => deleted,
    }
}

/// The place of the first file at or after `from` that is recorded as
/// renamed from `old_path`.
pub open spec fn first_renamed_from(
    renames: Seq<(Key, Option<Key>)>,
    old_path: Seq<char>,
    from: int,
) -> Option<int>
    decreases renames.len() - from,
{
    if from < 0 || from >= renames.len() {
        None
    } else if renames[from].1 matches Some(source) && source.path@ == old_path {
        Some(from)
    } else {
        first_renamed_from(renames, old_path, from + 1)
    }
}

/// The new path of the file that is recorded as renamed from `old_path`,
/// according to the first such record.
pub fn read_renamed_metadata_forward(renames: &Vec<(Key, Option<Key>)>, old_path: &str) -> (r:
    Option<String>)
    ensures
        match r {
            Some(path) => first_renamed_from(renames@, old_path@, 0) matches Some(i) && path
                == renames@[i].0.path,
            None => first_renamed_from(renames@, old_path@, 0) is None,
        },
{
    let mut i: usize = 0;
    while i < renames.len()
        invariant
            first_renamed_from(renames@, old_path@, 0) == first_renamed_from(
                renames@,
                old_path@,
                i as int,
            ),
        decreases renames.len() - i,
    {
        match &renames[i].1 {
            Some(source) => {
                if same_text(source.path.as_str(), old_path) {
                    return Some(renames[i].0.path.clone());
                }
            },
            None => {},
        }
        i += 1;
    }
    None
}

/// The old path of a file, according to the first record of its renames.
pub fn read_renamed_metadata_backward(renames: &Vec<(Key, Option<Key>)>) -> (r: Option<String>)
    ensures
        r == if renames@.len() == 0 {
            None
        } else {
            match renames@[0].1 {
                Some(source) => Some(source.path),
                None => None,
            }
        },
{
    if renames.len() == 0 {
        return None;
    }
    match &renames[0].1 {
        Some(source) => Some(source.path.clone()),
        None => None,
    }
}

/// Whether what the recorded renames say is the answer: it is where they
/// name a file, and where the contents are not to be compared instead.
pub fn metadata_answers(found: bool, fallback_to_content_similarity: bool) -> (r: bool)
    ensures
        r == (found || !fallback_to_content_similarity),
{
    found || !fallback_to_content_similarity
}

/// The first `max_rename_candidates` of the candidates.
pub fn limit_candidates(candidates: Vec<Key>, max_rename_candidates: usize) -> (r: Vec<Key>)
    ensures
        r@ == if candidates@.len() > max_rename_candidates {
            candidates@.subrange(0, max_rename_candidates as int)
        } else {
            candidates@
        },
{
    let mut candidates = candidates;
    if candidates.len() > max_rename_candidates {
        candidates.truncate(max_rename_candidates);
    }
    candidates
}

/// How many lines end in the content.
pub open spec fn line_ends(content: Seq<u8>) -> nat
    decreases content.len(),
{
    if content.len() == 0 {
        0
    } else {
        line_ends(content.drop_last()) + if content.last() == 10u8 {
            1nat
        } else {
            0nat
        }
    }
}

/// Counts the ends of lines in the content.
pub fn count_lines(content: &Vec<u8>) -> (lines: usize)
    ensures
        lines == line_ends(content@),
{
    let mut lines: usize = 0;
    let mut i: usize = 0;
    while i < content.len()
        invariant
            i <= content.len(),
            lines <= i,
            lines == line_ends(content@.subrange(0, i as int)),
        decreases content.len() - i,
    {
        proof {
            let next = content@.subrange(0, i + 1);
            assert(next.drop_last() =~= content@.subrange(0, i as int));
            assert(next.last() == content@[i as int]);
        }
        if content[i] == 10u8 {
            lines += 1;
        }
        i += 1;
    }
    assert(content@.subrange(0, i as int) =~= content@);
    lines
}

} // verus!
