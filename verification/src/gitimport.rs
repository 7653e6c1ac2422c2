//! Turning the references of an imported git repository into bookmarks.

use vstd::prelude::*;
use vstd::string::StringExecFns;
use crate::text::{has_prefix, same_text, starts_with, without_first};
use crate::types::ChangesetId;

verus! {

/// Why a reference gives no bookmark.
#[derive(Clone, Copy, Debug, PartialEq, Eq)]
pub enum RefError {
    /// The reference does not start with `refs/`.
    NotUnderRefs,
}

/// The name of the bookmark for a reference: the reference without its
/// leading `refs/`, with `heads/` in place of a leading `remotes/origin/`.
/// The head of the repository gets no bookmark.
pub open spec fn bookmark_name_of(reference: Seq<char>) -> Result<Option<Seq<char>>, RefError> {
    if !starts_with(reference, "refs/"@) {
        Err(RefError::NotUnderRefs)
    } else {
        let rest = reference.subrange("refs/"@.len() as int, reference.len() as int);
        let name = if starts_with(rest, "remotes/origin/"@) {
            "heads/"@ + rest.subrange("remotes/origin/"@.len() as int, rest.len() as int)
        } else {
            rest
        };
        if name == "heads/HEAD"@ {
            Ok(None)
        } else {
            Ok(Some(name))
        }
    }
}

/// The characters of a name, where there is one.
pub open spec fn name_view(r: Result<Option<String>, RefError>) -> Result<
    Option<Seq<char>>,
    RefError,
> {
    match r {
        Ok(Some(name)) => Ok(Some(name@)),
        Ok(None) => Ok(None),
        Err(e) => Err(e),
    }
}

/// The name of the bookmark that a reference is imported as, if it is
/// imported at all.
pub fn bookmark_name(reference: &str) -> (r: Result<Option<String>, RefError>)
    ensures
        name_view(r) == bookmark_name_of(reference@),
{
    proof {
        reveal_strlit("refs/");
        reveal_strlit("remotes/origin/");
    }
    if !has_prefix(reference, "refs/") {
        return Err(RefError::NotUnderRefs);
    }
    let rest = without_first(reference, 5);
    let name = if has_prefix(rest.as_str(), "remotes/origin/") {
        let tail = without_first(rest.as_str(), 15);
        String::from_str("heads/").concat(tail.as_str())
    } else {
        rest
    };
    if same_text(name.as_str(), "heads/HEAD") {
        Ok(None)
    } else {
        Ok(Some(name))
    }
}

/// What is done with the bookmark of a reference.
#[derive(Clone, Copy, Debug, PartialEq, Eq)]
pub enum BookmarkAction {
    /// There is no such bookmark yet: it is created.
    Create,
    /// The bookmark points elsewhere: it is moved from there.
    Move { from: ChangesetId },
    /// The bookmark points to the changeset already.
    UpToDate,
}

/// What is done with a bookmark that points to `old`, if it exists, so that
/// it points to `target`.
pub fn bookmark_action(old: Option<ChangesetId>, target: ChangesetId) -> (action: BookmarkAction)
    ensures
        action == match old {
            None => BookmarkAction::Create,
            Some(from) => if from == target {
                BookmarkAction::UpToDate
            } else {
                BookmarkAction::Move { from }
            },
        },
{
    match old {
        None => BookmarkAction::Create,
        Some(from) => {
            if from.same_as(&target) {
                BookmarkAction::UpToDate
            } else {
                BookmarkAction::Move { from }
            }
        },
    }
}

/// Whether anything is read from the references of the repository: they are
/// read to be listed or to be made bookmarks.
pub fn reads_references(suppress_ref_mapping: bool, generate_bookmarks: bool) -> (r: bool)
    ensures
        r == (!suppress_ref_mapping || generate_bookmarks),
{
    !suppress_ref_mapping || generate_bookmarks
}

} // verus!
