//! How the command that prints blobs from the local store presents itself.

use vstd::prelude::*;

verus! {

/// The names under which the command is known.
pub fn aliases() -> (r: &'static str)
    ensures
        r@ == "debugstore"@,
{
    "debugstore"
}

/// What the help says of the command.
pub fn doc() -> (r: &'static str)
    ensures
        r@ == "print information about blobstore"@,
{
    "print information about blobstore"
}

/// The command has no synopsis of its own.
pub fn synopsis() -> (r: Option<&'static str>)
    ensures
        r is None,
{
    None
}

} // verus!
