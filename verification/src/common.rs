//! Names, identifiers, constants and the error type shared by the crate.

use crate::model::Limit;
use vstd::prelude::*;

verus! {

/// Identifier of a branch.
pub type BranchID = u64;

/// Identifier of a version. Identifiers are handed out in increasing order,
/// so a newer version has a greater identifier than an older one.
pub type VersionID = u64;

/// An owned key.
pub type RawKey = Vec<u8>;

/// An owned value.
pub type RawValue = Vec<u8>;

/// The identifier that no branch and no version ever has.
pub const NULL_ID: u64 = 0;

/// The identifier of the branch that every new map starts with.
pub const INITIAL_BRANCH_ID: u64 = 1;

/// How many of the newest shared versions `prune` keeps when the caller
/// names no number.
pub const RESERVED_VERSION_NUM_DEFAULT: usize = 10;

/// The name of the branch that every new map starts with: `main`.
pub open spec fn initial_branch_name() -> Seq<u8> {
    seq![109u8, 97u8, 105u8, 110u8]
}

/// The name of the branch that every new map starts with, as owned bytes.
pub fn initial_branch_name_bytes() -> (name: Vec<u8>)
    ensures
        name@ == initial_branch_name(),
{
    let mut name: Vec<u8> = Vec::new();
    name.push(109u8);
    name.push(97u8);
    name.push(105u8);
    name.push(110u8);
    proof {
        assert(name@ =~= initial_branch_name());
    }
    name
}

/// The name of a branch.
#[derive(Clone, Copy, Debug)]
pub struct BranchName<'a>(pub &'a [u8]);

/// The name of the branch that a new branch is created from.
#[derive(Clone, Copy, Debug)]
pub struct ParentBranchName<'a>(pub &'a [u8]);

/// The name of a version.
#[derive(Clone, Copy, Debug)]
pub struct VersionName<'a>(pub &'a [u8]);

/// The name of a branch, owned.
#[derive(Clone, Debug, PartialEq, Eq)]
pub struct BranchNameOwned(pub Vec<u8>);

/// The name of a version, owned.
#[derive(Clone, Debug, PartialEq, Eq)]
pub struct VersionNameOwned(pub Vec<u8>);

/// One end of a range of keys.
#[derive(Clone, Copy, Debug)]
pub enum KeyBound<'a> {
    /// The range is open at this end.
    Unbounded,
    /// The range ends with this key.
    Included(&'a [u8]),
    /// The range ends just before this key.
    Excluded(&'a [u8]),
}

impl<'a> View for KeyBound<'a> {
    type V = Limit;

    open spec fn view(&self) -> Limit {
        match *self {
            KeyBound::Unbounded => Limit::Unbounded,
            KeyBound::Included(k) => Limit::Included(k@),
            KeyBound::Excluded(k) => Limit::Excluded(k@),
        }
    }
}

/// Why an operation was refused.
#[derive(Clone, Copy, Debug, PartialEq, Eq, Structural)]
pub enum VsError {
    /// The branch that the operation works on does not exist.
    BranchNotFound,
    /// The version that the operation works on does not exist.
    VersionNotFound,
    /// The branch that a new branch was to start from does not exist.
    BaseBranchNotFound,
    /// The version is not among the versions of the branch.
    VersionOnWrongBranch,
    /// A branch of that name exists already.
    BranchAlreadyExists,
    /// A version of that name exists already.
    VersionAlreadyExists,
    /// The branch has no version to write to.
    NoVersionOnBranch,
    /// `prune` was asked to keep zero versions.
    InvalidReserveCount,
    /// The target of a merge has a newest version that the source lacks.
    UnsafeMerge,
    /// The branch that a merge was to go into does not exist.
    TargetBranchNotFound,
    /// Stored indices contradict one another.
    CorruptedIndex,
    /// Every identifier has been handed out.
    IdSpaceExhausted,
}

} // verus!
