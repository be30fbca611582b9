//! Names on the way to the repository: references of branches and short
//! commit identifiers.

use vstd::prelude::*;
use vstd::string::{StrSliceExecFns, StringExecFns};

verus! {

/// The reference by which a branch is found.
pub open spec fn branch_ref_name(branch: Seq<char>) -> Seq<char> {
    "refs/heads/"@ + branch
}

/// The name of the reference of a branch.
pub fn branch_ref(branch: &str) -> (name: String)
    ensures
        name@ == branch_ref_name(branch@),
{
    let mut name = String::from_str("refs/heads/");
    name.append(branch);
    name
}

/// The path of an entry of a tree: the path of the directory that holds it,
/// which is empty at the top and ends in `/` below, and the entry's name.
pub fn entry_path(root: &str, name: &str) -> (path: String)
    ensures
        path@ == root@ + name@,
{
    let mut path = String::from_str(root);
    path.append(name);
    path
}

/// Where the head of a comparison is read from.
#[derive(Clone, Debug, PartialEq, Eq)]
pub enum HeadSource {
    /// What is checked out.
    Current,
    /// The reference of that name.
    Reference(String),
}

/// What a `HeadSource` stands for.
pub enum HeadSourceModel {
    Current,
    Reference(Seq<char>),
}

impl HeadSource {
    /// What the source stands for.
    pub open spec fn model(&self) -> HeadSourceModel {
        match self {
            HeadSource::Current => HeadSourceModel::Current,
            HeadSource::Reference(name) => HeadSourceModel::Reference(name@),
        }
    }
}

/// Where the head named `head` is read from: `HEAD` is what is checked out,
/// any other name is a branch.
pub open spec fn head_source_of(head: Seq<char>) -> HeadSourceModel {
    if head == "HEAD"@ {
        HeadSourceModel::Current
    } else {
        HeadSourceModel::Reference(branch_ref_name(head))
    }
}

/// Tells where the head of a comparison is read from.
pub fn head_source(head: &str) -> (source: HeadSource)
    ensures
        source.model() == head_source_of(head@),
{
    if head.to_owned() == String::from_str("HEAD") {
        HeadSource::Current
    } else {
        HeadSource::Reference(branch_ref(head))
    }
}

/// The first seven characters of an identifier, or all of a shorter one.
pub open spec fn short_form(id: Seq<char>) -> Seq<char> {
    if id.len() <= 7 {
        id
    } else {
        id.take(7)
    }
}

/// The short form of a commit identifier.
pub fn short_id(id: &str) -> (short: String)
    ensures
        short@ == short_form(id@),
{
    let total = id.unicode_len();
    if total <= 7 {
        id.to_owned()
    } else {
        let piece = id.substring_char(0, 7);
        assert(piece@ =~= id@.take(7));
        piece.to_owned()
    }
}

} // verus!
