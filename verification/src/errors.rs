//! Typed errors of the library. None of these is retried internally:
//! each one reports a data-level fact to the immediate caller.

use vstd::prelude::*;

verus! {

/// The error kinds the library reports.
///
/// `Conflict` carries the offending link key, or `None` when the scalar
/// data slot of the merged objects is the one in conflict.
#[derive(Clone, Debug)]
pub enum UprtclError {
    /// An address has neither a stored entry nor a proxy mapping.
    NotFound,
    /// A three-way merge could not resolve a key.
    Conflict(Option<String>),
    /// An ancestor search exhausted the commit graph.
    NoCommonAncestor,
    /// A tag or payload failed to decode.
    Malformed,
    /// An operation was refused by policy: an immutable entity was
    /// targeted by an update or delete, or perspectives of different
    /// contexts were asked to merge.
    ValidationRejected,
}

impl UprtclError {
    /// A short human-readable description, in place of `Display`.
    pub fn as_text(&self) -> (r: String)
        ensures
            r@.len() > 0,
    {
        let s: &str = match self {
            UprtclError::NotFound => "entry not found",
            UprtclError::Conflict(_) => "there was a conflict trying to merge",
            UprtclError::NoCommonAncestor => "commits don't have a common ancestor",
            UprtclError::Malformed => "could not decode",
            UprtclError::ValidationRejected => "cannot modify or delete an immutable entry",
        };
        proof {
            reveal_strlit("entry not found");
            reveal_strlit("there was a conflict trying to merge");
            reveal_strlit("commits don't have a common ancestor");
            reveal_strlit("could not decode");
            reveal_strlit("cannot modify or delete an immutable entry");
        }
        s.to_owned()
    }
}

} // verus!
