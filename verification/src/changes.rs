//! Status of an administrative change request.

use vstd::prelude::*;
use crate::text::str_eq;

verus! {

/// Status of a change request.
#[derive(Debug, Clone, Copy, PartialEq, Eq, Structural)]
pub enum ChangeStatus {
    Pending,
    Preview,
    Applied,
    Rejected,
}

impl ChangeStatus {
    /// The stable name of each status.
    pub open spec fn name(self) -> Seq<char> {
        match self {
            ChangeStatus::Pending => "pending"@,
            ChangeStatus::Preview => "preview"@,
            ChangeStatus::Applied => "applied"@,
            ChangeStatus::Rejected => "rejected"@,
        }
    }

    /// The status a name denotes, if any; matching is case-sensitive.
    pub open spec fn from_name(s: Seq<char>) -> Option<ChangeStatus> {
        if s == "pending"@ {
            Some(ChangeStatus::Pending)
        } else if s == "preview"@ {
            Some(ChangeStatus::Preview)
        } else if s == "applied"@ {
            Some(ChangeStatus::Applied)
        } else if s == "rejected"@ {
            Some(ChangeStatus::Rejected)
        } else {
            None
        }
    }

    /// The stable name of this status.
    pub fn as_str(&self) -> (r: &'static str)
        ensures
            r@ == self.name(),
    {
        match self {
            ChangeStatus::Pending => "pending",
            ChangeStatus::Preview => "preview",
            ChangeStatus::Applied => "applied",
            ChangeStatus::Rejected => "rejected",
        }
    }

    /// Parse a status name.
    pub fn from_str(s: &str) -> (r: Option<ChangeStatus>)
        ensures
            r == ChangeStatus::from_name(s@),
    {
        if str_eq(s, "pending") {
            Some(ChangeStatus::Pending)
        } else if str_eq(s, "preview") {
            Some(ChangeStatus::Preview)
        } else if str_eq(s, "applied") {
            Some(ChangeStatus::Applied)
        } else if str_eq(s, "rejected") {
            Some(ChangeStatus::Rejected)
        } else {
            None
        }
    }
}

} // verus!
