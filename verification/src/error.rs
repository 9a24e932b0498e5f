//! Service-level error type. Carries operation + input + suggested fix so
//! every head (CLI exit message, MCP tool error, GUI dialog) can render the
//! same remedy without re-deriving it.
//!
//! An operation that visits every row regardless of per-row failures reports
//! those failures inside its `Ok` outcome; a carrier variant such as
//! [`ServiceError::ParaArchivePartial`] is for an operation that aborts
//! partway and must still hand back the work it completed.
use vstd::prelude::*;
use crate::para::ArchiveMove;
use crate::sync::LocationRow;
use crate::text::{cat, push_decimal, decimal};

verus! {

#[derive(Debug)]
pub enum ServiceError {
    /// The single source of truth for the "no catalog here" message.
    NoCatalog { root: String },
    /// `para archive`'s partial-failure carrier: the moves completed before
    /// the failing root, and the failure itself.
    ParaArchivePartial { moves: Vec<ArchiveMove>, source: String },
    /// `sync pull`'s abort-midway carrier: every targeted location's
    /// transfer already ran (`rows`) before the local apply failed.
    SyncPullApplyFailed { rows: Vec<LocationRow>, source: String },
    /// Wraps an error leaving a verb while that call's notices sink still
    /// held diagnostics. Built only by `Notices::attach_on_err`, and never
    /// nested.
    WithNotices { notices: Vec<String>, source: Box<ServiceError> },
    /// Any other failure, by its message.
    Other(String),
}

pub open spec fn no_catalog_message(root: Seq<char>) -> Seq<char> {
    "no catalog at "@ + root + " — run `maj catalog init` first"@
}

pub open spec fn with_notices_message(n: nat) -> Seq<char> {
    decimal(n) + " diagnostic(s) were collected before this failure"@
}

/// What a head shows for this error.
pub open spec fn error_message(e: ServiceError) -> Seq<char> {
    match e {
        ServiceError::NoCatalog { root } => no_catalog_message(root@),
        ServiceError::ParaArchivePartial { .. } => "para archive partially completed"@,
        ServiceError::SyncPullApplyFailed { .. } => "sync pull apply failed after transfer completed"@,
        ServiceError::WithNotices { notices, .. } => with_notices_message(notices@.len()),
        ServiceError::Other(message) => message@,
    }
}

impl ServiceError {
    /// The message a head renders for this error.
    pub fn message(&self) -> (m: String)
        ensures
            m@ == error_message(*self),
    {
        match self {
            ServiceError::NoCatalog { root } => {
                let head = cat("no catalog at ", root.as_str());
                cat(head.as_str(), " — run `maj catalog init` first")
            },
            ServiceError::ParaArchivePartial { .. } => {
                "para archive partially completed".to_owned()
            },
            ServiceError::SyncPullApplyFailed { .. } => {
                "sync pull apply failed after transfer completed".to_owned()
            },
            ServiceError::WithNotices { notices, .. } => {
                let mut m = String::new();
                push_decimal(&mut m, notices.len() as u64);
                m.append(" diagnostic(s) were collected before this failure");
                assert(m@ =~= with_notices_message(notices@.len()));
                m
            },
            ServiceError::Other(message) => message.clone(),
        }
    }
}

/// The "no catalog at <root>" error.
pub fn no_catalog(root: &str) -> (e: ServiceError)
    ensures
        e matches ServiceError::NoCatalog { root: r } && r@ == root@,
{
    ServiceError::NoCatalog { root: root.to_owned() }
}

} // verus!
