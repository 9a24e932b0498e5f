//! An order-preserving sink for user-facing diagnostics. Services push;
//! heads drain — the CLI prints each line to stderr, MCP/GUI carry them as
//! `notices` fields on outcome structs.
use vstd::prelude::*;
use crate::error::ServiceError;

verus! {

#[derive(Debug)]
pub struct Notices {
    lines: Vec<String>,
}

impl View for Notices {
    type V = Seq<String>;

    /// The collected lines, oldest first.
    closed spec fn view(&self) -> Seq<String> {
        self.lines@
    }
}

/// The error `attach_on_err` hands back for `err` when the sink held
/// `pending`: a carrier that appends to an existing carrier's notices, or
/// a fresh carrier around any other error.
pub open spec fn attached_notices(err: ServiceError, pending: Seq<String>) -> Seq<String> {
    match err {
        ServiceError::WithNotices { notices, .. } => notices@ + pending,
        _ => pending,
    }
}

impl Default for Notices {
    fn default() -> (n: Self)
        ensures
            n@ == Seq::<String>::empty(),
    {
        Notices::new()
    }
}

impl Notices {
    /// An empty sink.
    pub fn new() -> (n: Self)
        ensures
            n@ == Seq::<String>::empty(),
    {
        Notices { lines: Vec::new() }
    }

    /// Records one diagnostic line, after every line already recorded.
    pub fn push(&mut self, message: String)
        ensures
            final(self)@ == old(self)@.push(message),
    {
        self.lines.push(message);
    }

    /// Takes every collected line, in push order, leaving the sink empty.
    pub fn drain(&mut self) -> (lines: Vec<String>)
        ensures
            lines@ == old(self)@,
            final(self)@ == Seq::<String>::empty(),
    {
        let mut taken: Vec<String> = Vec::new();
        std::mem::swap(&mut taken, &mut self.lines);
        taken
    }

    /// How many lines are waiting.
    pub fn len(&self) -> (n: usize)
        ensures
            n == self@.len(),
    {
        self.lines.len()
    }

    /// Wraps an `Err` leaving a verb while this sink still holds
    /// diagnostics, so the failure carries them. `Ok` passes through and
    /// leaves the sink untouched; so does an `Err` when the sink is empty.
    /// An error that is already a carrier is appended to, never nested.
    pub fn attach_on_err<T>(&mut self, result: Result<T, ServiceError>) -> (out: Result<
        T,
        ServiceError,
    >)
        ensures
            result is Ok ==> out == result && final(self)@ == old(self)@,
            result is Err && old(self)@.len() == 0 ==> out == result && final(self)@ == old(self)@,
            result is Err && old(self)@.len() > 0 ==> {
                &&& final(self)@ == Seq::<String>::empty()
                &&& out matches Err(ServiceError::WithNotices { notices, source })
                &&& notices@ == attached_notices(result->Err_0, old(self)@)
                &&& (match result->Err_0 {
                    ServiceError::WithNotices { source: inner, .. } => source == inner,
                    other => *source == other,
                })
            },
    {
        match result {
            Ok(value) => Ok(value),
            Err(err) => {
                if self.lines.len() == 0 {
                    return Err(err);
                }
                let mut drained = self.drain();
                match err {
                    ServiceError::WithNotices { mut notices, source } => {
                        notices.append(&mut drained);
                        Err(ServiceError::WithNotices { notices, source })
                    },
                    other => Err(ServiceError::WithNotices { notices: drained, source: Box::new(other) }),
                }
            },
        }
    }
}

} // verus!
