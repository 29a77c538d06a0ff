//! Who goes first: the user who cancels a job, or the job that makes its results final.
use vstd::prelude::*;

verus! {

/// How far a job has come.
#[derive(Debug, Clone, Copy, PartialEq, Eq, Structural)]
pub enum Phase {
    /// It can be cancelled.
    Cancellable,
    /// It was cancelled.
    Cancelled,
    /// Its results are being made final.
    Committing,
}

/// What the user and the job share. Whoever comes first decides how the job ends.
#[derive(Debug, Clone, Copy, PartialEq, Eq, Structural)]
pub struct JobControl {
    pub phase: Phase,
    /// Conversions under way are to stop.
    pub cancel: bool,
}

impl Default for JobControl {
    fn default() -> (r: JobControl)
        ensures
            r == (JobControl { phase: Phase::Cancellable, cancel: false }),
    {
        JobControl { phase: Phase::Cancellable, cancel: false }
    }
}

impl JobControl {
    /// What a request to cancel leaves behind.
    pub open spec fn after_cancel(self) -> JobControl {
        if self.phase == Phase::Cancellable {
            JobControl { phase: Phase::Cancelled, cancel: true }
        } else {
            self
        }
    }

    /// What an attempt to make the results final leaves behind.
    pub open spec fn after_commit(self) -> JobControl {
        if self.phase == Phase::Cancellable {
            JobControl { phase: Phase::Committing, ..self }
        } else {
            self
        }
    }

    /// The user cancels. Tells whether this came in time.
    pub fn request_cancel(&mut self) -> (r: bool)
        ensures
            r == (old(self).phase == Phase::Cancellable),
            *final(self) == old(self).after_cancel(),
    {
        if self.phase == Phase::Cancellable {
            self.phase = Phase::Cancelled;
            self.cancel = true;
            true
        } else {
            false
        }
    }

    /// The job makes its results final. Tells whether it may.
    pub fn begin_commit(&mut self) -> (r: bool)
        ensures
            r == (old(self).phase == Phase::Cancellable),
            *final(self) == old(self).after_commit(),
    {
        if self.phase == Phase::Cancellable {
            self.phase = Phase::Committing;
            true
        } else {
            false
        }
    }

    pub fn cancelled(&self) -> (r: bool)
        ensures
            r == (self.phase == Phase::Cancelled),
    {
        self.phase == Phase::Cancelled
    }

    pub fn can_cancel(&self) -> (r: bool)
        ensures
            r == (self.phase == Phase::Cancellable),
    {
        self.phase == Phase::Cancellable
    }
}

/// What happens to a job's control.
pub enum Claim {
    Cancel,
    Commit,
}

/// The control after a number of claims.
pub open spec fn after_claims(start: JobControl, claims: Seq<Claim>) -> JobControl
    decreases claims.len(),
{
    if claims.len() == 0 {
        start
    } else {
        let before = after_claims(start, claims.drop_last());
        match claims.last() {
            Claim::Cancel => before.after_cancel(),
            Claim::Commit => before.after_commit(),
        }
    }
}

/// Cancelling and committing exclude each other: whatever is claimed, in whatever order, the first
/// claim decides, and conversions are told to stop exactly where it was a cancellation.
pub proof fn the_first_claim_decides(claims: Seq<Claim>)
    requires
        claims.len() > 0,
    ensures
        ({
            let end = after_claims(
                JobControl { phase: Phase::Cancellable, cancel: false },
                claims,
            );
            match claims[0] {
                Claim::Cancel => end == (JobControl { phase: Phase::Cancelled, cancel: true }),
                Claim::Commit => end == (JobControl { phase: Phase::Committing, cancel: false }),
            }
        }),
    decreases claims.len(),
{
    let start = JobControl { phase: Phase::Cancellable, cancel: false };
    if claims.len() == 1 {
        assert(after_claims(start, claims.drop_last()) == start);
    } else {
        the_first_claim_decides(claims.drop_last());
    }
}

} // verus!
