//! Lifecycle of tag-enrichment jobs.
use vstd::prelude::*;

use crate::text::compare_text;

verus! {

/// State of a job: `Pending` to `Running` to `Done` or `Failed`.
#[derive(Clone, Copy, Debug, PartialEq, Eq, Structural)]
pub enum TagJobStatus {
    Pending,
    Running,
    Done,
    Failed,
}

pub open spec fn status_text(s: TagJobStatus) -> Seq<char> {
    match s {
        TagJobStatus::Pending => "pending"@,
        TagJobStatus::Running => "running"@,
        TagJobStatus::Done => "done"@,
        TagJobStatus::Failed => "failed"@,
    }
}

impl TagJobStatus {
    pub fn as_str(&self) -> (r: &'static str)
        ensures
            r@ == status_text(*self),
    {
        match self {
            TagJobStatus::Pending => "pending",
            TagJobStatus::Running => "running",
            TagJobStatus::Done => "done",
            TagJobStatus::Failed => "failed",
        }
    }

    /// Reads a stored status; text that names no other state reads as `Pending`.
    pub fn from_str(value: &str) -> (r: TagJobStatus)
        ensures
            r == (if value@ == "running"@ {
                TagJobStatus::Running
            } else if value@ == "done"@ {
                TagJobStatus::Done
            } else if value@ == "failed"@ {
                TagJobStatus::Failed
            } else {
                TagJobStatus::Pending
            }),
    {
        if compare_text(value, "running") == 0 {
            TagJobStatus::Running
        } else if compare_text(value, "done") == 0 {
            TagJobStatus::Done
        } else if compare_text(value, "failed") == 0 {
            TagJobStatus::Failed
        } else {
            TagJobStatus::Pending
        }
    }

    pub open spec fn is_terminal(self) -> bool {
        self == TagJobStatus::Done || self == TagJobStatus::Failed
    }
}

/// The moves of the lifecycle: a worker claims a pending job, and a running
/// job ends done or failed. Nothing leaves `Done` or `Failed`.
pub open spec fn can_transition(from: TagJobStatus, to: TagJobStatus) -> bool {
    (from == TagJobStatus::Pending && to == TagJobStatus::Running) || (from == TagJobStatus::Running
        && (to == TagJobStatus::Done || to == TagJobStatus::Failed))
}

pub fn allows_transition(from: TagJobStatus, to: TagJobStatus) -> (r: bool)
    ensures
        r == can_transition(from, to),
{
    match (from, to) {
        (TagJobStatus::Pending, TagJobStatus::Running) => true,
        (TagJobStatus::Running, TagJobStatus::Done) => true,
        (TagJobStatus::Running, TagJobStatus::Failed) => true,
        _ => false,
    }
}

/// One enrichment task for one bookmark. Identifiers are UUIDs as 128-bit
/// integers; times are seconds since the epoch.
#[derive(Clone, Copy, Debug, PartialEq, Eq, Structural)]
pub struct TagJob {
    pub id: u128,
    pub bookmark_id: u128,
    pub status: TagJobStatus,
    pub attempts: i32,
    pub created_at: i64,
    pub updated_at: i64,
}

/// The job after a permitted move at time `now`: new status, one more attempt.
pub open spec fn moved(job: TagJob, to: TagJobStatus, now: i64) -> TagJob {
    TagJob { status: to, attempts: (job.attempts + 1) as i32, updated_at: now, ..job }
}

/// A move is made when the lifecycle permits it and the counter can grow.
pub open spec fn can_move(job: TagJob, to: TagJobStatus) -> bool {
    can_transition(job.status, to) && job.attempts < i32::MAX
}

impl TagJob {
    pub open spec fn spec_new(id: u128, bookmark_id: u128, now: i64) -> TagJob {
        TagJob {
            id,
            bookmark_id,
            status: TagJobStatus::Pending,
            attempts: 0,
            created_at: now,
            updated_at: now,
        }
    }

    /// A job as it is created for a new bookmark.
    pub fn new(id: u128, bookmark_id: u128, now: i64) -> (r: TagJob)
        ensures
            r == TagJob::spec_new(id, bookmark_id, now),
    {
        TagJob {
            id,
            bookmark_id,
            status: TagJobStatus::Pending,
            attempts: 0,
            created_at: now,
            updated_at: now,
        }
    }

    /// Moves the job to `to` at time `now`, counting the attempt. A move that
    /// the lifecycle does not permit, or that would overflow the counter,
    /// leaves the job as it is and returns false.
    pub fn advance(&mut self, to: TagJobStatus, now: i64) -> (r: bool)
        ensures
            r == can_move(*old(self), to),
            r ==> *final(self) == moved(*old(self), to, now),
            !r ==> *final(self) == *old(self),
    {
        if !allows_transition(self.status, to) || self.attempts == i32::MAX {
            return false;
        }
        self.status = to;
        self.attempts = self.attempts + 1;
        self.updated_at = now;
        true
    }
}

/// A job's life: created `Pending` with no attempt; claimed and finished, it
/// is `Done`, or `Failed` when its bookmark was missing, having counted one
/// attempt for each of the two moves; and no move leaves `Done` or `Failed`.
pub proof fn lemma_job_lifecycle(
    id: u128,
    bookmark_id: u128,
    created: i64,
    claimed: i64,
    finished: i64,
    outcome: TagJobStatus,
    to: TagJobStatus,
)
    requires
        outcome == TagJobStatus::Done || outcome == TagJobStatus::Failed,
    ensures
        ({
            let fresh = TagJob::spec_new(id, bookmark_id, created);
            let running = moved(fresh, TagJobStatus::Running, claimed);
            let ended = moved(running, outcome, finished);
            &&& fresh.status == TagJobStatus::Pending
            &&& fresh.attempts == 0
            &&& can_move(fresh, TagJobStatus::Running)
            &&& can_move(running, outcome)
            &&& ended.status == outcome
            &&& ended.attempts == 2
            &&& ended.created_at == created
            &&& ended.updated_at == finished
            &&& !can_move(ended, to)
        }),
{
}

} // verus!
