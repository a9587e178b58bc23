use lester_core::{after_batch, after_fetch, plan_job, Bookmark, JobPlan, LoopAction, TagJob, TagJobStatus, TagSource, TaggingRules};

#[test]
fn job_lifecycle_done() {
    let mut job = TagJob::new(1, 2, 100);
    assert_eq!(job.status, TagJobStatus::Pending);
    assert_eq!(job.attempts, 0);
    assert!(job.advance(TagJobStatus::Running, 110));
    assert_eq!(job.attempts, 1);
    assert!(job.advance(TagJobStatus::Done, 120));
    assert_eq!(job.status, TagJobStatus::Done);
    assert_eq!(job.attempts, 2);
    assert_eq!(job.updated_at, 120);
    assert_eq!(job.created_at, 100);
    let before = job;
    assert!(!job.advance(TagJobStatus::Running, 130));
    assert!(!job.advance(TagJobStatus::Failed, 130));
    assert!(!job.advance(TagJobStatus::Pending, 130));
    assert_eq!(job, before);
}

#[test]
fn job_lifecycle_failed() {
    let mut job = TagJob::new(1, 2, 100);
    assert!(job.advance(TagJobStatus::Running, 101));
    assert!(job.advance(TagJobStatus::Failed, 102));
    assert_eq!(job.status, TagJobStatus::Failed);
    assert_eq!(job.attempts, 2);
    assert!(!job.advance(TagJobStatus::Done, 103));
}

#[test]
fn job_refuses_skipped_moves_and_counter_overflow() {
    let mut job = TagJob::new(1, 2, 100);
    assert!(!job.advance(TagJobStatus::Done, 101));
    assert_eq!(job.status, TagJobStatus::Pending);
    assert_eq!(job.attempts, 0);
    job.attempts = i32::MAX;
    assert!(!job.advance(TagJobStatus::Running, 101));
    assert_eq!(job.attempts, i32::MAX);
}

#[test]
fn status_text_round_trip() {
    for s in [TagJobStatus::Pending, TagJobStatus::Running, TagJobStatus::Done, TagJobStatus::Failed] {
        assert_eq!(TagJobStatus::from_str(s.as_str()), s);
    }
    assert_eq!(TagJobStatus::Running.as_str(), "running");
    assert_eq!(TagJobStatus::from_str("bogus"), TagJobStatus::Pending);
    assert_eq!(TagJobStatus::from_str("Done"), TagJobStatus::Pending);
}

#[test]
fn loop_decisions() {
    assert_eq!(after_fetch(3, true), LoopAction::Process);
    assert_eq!(after_fetch(0, true), LoopAction::Stop);
    assert_eq!(after_fetch(0, false), LoopAction::Sleep);
    assert_eq!(after_batch(true), LoopAction::Stop);
    assert_eq!(after_batch(false), LoopAction::Fetch);
}

#[test]
fn plan_for_missing_and_present_bookmark() {
    let rules = TaggingRules::new();
    assert_eq!(plan_job(&rules, None), JobPlan::MarkFailed);
    let b = Bookmark {
        id: 7,
        workspace_id: 8,
        url: "https://www.rust-lang.org/learn".to_string(),
        title: "Learn Rust".to_string(),
        notes: None,
        created_at: 1,
        updated_at: 1,
    };
    match plan_job(&rules, Some(&b)) {
        JobPlan::Upsert(s) => {
            let n: Vec<_> = s.iter().map(|x| x.name.as_str()).collect();
            assert_eq!(n, vec!["rust-lang.org", "learn", "rust"]);
            assert_eq!(s[0].confidence, 648);
            assert_eq!(s[1].confidence, 540);
            assert!(s.iter().all(|x| x.source == TagSource::Llm));
        }
        other => panic!("unexpected plan {:?}", other),
    }
}
