use crawler::jobs::{CrawlConfig, JobError, JobManager};
use crawler::status::JobStatus;

fn cfg(seeds: &[&str], max_pages: usize, max_depth: u32, rate: u32) -> CrawlConfig {
    CrawlConfig {
        seed_urls: seeds.iter().map(|s| s.to_string()).collect(),
        max_pages,
        max_depth,
        rate_per_second: rate,
    }
}

#[test]
fn create_and_status() {
    let mut m = JobManager::new();
    let id = String::from("j1");
    assert!(m.create_job(id.clone(), cfg(&["https://a.test/"], 3, 1, 2)).is_ok());
    let (status, stats) = m.get_status(&id).unwrap();
    assert_eq!(status, JobStatus::Pending);
    assert_eq!(stats.pages_fetched, 0);
    assert_eq!(stats.links_discovered, 0);
    assert_eq!(stats.errors, 0);
    assert!(stats.started_at.is_none());
    assert!(stats.finished_at.is_none());
}

#[test]
fn duplicate_job_id_rejected() {
    let mut m = JobManager::new();
    let id = String::from("j1");
    assert!(m.create_job(id.clone(), cfg(&["https://a.test/"], 3, 1, 2)).is_ok());
    assert_eq!(
        m.create_job(id.clone(), cfg(&["https://b.test/"], 3, 1, 2)),
        Err(JobError::DuplicateJobId)
    );
}

#[test]
fn invalid_config_rejected() {
    let mut m = JobManager::new();
    assert_eq!(
        m.create_job(String::from("a"), cfg(&[], 3, 1, 2)),
        Err(JobError::InvalidConfig)
    );
    assert_eq!(
        m.create_job(String::from("b"), cfg(&["https://a.test/"], 0, 1, 2)),
        Err(JobError::InvalidConfig)
    );
    assert_eq!(
        m.create_job(String::from("c"), cfg(&["https://a.test/"], 3, 1, 0)),
        Err(JobError::InvalidConfig)
    );
}

#[test]
fn unknown_job_reported() {
    let mut m = JobManager::new();
    let id = String::from("nope");
    assert_eq!(m.get_status(&id).map(|p| p.0), Err(JobError::JobNotFound));
    assert_eq!(m.cancel(&id), Err(JobError::JobNotFound));
    assert_eq!(m.start_job(&id, 0), Err(JobError::JobNotFound));
    assert!(m.begin_fetch(&id, 0).is_err());
    assert_eq!(m.record_error(&id), Err(JobError::JobNotFound));
}

#[test]
fn page_cap_limits_crawl() {
    // One seed whose page carries five links, with a cap of three pages:
    // the seed plus exactly two of the five are fetched.
    let mut m = JobManager::new();
    let id = String::from("job");
    assert!(m.create_job(id.clone(), cfg(&["https://a.test/"], 3, 1, 2)).is_ok());
    assert!(m.start_job(&id, 1000).is_ok());
    let (status, stats) = m.get_status(&id).unwrap();
    assert_eq!(status, JobStatus::Running);
    assert_eq!(stats.started_at, Some(1000));

    let entry = m.begin_fetch(&id, 1001).unwrap().expect("seed queued");
    assert_eq!(entry.url, "https://a.test/");
    assert_eq!(entry.depth, 0);
    let links: Vec<String> = (1..=5).map(|i| format!("https://l{i}.test/")).collect();
    assert!(m.record_success(&id, entry.depth, &links).is_ok());

    let e1 = m.begin_fetch(&id, 1002).unwrap().expect("first link queued");
    assert_eq!(e1.url, "https://l1.test/");
    assert_eq!(e1.depth, 1);
    assert!(m.record_success(&id, e1.depth, &Vec::new()).is_ok());

    let e2 = m.begin_fetch(&id, 1003).unwrap().expect("second link queued");
    assert_eq!(e2.url, "https://l2.test/");
    assert!(m.record_success(&id, e2.depth, &Vec::new()).is_ok());

    assert!(m.begin_fetch(&id, 1004).unwrap().is_none());
    let (status, stats) = m.get_status(&id).unwrap();
    assert_eq!(status, JobStatus::Completed);
    assert_eq!(stats.pages_fetched, 3);
    assert_eq!(stats.links_discovered, 5);
    assert_eq!(stats.errors, 0);
    assert_eq!(stats.finished_at, Some(1004));
}

#[test]
fn depth_zero_fetches_only_seeds() {
    // With max_depth 0, exactly the seeds are fetched (capped by
    // max_pages) and no discovered link is followed.
    let mut m = JobManager::new();
    let id = String::from("job");
    assert!(m
        .create_job(id.clone(), cfg(&["https://a.test/", "https://b.test/"], 10, 0, 2))
        .is_ok());
    assert!(m.start_job(&id, 0).is_ok());
    let mut fetched = 0;
    while let Some(entry) = m.begin_fetch(&id, 5).unwrap() {
        let links = vec![String::from("https://c.test/"), String::from("https://d.test/")];
        assert!(m.record_success(&id, entry.depth, &links).is_ok());
        fetched += 1;
    }
    assert_eq!(fetched, 2);
    let (status, stats) = m.get_status(&id).unwrap();
    assert_eq!(status, JobStatus::Completed);
    assert_eq!(stats.pages_fetched, 2);
    assert_eq!(stats.links_discovered, 4);
}

#[test]
fn cancel_right_after_create() {
    // A job cancelled immediately never reaches Completed.
    let mut m = JobManager::new();
    let id = String::from("job");
    assert!(m.create_job(id.clone(), cfg(&["https://a.test/"], 3, 1, 2)).is_ok());
    assert!(m.cancel(&id).is_ok());
    assert!(m.begin_fetch(&id, 7).unwrap().is_none());
    let (status, stats) = m.get_status(&id).unwrap();
    assert_eq!(status, JobStatus::Cancelled);
    assert_eq!(stats.pages_fetched, 0);
    assert_eq!(stats.finished_at, Some(7));
    // Terminal states absorb: a later cancel is a successful no-op and
    // nothing moves any more.
    assert!(m.cancel(&id).is_ok());
    assert!(m.begin_fetch(&id, 9).unwrap().is_none());
    let (status, _) = m.get_status(&id).unwrap();
    assert_eq!(status, JobStatus::Cancelled);
}

#[test]
fn cancel_stops_new_fetches() {
    // After cancellation is requested, no new fetch is handed out, even
    // with work still queued; the in-flight fetch may still be recorded.
    let mut m = JobManager::new();
    let id = String::from("job");
    assert!(m.create_job(id.clone(), cfg(&["https://a.test/"], 10, 2, 2)).is_ok());
    assert!(m.start_job(&id, 0).is_ok());
    let entry = m.begin_fetch(&id, 1).unwrap().expect("seed queued");
    assert!(m.cancel(&id).is_ok());
    let links = vec![String::from("https://b.test/")];
    assert!(m.record_success(&id, entry.depth, &links).is_ok());
    assert!(m.begin_fetch(&id, 2).unwrap().is_none());
    let (status, stats) = m.get_status(&id).unwrap();
    assert_eq!(status, JobStatus::Cancelled);
    assert_eq!(stats.pages_fetched, 1);
}

#[test]
fn http_error_counts_and_job_continues() {
    // A failed fetch increments errors and the job goes on; it never
    // turns the job Failed.
    let mut m = JobManager::new();
    let id = String::from("job");
    assert!(m
        .create_job(id.clone(), cfg(&["https://a.test/", "https://b.test/"], 5, 1, 2))
        .is_ok());
    assert!(m.start_job(&id, 0).is_ok());
    let e0 = m.begin_fetch(&id, 1).unwrap().expect("first seed");
    assert!(m.record_error(&id).is_ok());
    let (status, stats) = m.get_status(&id).unwrap();
    assert_eq!(status, JobStatus::Running);
    assert_eq!(stats.errors, 1);
    assert_eq!(stats.pages_fetched, 0);
    assert_eq!(e0.depth, 0);
    let e1 = m.begin_fetch(&id, 2).unwrap().expect("second seed");
    assert!(m.record_success(&id, e1.depth, &Vec::new()).is_ok());
    assert!(m.begin_fetch(&id, 3).unwrap().is_none());
    let (status, stats) = m.get_status(&id).unwrap();
    assert_eq!(status, JobStatus::Completed);
    assert_eq!(stats.errors, 1);
    assert_eq!(stats.pages_fetched, 1);
}

#[test]
fn duplicate_urls_admitted_once() {
    // Cyclic and repeated links: a URL enters the frontier at most once
    // for the life of a job, so nothing is fetched twice.
    let mut m = JobManager::new();
    let id = String::from("job");
    assert!(m.create_job(id.clone(), cfg(&["https://a.test/"], 10, 3, 2)).is_ok());
    assert!(m.start_job(&id, 0).is_ok());
    let mut seen: Vec<String> = Vec::new();
    while let Some(entry) = m.begin_fetch(&id, 1).unwrap() {
        assert!(!seen.contains(&entry.url), "refetched {}", entry.url);
        seen.push(entry.url.clone());
        // every page links back to the seed, to itself, and to b twice
        let links = vec![
            String::from("https://a.test/"),
            entry.url.clone(),
            String::from("https://b.test/"),
            String::from("https://b.test/"),
        ];
        assert!(m.record_success(&id, entry.depth, &links).is_ok());
    }
    assert_eq!(seen, vec![String::from("https://a.test/"), String::from("https://b.test/")]);
    let (status, stats) = m.get_status(&id).unwrap();
    assert_eq!(status, JobStatus::Completed);
    assert_eq!(stats.pages_fetched, 2);
}

#[test]
fn seeds_are_normalized_before_admission() {
    // Two spellings of one URL count as one frontier entry.
    let mut m = JobManager::new();
    let id = String::from("job");
    assert!(m
        .create_job(id.clone(), cfg(&["HTTPS://A.test", "https://a.test/"], 10, 0, 2))
        .is_ok());
    assert!(m.start_job(&id, 0).is_ok());
    let entry = m.begin_fetch(&id, 1).unwrap().expect("one seed");
    assert_eq!(entry.url, "https://a.test/");
    assert!(m.record_success(&id, entry.depth, &Vec::new()).is_ok());
    assert!(m.begin_fetch(&id, 2).unwrap().is_none());
    let (_, stats) = m.get_status(&id).unwrap();
    assert_eq!(stats.pages_fetched, 1);
}

#[test]
fn fail_job_is_terminal() {
    let mut m = JobManager::new();
    let id = String::from("job");
    assert!(m.create_job(id.clone(), cfg(&["https://a.test/"], 3, 1, 2)).is_ok());
    assert!(m.fail_job(&id, 11).is_ok());
    let (status, stats) = m.get_status(&id).unwrap();
    assert_eq!(status, JobStatus::Failed);
    assert_eq!(stats.finished_at, Some(11));
    assert!(m.begin_fetch(&id, 12).unwrap().is_none());
    let (status, _) = m.get_status(&id).unwrap();
    assert_eq!(status, JobStatus::Failed);
}

#[test]
fn status_names_match_wire_format() {
    assert_eq!(JobStatus::Pending.name(), "pending");
    assert_eq!(JobStatus::Running.name(), "running");
    assert_eq!(JobStatus::Completed.name(), "completed");
    assert_eq!(JobStatus::Failed.name(), "failed");
    assert_eq!(JobStatus::Cancelled.name(), "cancelled");
    assert!(!JobStatus::Pending.terminal());
    assert!(!JobStatus::Running.terminal());
    assert!(JobStatus::Completed.terminal());
    assert!(JobStatus::Failed.terminal());
    assert!(JobStatus::Cancelled.terminal());
}
