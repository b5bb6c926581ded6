use hydration_client::table::FileId;
use hydration_client::upload::{
    Clock, Known, Outcome, ProviderSink, Queue, Sink, TestClock, Uploaded, QUIET_PERIOD, RETRY_CEILING,
};
use hydration_client::upload_job::{Found, Job, Reply, Want};

const A: FileId = FileId { fsid: 1, ino: 1 };
const B: FileId = FileId { fsid: 1, ino: 2 };
const SECOND: u128 = 1_000_000_000;

fn queue() -> Queue<TestClock> {
    Queue::new(10 * SECOND, TestClock::default())
}

#[test]
fn a_file_is_sent_once_it_has_been_quiet() {
    let mut q = queue();
    q.touch_at(A, 0);
    assert!(q.due_at(10 * SECOND - 1).is_empty());
    assert_eq!(q.due_at(10 * SECOND), [A]);
    // Rewriting pushes the deadline out rather than queueing a second upload.
    q.touch_at(A, 5 * SECOND);
    assert!(q.due_at(10 * SECOND).is_empty());
    assert_eq!(q.due_at(15 * SECOND), [A]);
    assert_eq!(q.pending(), 1);
    assert_eq!(QUIET_PERIOD, 10 * SECOND);
}

#[test]
fn what_is_being_sent_still_counts_as_pending() {
    let mut q = queue();
    q.touch_at(A, 0);
    q.touch_at(B, 0);
    q.begin(A);
    assert_eq!(q.pending(), 2);
    assert_eq!(q.waiting(), 1);
    assert!(!q.is_waiting(&A));
    assert!(q.sending_set().contains(&A));
    assert!(q.waiting_set().contains(&B));
    q.finish(A);
    q.sent(A);
    assert_eq!(q.pending(), 1);
}

#[test]
fn a_failing_upload_waits_twice_as_long_each_time() {
    let mut q = queue();
    for (n, wait) in [(1u32, 20u128), (2, 40), (3, 80), (4, 160), (5, 320), (6, 640)] {
        q.failed_at(A, 0);
        assert!(
            q.due_at(wait * SECOND - 1).is_empty(),
            "after {n} failures it came back early"
        );
        assert_eq!(q.due_at(wait * SECOND), [A]);
    }
    q.failed_at(A, 0);
    assert_eq!(q.due_at(RETRY_CEILING), [A], "the wait has a ceiling");
    // A new edit forgets what the old bytes could not do.
    q.touch_at(A, 0);
    assert_eq!(q.due_at(10 * SECOND), [A]);
    q.failed_at(A, 0);
    assert_eq!(q.due_at(20 * SECOND), [A]);
}

#[test]
fn flushing_and_cancelling() {
    let mut q = queue();
    q.touch_at(A, 0);
    q.touch_at(B, 0);
    q.flush_at(3);
    assert_eq!(q.due_at(3), [A, B]);
    assert!(q.cancel(&A));
    assert!(!q.cancel(&A));
    assert_eq!(q.due_at(3), [B]);
}

#[test]
fn clones_of_a_clock_share_one_time() {
    let clock = TestClock::default();
    let other = clock.clone();
    assert_eq!(other.now(), 0);
    clock.advance(7 * SECOND + 999_999);
    assert_eq!(clock.now(), 7 * SECOND, "only whole milliseconds count");
    assert_eq!(other.now(), 7 * SECOND);
    other.advance(SECOND);
    assert_eq!(clock.now(), 8 * SECOND);
    assert_eq!(TestClock::default().now(), 0, "another clock is another time");
}

#[test]
fn a_queue_goes_by_its_own_clock() {
    let clock = TestClock::default();
    let mut q = Queue::new(10 * SECOND, clock.clone());
    clock.advance(7 * SECOND);
    assert_eq!(q.now(), 7 * SECOND);
    q.touch(A);
    clock.advance(10 * SECOND - 1_000_000);
    assert!(q.due().is_empty(), "it was not quiet for long enough");
    clock.advance(1_000_000);
    assert_eq!(q.due(), [A]);
    q.touch(A);
    assert!(q.due().is_empty(), "an edit starts the period again");
    q.flush_now();
    assert_eq!(q.due(), [A]);
}

#[test]
fn three_failures_wait_eight_quiet_periods() {
    let clock = TestClock::default();
    let mut q = Queue::new(10 * SECOND, clock.clone());
    q.failed(A);
    q.failed(A);
    q.failed(A);
    assert_eq!(q.pending(), 1);
    clock.advance(79_999 * 1_000_000);
    assert!(q.due().is_empty());
    clock.advance(1_000_000);
    assert_eq!(q.due(), [A]);
}

struct Plain {
    removed: Vec<String>,
}

impl Sink for Plain {
    fn upload(&mut self, path: &str, _existing: Option<Known<'_>>) -> Result<Uploaded, String> {
        Ok(Uploaded {
            cloud_id: path.to_string(),
            etag: None,
        })
    }
    fn remove(&mut self, cloud_id: &str) -> Result<(), String> {
        self.removed.push(cloud_id.to_string());
        Ok(())
    }
}

#[test]
fn what_a_provider_cannot_do_is_refused() {
    let mut s = ProviderSink(Plain {
        removed: Vec::new(),
    });
    let known = Known {
        cloud_id: "x",
        tag: None,
    };
    assert_eq!(
        s.move_item("a", "b", known),
        Err("this cloud provider cannot move or rename objects".to_string())
    );
    assert_eq!(
        s.create_folder("a"),
        Err("this cloud provider cannot create folders".to_string())
    );
    assert_eq!(
        s.remove_folder(known),
        Err("this cloud provider cannot safely remove folders".to_string())
    );
    assert_eq!(s.remove_known(known), Ok(()));
    assert_eq!(s.0.removed, ["x"]);
    assert_eq!(s.upload("p", None).unwrap().cloud_id, "p");
}

fn found(path: &str) -> Reply {
    Reply::Found(Some(Found {
        path: path.into(),
        cloud_id: None,
        etag: None,
    }))
}

fn uploaded(id: &str) -> Reply {
    Reply::Uploaded(Uploaded {
        cloud_id: id.into(),
        etag: Some("e".into()),
    })
}

fn run(replies: Vec<Reply>) -> (Vec<Want>, Outcome) {
    let mut j = Job::begin();
    let mut wants = vec![j.want()];
    for r in replies {
        wants.push(j.reply(r));
    }
    (wants, j.outcome())
}

#[test]
fn a_file_that_stays_put_is_sent_recorded_and_stamped() {
    let (wants, out) = run(vec![
        found("/s/a"),
        uploaded("id-1"),
        found("/s/a"),
        found("/s/a"),
        Reply::Done,
        Reply::Done,
    ]);
    assert_eq!(
        wants,
        [
            Want::Find,
            Want::Send,
            Want::FindAgain,
            Want::FindLast,
            Want::Adopt,
            Want::Stamp,
            Want::Over
        ]
    );
    assert_eq!(
        out,
        Outcome::Sent {
            cloud_id: "id-1".into()
        }
    );
}

#[test]
fn a_file_that_was_deleted_while_it_was_sent_is_removed_again() {
    let (wants, out) = run(vec![
        found("/s/a"),
        uploaded("id-1"),
        Reply::Found(None),
        Reply::Done,
        Reply::Found(None),
        Reply::Found(None),
        Reply::Done,
    ]);
    assert_eq!(wants[6], Want::RemoveLost);
    assert_eq!(out, Outcome::DeletedInstead);
}

#[test]
fn a_file_that_was_renamed_while_it_was_sent_is_sent_again() {
    let (wants, out) = run(vec![
        found("/s/a.tmp"),
        uploaded("id-1"),
        Reply::Found(None),
        Reply::Done,
        found("/s/a"),
        uploaded("id-2"),
        Reply::Done,
        Reply::Done,
        Reply::Done,
    ]);
    assert_eq!(wants[5], Want::Resend);
    assert_eq!(wants[6], Want::RemoveStale);
    assert_eq!(
        out,
        Outcome::Sent {
            cloud_id: "id-2".into()
        }
    );
}

#[test]
fn what_fails_on_the_way_is_said() {
    let (_, out) = run(vec![Reply::Found(None)]);
    assert_eq!(out, Outcome::NothingToDo);
    let (_, out) = run(vec![found("/s/a"), Reply::Failed("offline".into())]);
    assert_eq!(out, Outcome::Failed("offline".into()));
    let (_, out) = run(vec![
        found("/s/a"),
        uploaded("id-1"),
        found("/s/a"),
        found("/s/a"),
        Reply::Failed("EACCES".into()),
    ]);
    assert_eq!(
        out,
        Outcome::Failed("could not record the cloud id: EACCES".into())
    );
}

#[test]
fn an_edit_is_sent_against_the_version_it_is_based_on() {
    let mut j = Job::begin();
    j.reply(Reply::Found(Some(Found {
        path: "/s/a".into(),
        cloud_id: Some("id-1".into()),
        etag: Some("e1".into()),
    })));
    assert_eq!(j.path(), "/s/a");
    assert_eq!(j.known(), Some(("id-1".into(), Some("e1".into()))));
    assert_eq!(j.object(), None);
}
