use hydration_client::table::{FileId, Table};
use hydration_client::watch::{watch_state, WatchState, Watchers, MAX_WATCHERS};

fn state(unsent: u64, excluded: u64, exposures: u64) -> WatchState {
    WatchState {
        unsent,
        excluded,
        exposures,
        downloading: 0,
        scanning: false,
        uploading: Vec::new(),
    }
}

#[test]
fn an_unchanged_state_emits_no_line() {
    let mut watchers = Watchers::new();
    assert_eq!(
        state(3, 1, 0).line(),
        "unsent=3 excluded=1 exposures=0 downloading=0 scanning=0 uploading="
    );
    watchers.adopt(state(3, 1, 0));
    let there = vec![false];
    for _ in 0..2 {
        assert_eq!(
            watchers.broadcast(&there, &state(3, 1, 0)),
            [false],
            "an identical state was re-broadcast"
        );
        watchers.told(&there, &state(3, 1, 0));
    }
    // And the moment one number moves, exactly one line, keys in order.
    assert_eq!(watchers.broadcast(&there, &state(2, 1, 0)), [true]);
    assert_eq!(
        state(2, 1, 0).line(),
        "unsent=2 excluded=1 exposures=0 downloading=0 scanning=0 uploading="
    );
    watchers.told(&there, &state(2, 1, 0));
    assert_eq!(watchers.broadcast(&there, &state(2, 1, 0)), [false]);
}

#[test]
fn a_departed_watcher_is_culled_without_a_state_change() {
    let mut watchers = Watchers::new();
    watchers.adopt(state(0, 0, 0));
    assert_eq!(watchers.live(), 1);
    let departed = vec![true];
    assert_eq!(watchers.broadcast(&departed, &state(0, 0, 0)), [false]);
    watchers.told(&departed, &state(0, 0, 0));
    assert_eq!(watchers.live(), 0);
}

#[test]
fn a_watcher_beyond_the_cap_is_refused_with_eof() {
    let mut watchers = Watchers::new();
    for i in 0..MAX_WATCHERS {
        assert!(watchers.has_room(&vec![false; i]));
        watchers.adopt(state(0, 0, 0));
    }
    assert_eq!(watchers.live(), MAX_WATCHERS);
    assert!(
        !watchers.has_room(&vec![false; MAX_WATCHERS]),
        "the cap must hold"
    );
    assert_eq!(watchers.live(), MAX_WATCHERS);
    // One that is gone makes room for another.
    let mut gone = vec![false; MAX_WATCHERS];
    gone[5] = true;
    assert!(watchers.has_room(&gone));
    assert_eq!(watchers.live(), MAX_WATCHERS - 1);
}

#[test]
fn uploads_stand_at_the_end_of_the_line_in_order() {
    let mut active: Table<FileId, String> = Table::new();
    active.insert(FileId { fsid: 1, ino: 2 }, "b c.txt".into());
    active.insert(FileId { fsid: 1, ino: 1 }, "x=y".into());
    active.insert(FileId { fsid: 2, ino: 1 }, "a.txt".into());
    let s = watch_state(1, 2, 3, 4, true, &active);
    assert_eq!(
        s.line(),
        "unsent=1 excluded=2 exposures=3 downloading=4 scanning=1 uploading=a.txt b\\sc.txt x\\ey"
    );
}
