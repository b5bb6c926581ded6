use hydration_client::evict_policy::{
    plan, Candidate, Clock, EvictionConfig, FreeSpace, RealClock, StatvfsSpace,
};

/// A free-space source that can be set, so that a test drives the trigger
/// without a disk.
struct FakeDisk {
    available: u64,
    total: u64,
}

impl FakeDisk {
    fn new(available: u64, total: u64) -> Self {
        FakeDisk { available, total }
    }
}

impl FreeSpace for FakeDisk {
    fn available(&self) -> Result<u64, String> {
        Ok(self.available)
    }
    fn total(&self) -> Result<u64, String> {
        Ok(self.total)
    }
}

fn cfg() -> EvictionConfig {
    // Absolute marks below any percentage, so the total does not matter for
    // most tests: low = 100, high = 300, grace 10, cap 1000.
    EvictionConfig {
        low_pct: 100,
        low_abs: 100,
        high_pct: 100,
        high_abs: 300,
        grace_secs: 10,
        sweep_cap: 1000,
        min_interval_secs: 0,
    }
}

fn cand(rel: &str, reclaimable: u64, recency: u64) -> Candidate {
    Candidate {
        rel: rel.to_string(),
        reclaimable,
        recency,
    }
}

#[test]
fn plan_driven_by_a_freespace_source() {
    let disk = FakeDisk::new(40, 10_000);
    let cs = vec![cand("old", 100, 1), cand("new", 100, 500)];
    let got = plan(
        cs,
        disk.available().unwrap(),
        disk.total().unwrap(),
        &cfg(),
        1000,
    );
    // 40 free, low 100 -> under pressure; high 300 needs +260, two 100s only
    // reach 240, so both are taken and the sweep is still short.
    assert_eq!(got, vec!["old", "new"]);
}

#[test]
fn no_pressure_selects_nothing() {
    // available == low: not below it, so nothing runs.
    let cs = vec![cand("a", 50, 1), cand("b", 50, 2)];
    assert!(plan(cs.clone(), 100, 10_000, &cfg(), 1000).is_empty());
    // And comfortably above.
    assert!(plan(cs, 500, 10_000, &cfg(), 1000).is_empty());
}

#[test]
fn plan_orders_oldest_first() {
    let cs = vec![
        cand("new", 100, 500),
        cand("old", 100, 100),
        cand("mid", 100, 300),
    ];
    let got = plan(cs, 40, 10_000, &cfg(), 1000);
    assert_eq!(got, vec!["old", "mid", "new"]);
}

#[test]
fn plan_stops_at_the_high_mark_and_not_before() {
    // available 40, high 300 -> need to free +260. Three 100s oldest first:
    // after two (240 < 300) take a third (340 >= 300); never a fourth.
    let cs = vec![
        cand("a", 100, 1),
        cand("b", 100, 2),
        cand("c", 100, 3),
        cand("d", 100, 4),
    ];
    let got = plan(cs, 40, 10_000, &cfg(), 1000);
    assert_eq!(
        got,
        vec!["a", "b", "c"],
        "took more than needed to reach high"
    );
}

#[test]
fn plan_never_selects_within_the_grace_window() {
    // now=1000, grace=10: recency > 990 is protected.
    let cs = vec![
        cand("fresh1", 100, 995),
        cand("fresh2", 100, 999),
        cand("cold", 100, 500),
    ];
    let got = plan(cs, 40, 10_000, &cfg(), 1000);
    assert_eq!(got, vec!["cold"], "evicted a file inside the grace window");
}

#[test]
fn size_breaks_ties_larger_first() {
    let cs = vec![cand("small", 50, 100), cand("big", 200, 100)];
    let got = plan(cs, 40, 10_000, &cfg(), 1000);
    assert_eq!(got.first().map(String::as_str), Some("big"));
}

#[test]
fn the_sweep_cap_bounds_a_batch_but_lets_the_first_through() {
    // cap 1000; a single 5000-byte file exceeds it but is the first, so it is
    // taken. A second would exceed the cap and is refused.
    let big = EvictionConfig {
        sweep_cap: 1000,
        high_abs: 1_000_000,
        high_pct: 100,
        ..cfg()
    };
    let cs = vec![cand("huge", 5000, 1), cand("next", 5000, 2)];
    let got = plan(cs, 0, 10_000, &big, 1000);
    assert_eq!(
        got,
        vec!["huge"],
        "the cap must not stop the first, nor allow the second"
    );
}

#[test]
fn marks_take_the_smaller_of_fraction_and_absolute() {
    let c = EvictionConfig::default_pressure();
    const GIB: u64 = 1024 * 1024 * 1024;
    // 4 TB pool: 10% = 400 GiB, capped to 10 GiB.
    let (low, high) = c.marks(4096 * GIB);
    assert_eq!((low, high), (10 * GIB, 15 * GIB));
    // 64 GiB disk: 10% = 6.4 GiB, below the 10 GiB cap, so the fraction wins.
    let (low, _) = c.marks(64 * GIB);
    assert_eq!(low, 64 * GIB / 100 * 10);
}

#[test]
fn the_real_clock_is_wall_time_not_monotonic_from_zero() {
    assert!(
        RealClock.now_secs() > 1_700_000_000,
        "not a wall-clock second"
    );
}

#[test]
fn free_space_is_counted_in_bytes() {
    let space = StatvfsSpace {
        free_blocks: 3,
        blocks: 100,
        block_size: 4096,
    };
    assert_eq!(space.available(), 12_288);
    assert_eq!(space.total(), 409_600);
}

#[test]
fn a_sweep_goes_as_far_as_its_limits_allow() {
    let now = 1_000;
    let all = || {
        vec![
            cand("c", 80, 30),
            cand("young", 500, 995),
            cand("a", 80, 10),
            cand("d", 80, 40),
            cand("b", 80, 20),
        ]
    };
    // The high mark of 300 is reached from 50 with four files of 80.
    assert_eq!(plan(all(), 50, 1_000, &cfg(), now), ["a", "b", "c", "d"]);
    // From 99 it is reached with three, and the fourth stays.
    assert_eq!(plan(all(), 99, 1_000, &cfg(), now), ["a", "b", "c"]);
    // A cap of 170 has room for two.
    let capped = EvictionConfig {
        sweep_cap: 170,
        ..cfg()
    };
    assert_eq!(plan(all(), 0, 1_000, &capped, now), ["a", "b"]);
}
