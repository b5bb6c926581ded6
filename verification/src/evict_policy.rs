//! The auto-eviction decision, kept pure.
//!
//! When local disk is under pressure the least recently acquired files are
//! turned back into placeholders until free space recovers. Nothing here
//! evicts: the plan only chooses, and every choice still has to pass the
//! refusals of the one that carries it out.

use crate::sort::{self, Ranked};
use crate::text;
use vstd::prelude::*;

verus! {

/// How much room is free, and how big the filesystem is.
pub trait FreeSpace {
    /// Bytes available to a non-root user.
    fn available(&self) -> Result<u64, String>;

    /// Total bytes, for resolving percentage watermarks.
    fn total(&self) -> Result<u64, String>;
}

/// What a filesystem says of itself: how many of its blocks a user who is not
/// root may still fill, how many there are, and how many bytes are in one.
#[derive(Debug, Clone, Copy, PartialEq, Eq, Structural)]
pub struct StatvfsSpace {
    pub free_blocks: u64,
    pub blocks: u64,
    pub block_size: u64,
}

impl StatvfsSpace {
    /// Whether its sizes can be told in bytes.
    pub open spec fn fits(self) -> bool {
        self.free_blocks * self.block_size <= u64::MAX && self.blocks * self.block_size <= u64::MAX
    }

    /// Bytes available to a non-root user.
    pub fn available(&self) -> (n: u64)
        requires
            self.fits(),
        ensures
            n == self.free_blocks * self.block_size,
    {
        self.free_blocks * self.block_size
    }

    /// Total bytes.
    pub fn total(&self) -> (n: u64)
        requires
            self.fits(),
        ensures
            n == self.blocks * self.block_size,
    {
        self.blocks * self.block_size
    }
}

/// Wall-clock seconds, comparable to a timestamp stored on disk.
pub trait Clock {
    fn now_secs(&self) -> u64;
}

/// The real wall clock.
pub struct RealClock;

/// `SystemTime::elapsed` of the Unix epoch: whole seconds since then, or
/// nothing when the clock stands before it. The value depends on the machine's
/// clock, so nothing is claimed of it.
#[verifier::external_body]
fn seconds_since_epoch() -> (r: Option<u64>) {
    match std::time::UNIX_EPOCH.elapsed() {
        Ok(d) => Some(d.as_secs()),
        Err(_) => None,
    }
}

impl Clock for RealClock {
    fn now_secs(&self) -> u64 {
        match seconds_since_epoch() {
            Some(s) => s,
            None => 0,
        }
    }
}

/// The policy: when to run, how far to go, and the two thrash guards.
#[derive(Debug, Clone, Copy, PartialEq, Eq, Structural)]
pub struct EvictionConfig {
    /// Run when free space falls below the smaller of this percentage of the
    /// total and this many bytes.
    pub low_pct: u32,
    pub low_abs: u64,
    /// Evict until free space would reach the smaller of these.
    pub high_pct: u32,
    pub high_abs: u64,
    /// Never evict a file acquired within this many seconds.
    pub grace_secs: u64,
    /// Never turn back more than this many bytes in one sweep.
    pub sweep_cap: u64,
    /// Minimum seconds between sweeps.
    pub min_interval_secs: u64,
}

pub const GIB: u64 = 1_073_741_824;

/// The smaller of a percentage of a total and a number of bytes.
pub open spec fn mark(total: u64, pct: u32, abs: u64) -> int {
    let share = total / 100 * pct;
    if share < abs {
        share
    } else {
        abs as int
    }
}

/// Whether the marks of a policy can be told for a filesystem of this size.
pub open spec fn marks_fit(cfg: EvictionConfig, total: u64) -> bool {
    total / 100 * cfg.low_pct <= u64::MAX && total / 100 * cfg.high_pct <= u64::MAX
}

impl EvictionConfig {
    /// The policy that is used when the user turns eviction on and says no
    /// more.
    pub fn default_pressure() -> (c: Self)
        ensures
            c == (EvictionConfig {
                low_pct: 10,
                low_abs: (10 * GIB) as u64,
                high_pct: 15,
                high_abs: (15 * GIB) as u64,
                grace_secs: 14400,
                sweep_cap: (8 * GIB) as u64,
                min_interval_secs: 300,
            }),
    {
        EvictionConfig {
            low_pct: 10,
            low_abs: 10 * GIB,
            high_pct: 15,
            high_abs: 15 * GIB,
            grace_secs: 4 * 60 * 60,
            sweep_cap: 8 * GIB,
            min_interval_secs: 5 * 60,
        }
    }

    /// The low and the high mark of free space on a filesystem of this size.
    pub fn marks(&self, total: u64) -> (r: (u64, u64))
        requires
            marks_fit(*self, total),
        ensures
            r.0 == mark(total, self.low_pct, self.low_abs),
            r.1 == mark(total, self.high_pct, self.high_abs),
    {
        let low_share: u64 = total / 100 * self.low_pct as u64;
        let high_share: u64 = total / 100 * self.high_pct as u64;
        (
            if low_share < self.low_abs {
                low_share
            } else {
                self.low_abs
            },
            if high_share < self.high_abs {
                high_share
            } else {
                self.high_abs
            },
        )
    }
}

/// One evictable resident file.
#[derive(Debug, PartialEq, Eq)]
pub struct Candidate {
    /// Relative to the sync root.
    pub rel: String,
    /// The disk space that comes back, as measured.
    pub reclaimable: u64,
    /// When it was last acquired, or else last written. Oldest go first.
    pub recency: u64,
}

/// A candidate, over texts.
#[verifier::ext_equal]
pub struct CandidateModel {
    pub rel: Seq<char>,
    pub reclaimable: u64,
    pub recency: u64,
}

impl View for Candidate {
    type V = CandidateModel;

    open spec fn view(&self) -> CandidateModel {
        CandidateModel { rel: self.rel@, reclaimable: self.reclaimable, recency: self.recency }
    }
}

impl Clone for Candidate {
    fn clone(&self) -> (r: Self)
        ensures
            r == *self,
    {
        Candidate {
            rel: self.rel.clone(),
            reclaimable: self.reclaimable,
            recency: self.recency,
        }
    }
}

impl Ranked for Candidate {
    type M = CandidateModel;

    open spec fn model(&self) -> CandidateModel {
        self@
    }

    /// Oldest first; among equally old ones, the larger first.
    open spec fn ahead(a: CandidateModel, b: CandidateModel) -> bool {
        a.recency < b.recency || (a.recency == b.recency && a.reclaimable > b.reclaimable)
    }

    proof fn ahead_transitive(a: CandidateModel, b: CandidateModel, c: CandidateModel) {
    }

    proof fn ahead_cotransitive(a: CandidateModel, b: CandidateModel, c: CandidateModel) {
    }

    proof fn ahead_irreflexive(a: CandidateModel) {
    }

    fn is_ahead(&self, other: &Candidate) -> (b: bool) {
        self.recency < other.recency || (self.recency == other.recency && self.reclaimable
            > other.reclaimable)
    }
}

/// A sum that stays at the largest number once it has reached it.
pub open spec fn capped_sum(a: u64, b: u64) -> u64 {
    if a + b > u64::MAX {
        u64::MAX
    } else {
        (a + b) as u64
    }
}

/// How long ago a file was acquired.
pub open spec fn age(c: CandidateModel, now: u64) -> int {
    if now > c.recency {
        now - c.recency
    } else {
        0
    }
}

/// Which of some candidates are chosen, looking at them in order, when `freed`
/// bytes have been chosen before and `any` says whether something has.
///
/// The choice ends where the high mark would be reached, and where one more
/// would exceed the cap, unless it is the first. Files that are too young are
/// passed over.
pub open spec fn picked(
    s: Seq<CandidateModel>,
    available: u64,
    high: u64,
    cfg: EvictionConfig,
    now: u64,
    freed: u64,
    any: bool,
) -> Seq<CandidateModel>
    decreases s.len(),
{
    if s.len() == 0 || capped_sum(available, freed) >= high {
        Seq::empty()
    } else {
        let c = s[0];
        let rest = s.drop_first();
        if age(c, now) < cfg.grace_secs {
            picked(rest, available, high, cfg, now, freed, any)
        } else if any && capped_sum(freed, c.reclaimable) > cfg.sweep_cap {
            Seq::empty()
        } else {
            seq![c] + picked(
                rest,
                available,
                high,
                cfg,
                now,
                capped_sum(freed, c.reclaimable),
                true,
            )
        }
    }
}

/// Which candidates a sweep chooses: none while there is no pressure, and
/// otherwise from the oldest on.
pub open spec fn chosen(
    s: Seq<CandidateModel>,
    available: u64,
    total: u64,
    cfg: EvictionConfig,
    now: u64,
) -> Seq<CandidateModel> {
    if available >= mark(total, cfg.low_pct, cfg.low_abs) {
        Seq::empty()
    } else {
        picked(
            sort::arranged::<Candidate>(s),
            available,
            mark(total, cfg.high_pct, cfg.high_abs) as u64,
            cfg,
            now,
            0,
            false,
        )
    }
}

/// The paths of some candidates.
pub open spec fn rels(s: Seq<CandidateModel>) -> Seq<Seq<char>> {
    s.map_values(|c: CandidateModel| c.rel)
}

/// Choose which candidates to evict, oldest acquired first, to lift free space
/// to the high mark, or nothing if there is no pressure.
pub fn plan(
    candidates: Vec<Candidate>,
    available: u64,
    total: u64,
    cfg: &EvictionConfig,
    now: u64,
) -> (out: Vec<String>)
    requires
        marks_fit(*cfg, total),
    ensures
        text::texts(out@) == rels(
            chosen(sort::models(candidates@), available, total, *cfg, now),
        ),
{
    let (low, high) = cfg.marks(total);
    let mut selected: Vec<String> = Vec::new();
    if available >= low {
        assert(text::texts(selected@) =~= rels(Seq::empty()));
        return selected;
    }
    let ordered = sort::arrange(candidates);
    let ghost all = sort::models(ordered@);
    let mut freed: u64 = 0;
    let mut i: usize = 0;
    let ghost want = rels(picked(all, available, high, *cfg, now, 0, false));
    proof {
        assert(all.skip(0) =~= all);
        assert(text::texts(selected@) + want =~= want);
    }
    while i < ordered.len()
        invariant_except_break
            i <= ordered@.len(),
            all == sort::models(ordered@),
            want == text::texts(selected@) + rels(
                picked(
                    all.skip(i as int),
                    available,
                    high,
                    *cfg,
                    now,
                    freed,
                    selected@.len() > 0,
                ),
            ),
        ensures
            want == text::texts(selected@),
        decreases ordered@.len() - i,
    {
        let c = &ordered[i];
        let ghost rest = all.skip(i as int);
        proof {
            assert(rest[0] == c@);
            assert(rest.drop_first() =~= all.skip(i + 1));
            assert(text::texts(selected@) + rels(Seq::empty()) =~= text::texts(selected@));
        }
        if available.saturating_add(freed) >= high {
            break;
        }
        if now.saturating_sub(c.recency) < cfg.grace_secs {
            i = i + 1;
            continue;
        }
        if selected.len() > 0 && freed.saturating_add(c.reclaimable) > cfg.sweep_cap {
            break;
        }
        let ghost had = text::texts(selected@);
        freed = freed.saturating_add(c.reclaimable);
        selected.push(c.rel.clone());
        proof {
            let more = picked(all.skip(i + 1), available, high, *cfg, now, freed, true);
            assert(text::texts(selected@) =~= had.push(c@.rel));
            assert(rels(seq![c@] + more) =~= seq![c@.rel] + rels(more));
            assert(had + (seq![c@.rel] + rels(more)) =~= had.push(c@.rel) + rels(more));
        }
        i = i + 1;
        if i >= ordered.len() {
            proof {
                assert(all.skip(i as int) =~= Seq::empty());
                assert(text::texts(selected@) + rels(Seq::empty()) =~= text::texts(selected@));
            }
        }
    }
    selected
}

/// The bytes that some candidates give back.
pub open spec fn freed_by(s: Seq<CandidateModel>) -> u64
    decreases s.len(),
{
    if s.len() == 0 {
        0
    } else {
        capped_sum(freed_by(s.drop_last()), s.last().reclaimable)
    }
}

/// Without pressure nothing is chosen: a sweep run again at its target does
/// nothing.
pub proof fn law_no_pressure_chooses_nothing(
    s: Seq<CandidateModel>,
    available: u64,
    total: u64,
    cfg: EvictionConfig,
    now: u64,
)
    requires
        available >= mark(total, cfg.low_pct, cfg.low_abs),
    ensures
        chosen(s, available, total, cfg, now).len() == 0,
{
}

/// What one more choice is worth, counted from what was freed before.
spec fn freed_from(start: u64, s: Seq<CandidateModel>) -> u64
    decreases s.len(),
{
    if s.len() == 0 {
        start
    } else {
        capped_sum(freed_from(start, s.drop_last()), s.last().reclaimable)
    }
}

proof fn lemma_freed_cons(start: u64, c: CandidateModel, s: Seq<CandidateModel>)
    ensures
        freed_from(start, seq![c] + s) == freed_from(capped_sum(start, c.reclaimable), s),
    decreases s.len(),
{
    let all = seq![c] + s;
    if s.len() == 0 {
        assert(all.drop_last() =~= Seq::empty());
        assert(all.last() == c);
        assert(freed_from(start, Seq::empty()) == start);
    } else {
        lemma_freed_cons(start, c, s.drop_last());
        assert(all.drop_last() =~= seq![c] + s.drop_last());
        assert(all.last() == s.last());
    }
}

proof fn lemma_freed_from(s: Seq<CandidateModel>)
    ensures
        freed_from(0, s) == freed_by(s),
    decreases s.len(),
{
    if s.len() > 0 {
        lemma_freed_from(s.drop_last());
    }
}

proof fn lemma_picked(
    s: Seq<CandidateModel>,
    available: u64,
    high: u64,
    cfg: EvictionConfig,
    now: u64,
    freed: u64,
    any: bool,
)
    ensures
        forall|i: int|
            0 <= i < picked(s, available, high, cfg, now, freed, any).len() ==> age(
                #[trigger] picked(s, available, high, cfg, now, freed, any)[i],
                now,
            ) >= cfg.grace_secs,
        forall|i: int|
            0 <= i < picked(s, available, high, cfg, now, freed, any).len() ==> s.contains(
                #[trigger] picked(s, available, high, cfg, now, freed, any)[i],
            ),
        forall|k: int|
            0 <= k < picked(s, available, high, cfg, now, freed, any).len() ==> capped_sum(
                available,
                freed_from(
                    freed,
                    #[trigger] picked(s, available, high, cfg, now, freed, any).take(k),
                ),
            ) < high,
        forall|k: int|
            0 < k <= picked(s, available, high, cfg, now, freed, any).len() && (any || k > 1)
                ==> freed_from(
                freed,
                #[trigger] picked(s, available, high, cfg, now, freed, any).take(k),
            ) <= cfg.sweep_cap,
        sort::in_order::<Candidate>(s) ==> sort::in_order::<Candidate>(
            picked(s, available, high, cfg, now, freed, any),
        ),
    decreases s.len(),
{
    let p = picked(s, available, high, cfg, now, freed, any);
    if s.len() == 0 || capped_sum(available, freed) >= high {
    } else {
        let c = s[0];
        let rest = s.drop_first();
        assert forall|x: CandidateModel| rest.contains(x) implies #[trigger] s.contains(x) by {
            let i = choose|i: int| 0 <= i < rest.len() && rest[i] == x;
            assert(s[i + 1] == x);
        }
        if sort::in_order::<Candidate>(s) {
            assert forall|i: int, j: int| 0 <= i < j < rest.len() implies !Candidate::ahead(
                #[trigger] rest[j],
                #[trigger] rest[i],
            ) by {
                assert(rest[i] == s[i + 1] && rest[j] == s[j + 1]);
            }
        }
        if age(c, now) < cfg.grace_secs {
            lemma_picked(rest, available, high, cfg, now, freed, any);
        } else if any && capped_sum(freed, c.reclaimable) > cfg.sweep_cap {
        } else {
            let next = capped_sum(freed, c.reclaimable);
            let q = picked(rest, available, high, cfg, now, next, true);
            lemma_picked(rest, available, high, cfg, now, next, true);
            assert(p == seq![c] + q);
            assert forall|i: int| 0 <= i < p.len() implies age(#[trigger] p[i], now)
                >= cfg.grace_secs && s.contains(p[i]) by {
                if i > 0 {
                    assert(p[i] == q[i - 1]);
                    assert(rest.contains(q[i - 1]));
                } else {
                    assert(s[0] == c);
                }
            }
            assert forall|k: int| 0 <= k < p.len() implies capped_sum(
                available,
                freed_from(freed, #[trigger] p.take(k)),
            ) < high by {
                if k > 0 {
                    assert(p.take(k) =~= seq![c] + q.take(k - 1));
                    lemma_freed_cons(freed, c, q.take(k - 1));
                } else {
                    assert(p.take(0) =~= Seq::empty());
                }
            }
            assert forall|k: int| 0 < k <= p.len() && (any || k > 1) implies freed_from(
                freed,
                #[trigger] p.take(k),
            ) <= cfg.sweep_cap by {
                assert(p.take(k) =~= seq![c] + q.take(k - 1));
                lemma_freed_cons(freed, c, q.take(k - 1));
                if k == 1 {
                    assert(q.take(0) =~= Seq::empty());
                    assert(freed_from(next, Seq::empty()) == next);
                }
            }
            if sort::in_order::<Candidate>(s) {
                assert forall|i: int, j: int| 0 <= i < j < p.len() implies !Candidate::ahead(
                    #[trigger] p[j],
                    #[trigger] p[i],
                ) by {
                    assert(p[j] == q[j - 1]);
                    if i > 0 {
                        assert(p[i] == q[i - 1]);
                    } else {
                        assert(rest.contains(q[j - 1]));
                        let m = choose|m: int| 0 <= m < rest.len() && rest[m] == q[j - 1];
                        assert(s[m + 1] == q[j - 1]);
                        assert(s[0] == c);
                    }
                }
            }
        }
    }
}

/// What a sweep never does: it chooses no file inside the grace window and
/// nothing that was not proposed, it chooses from the oldest on, it stops as
/// soon as the high mark would be reached, and it exceeds its cap by no more
/// than its first choice.
pub proof fn law_a_sweep_is_bounded(
    s: Seq<CandidateModel>,
    available: u64,
    total: u64,
    cfg: EvictionConfig,
    now: u64,
)
    requires
        marks_fit(cfg, total),
    ensures
        ({
            let p = chosen(s, available, total, cfg, now);
            &&& forall|i: int| 0 <= i < p.len() ==> age(#[trigger] p[i], now) >= cfg.grace_secs
            &&& forall|i: int| 0 <= i < p.len() ==> s.contains(#[trigger] p[i])
            &&& sort::in_order::<Candidate>(p)
            &&& forall|k: int|
                0 <= k < p.len() ==> capped_sum(available, freed_by(#[trigger] p.take(k))) < mark(
                    total,
                    cfg.high_pct,
                    cfg.high_abs,
                )
            &&& forall|k: int|
                1 < k <= p.len() ==> freed_by(#[trigger] p.take(k)) <= cfg.sweep_cap
        }),
{
    let p = chosen(s, available, total, cfg, now);
    let sorted = sort::arranged::<Candidate>(s);
    let high = mark(total, cfg.high_pct, cfg.high_abs) as u64;
    sort::lemma_arranged::<Candidate>(s);
    if available < mark(total, cfg.low_pct, cfg.low_abs) {
        lemma_picked(sorted, available, high, cfg, now, 0, false);
        assert forall|i: int| 0 <= i < p.len() implies s.contains(#[trigger] p[i]) by {
            sort::lemma_arranged_contains::<Candidate>(s, p[i]);
        }
        assert forall|k: int| 0 <= k < p.len() implies capped_sum(
            available,
            freed_by(#[trigger] p.take(k)),
        ) < high by {
            lemma_freed_from(p.take(k));
        }
        assert forall|k: int| 1 < k <= p.len() implies freed_by(#[trigger] p.take(k))
            <= cfg.sweep_cap by {
            lemma_freed_from(p.take(k));
        }
    }
}

/// The candidates that a sweep may choose, in the order in which it looks at
/// them: those that are old enough, from the oldest on.
pub open spec fn eligible(
    s: Seq<CandidateModel>,
    cfg: EvictionConfig,
    now: u64,
) -> Seq<CandidateModel> {
    sort::arranged::<Candidate>(s).filter(|c: CandidateModel| age(c, now) >= cfg.grace_secs)
}

proof fn lemma_longest(
    s: Seq<CandidateModel>,
    available: u64,
    high: u64,
    cfg: EvictionConfig,
    now: u64,
    freed: u64,
    any: bool,
)
    ensures
        ({
            let p = picked(s, available, high, cfg, now, freed, any);
            let e = s.filter(|c: CandidateModel| age(c, now) >= cfg.grace_secs);
            &&& p.len() <= e.len()
            &&& p == e.take(p.len() as int)
            &&& p.len() < e.len() ==> capped_sum(available, freed_from(freed, p)) >= high || ((any
                || p.len() > 0) && capped_sum(freed_from(freed, p), e[p.len() as int].reclaimable)
                > cfg.sweep_cap)
        }),
    decreases s.len(),
{
    let old = |c: CandidateModel| age(c, now) >= cfg.grace_secs;
    let p = picked(s, available, high, cfg, now, freed, any);
    let e = s.filter(old);
    assert(freed_from(freed, Seq::empty()) == freed);
    if s.len() == 0 {
        reveal(Seq::filter);
        assert(p =~= e.take(0));
    } else if capped_sum(available, freed) >= high {
        assert(p =~= e.take(0));
    } else {
        let c = s[0];
        let rest = s.drop_first();
        assert(s =~= seq![c] + rest);
        Seq::filter_distributes_over_add(seq![c], rest, old);
        assert(seq![c] =~= Seq::empty().push(c));
        Seq::<CandidateModel>::empty().lemma_filter_push(c, old);
        assert(Seq::<CandidateModel>::empty().filter(old) =~= Seq::empty()) by {
            reveal(Seq::filter);
        }
        let f = rest.filter(old);
        if age(c, now) < cfg.grace_secs {
            lemma_longest(rest, available, high, cfg, now, freed, any);
            assert(e =~= f);
        } else if any && capped_sum(freed, c.reclaimable) > cfg.sweep_cap {
            assert(e =~= seq![c] + f);
            assert(p =~= e.take(0));
        } else {
            let next = capped_sum(freed, c.reclaimable);
            let q = picked(rest, available, high, cfg, now, next, true);
            lemma_longest(rest, available, high, cfg, now, next, true);
            assert(e =~= seq![c] + f);
            assert(p =~= seq![c] + q);
            assert(p =~= e.take(p.len() as int));
            lemma_freed_cons(freed, c, q);
        }
    }
}

/// Under pressure a sweep chooses as many as its limits allow: its choice is the
/// beginning of the candidates that it may choose, and it ends only where none
/// is left, where the high mark is reached, or where one more would exceed the
/// cap.
pub proof fn law_a_sweep_goes_as_far_as_it_may(
    s: Seq<CandidateModel>,
    available: u64,
    total: u64,
    cfg: EvictionConfig,
    now: u64,
)
    requires
        marks_fit(cfg, total),
        available < mark(total, cfg.low_pct, cfg.low_abs),
    ensures
        ({
            let p = chosen(s, available, total, cfg, now);
            let e = eligible(s, cfg, now);
            &&& p.len() <= e.len()
            &&& p == e.take(p.len() as int)
            &&& p.len() < e.len() ==> capped_sum(available, freed_by(p)) >= mark(
                total,
                cfg.high_pct,
                cfg.high_abs,
            ) || (p.len() > 0 && capped_sum(freed_by(p), e[p.len() as int].reclaimable)
                > cfg.sweep_cap)
        }),
{
    let high = mark(total, cfg.high_pct, cfg.high_abs) as u64;
    lemma_longest(sort::arranged::<Candidate>(s), available, high, cfg, now, 0, false);
    lemma_freed_from(chosen(s, available, total, cfg, now));
}

/// A mark is the share of the whole that it asks for, in whole hundredths of it,
/// and never more than its fixed amount.
pub proof fn law_a_mark_is_a_share_up_to_an_amount(total: u64, more: u64, pct: u32, abs: u64)
    ensures
        mark(total, pct, abs) <= abs,
        100 * mark(total, pct, abs) <= total * pct,
        mark(total, pct, abs) < abs ==> 100 * (mark(total, pct, abs) + pct) > total * pct || pct
            == 0,
        total % 100 == 0 && total * pct <= 100 * abs ==> 100 * mark(total, pct, abs) == total * pct,
        mark((total - total % 100) as u64, pct, abs) == mark(total, pct, abs),
        total <= more ==> mark(total, pct, abs) <= mark(more, pct, abs),
{
    let share = total / 100 * pct;
    let whole = total / 100;
    assert(100 * share == (100 * whole) * pct) by (nonlinear_arith)
        requires
            share == whole * pct,
    ;
    assert((100 * whole) * pct <= total * pct) by (nonlinear_arith)
        requires
            100 * whole <= total,
            0 <= pct,
    ;
    assert(total * pct <= (100 * whole + 99) * pct) by (nonlinear_arith)
        requires
            total <= 100 * whole + 99,
            0 <= pct,
    ;
    assert((100 * whole + 99) * pct == 100 * share + 99 * pct) by (nonlinear_arith)
        requires
            share == whole * pct,
    ;
    if total <= more {
        assert(total / 100 <= more / 100);
        assert(share <= more / 100 * pct) by (nonlinear_arith)
            requires
                share == whole * pct,
                whole <= more / 100,
                0 <= pct,
        ;
    }
    if total % 100 == 0 {
        assert(total == 100 * whole);
    }
}

/// How long ago a file was used, and nothing where that is not past yet.
pub proof fn law_age_counts_from_the_last_use(c: CandidateModel, now: u64)
    ensures
        c.recency <= now ==> c.recency + age(c, now) == now,
        c.recency > now ==> age(c, now) == 0,
{
}

/// What was used longest ago goes first, and of two used at one time the one that
/// frees more.
pub proof fn law_the_oldest_goes_first(a: CandidateModel, b: CandidateModel)
    ensures
        a.recency < b.recency ==> Candidate::ahead(a, b) && !Candidate::ahead(b, a),
        a.recency == b.recency && a.reclaimable > b.reclaimable ==> Candidate::ahead(a, b)
            && !Candidate::ahead(b, a),
        a.recency == b.recency && a.reclaimable == b.reclaimable ==> !Candidate::ahead(a, b)
            && !Candidate::ahead(b, a),
{
}

/// What several files free together is the sum of what each frees, up to the
/// largest amount that can be told.
pub proof fn law_what_is_freed_adds_up(s: Seq<CandidateModel>, c: CandidateModel)
    ensures
        freed_by(Seq::empty()) == 0,
        freed_by(s) + c.reclaimable <= u64::MAX ==> freed_by(s.push(c)) == freed_by(s)
            + c.reclaimable,
        freed_by(s) + c.reclaimable > u64::MAX ==> freed_by(s.push(c)) == u64::MAX,
{
    assert(s.push(c).drop_last() =~= s);
}

/// A sweep under pressure that has something old enough to go takes at least the
/// first of it, however much that frees.
pub proof fn law_a_sweep_under_pressure_takes_something(
    s: Seq<CandidateModel>,
    available: u64,
    total: u64,
    cfg: EvictionConfig,
    now: u64,
)
    requires
        marks_fit(cfg, total),
        available < mark(total, cfg.low_pct, cfg.low_abs),
        available < mark(total, cfg.high_pct, cfg.high_abs),
        exists|c: CandidateModel| #[trigger]
            s.contains(c) && c.recency + cfg.grace_secs <= now,
    ensures
        chosen(s, available, total, cfg, now).len() > 0,
{
    law_a_sweep_goes_as_far_as_it_may(s, available, total, cfg, now);
    let e = eligible(s, cfg, now);
    let sorted = sort::arranged::<Candidate>(s);
    let old = |c: CandidateModel| age(c, now) >= cfg.grace_secs;
    let c = choose|c: CandidateModel| #[trigger]
        s.contains(c) && c.recency + cfg.grace_secs <= now;
    sort::lemma_arranged_contains::<Candidate>(s, c);
    let k = choose|k: int| 0 <= k < sorted.len() && sorted[k] == c;
    assert(old(sorted[k]));
    assert(e.contains(sorted[k])) by {
        broadcast use vstd::seq_lib::group_filter_ensures;
    }
    let p = chosen(s, available, total, cfg, now);
    if p.len() == 0 {
        assert(p =~= Seq::empty());
        assert(freed_by(p) == 0);
    }
}

/// A sweep takes the files in one order and stops: whatever it takes, each file
/// that is old enough and would go before it is taken too.
pub proof fn law_a_sweep_skips_nothing_old_enough(
    s: Seq<CandidateModel>,
    available: u64,
    total: u64,
    cfg: EvictionConfig,
    now: u64,
    taken: CandidateModel,
    c: CandidateModel,
)
    requires
        marks_fit(cfg, total),
        available < mark(total, cfg.low_pct, cfg.low_abs),
        chosen(s, available, total, cfg, now).contains(taken),
        s.contains(c),
        age(c, now) >= cfg.grace_secs,
        c.recency < taken.recency || (c.recency == taken.recency && c.reclaimable
            > taken.reclaimable),
    ensures
        chosen(s, available, total, cfg, now).contains(c),
{
    law_a_sweep_goes_as_far_as_it_may(s, available, total, cfg, now);
    let p = chosen(s, available, total, cfg, now);
    let e = eligible(s, cfg, now);
    let sorted = sort::arranged::<Candidate>(s);
    let old = |c: CandidateModel| age(c, now) >= cfg.grace_secs;
    sort::lemma_arranged_contains::<Candidate>(s, c);
    let k = choose|k: int| 0 <= k < sorted.len() && sorted[k] == c;
    assert(old(sorted[k]));
    assert(e.contains(sorted[k])) by {
        broadcast use vstd::seq_lib::group_filter_ensures;
    }
    let i = choose|i: int| 0 <= i < p.len() && p[i] == taken;
    assert(e[i] == taken);
    let j = choose|j: int| 0 <= j < e.len() && e[j] == c;
    sort::lemma_arranged_filter::<Candidate>(s, old);
    sort::lemma_arranged::<Candidate>(s.filter(old));
    assert(sort::in_order::<Candidate>(e));
    if j > i {
        assert(!Candidate::ahead(e[j], e[i]));
    }
    assert(p[j] == c);
}

} // verus!
