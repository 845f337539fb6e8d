use vstd::prelude::*;

use crate::ble::{NotificationRecord, RecordView, records_view, spec_record_height};
use crate::response::{DetailView, ParsedView};

verus! {

// ---------------------------------------------------------------------------
// Moving to a target height
// ---------------------------------------------------------------------------

/// Heights within this many units of the target count as reached.
pub const SET_HEIGHT_TOLERANCE: i64 = 10;

/// Below this distance (or after an overshoot) the move uses fine steps:
/// the coarse rate of 6.4 units per tick rounded up, plus the tolerance.
pub const SET_HEIGHT_FINE_THRESHOLD: i64 = 17;

/// After this many overshoot corrections the move stops.
pub const SET_HEIGHT_MAX_CORRECTIONS: u32 = 4;

/// Settle time after fine steps, in milliseconds.
pub const SET_HEIGHT_FINE_SETTLE_MS: u64 = 2_500;

/// Settle time after coarse bursts, in milliseconds.
pub const SET_HEIGHT_BURST_SETTLE_MS: u64 = 2_500;

/// The absolute value.
pub open spec fn abs(x: int) -> int {
    if x < 0 {
        -x
    } else {
        x
    }
}

/// The sign: -1, 0 or 1.
pub open spec fn signum(x: int) -> int {
    if x < 0 {
        -1
    } else if x > 0 {
        1
    } else {
        0
    }
}

/// One step of a move: which way, in how fine a mode, how many ticks, and how
/// long to let the desk settle afterwards.
#[derive(Debug, Clone, Copy, PartialEq, Eq)]
pub struct HeightStep {
    pub up: bool,
    pub fine_mode: bool,
    pub ticks: u32,
    pub settle_ms: u64,
}

/// The number of ticks for a step: one after an overshoot; in fine mode, three
/// units per tick over the distance beyond the tolerance (at least one unit),
/// rounded up; otherwise 6.4 units per tick, rounded to nearest with halves
/// up, and at least one. Counts beyond `u32::MAX` are cut to it.
pub open spec fn spec_step_ticks(remaining: int, fine_mode: bool, corrections: u32) -> int {
    let t = if corrections > 0 {
        1
    } else if fine_mode {
        let m = if remaining - SET_HEIGHT_TOLERANCE < 1 {
            1
        } else {
            remaining - SET_HEIGHT_TOLERANCE
        };
        (m + 2) / 3
    } else {
        let r = (5 * remaining + 16) / 32;
        if r < 1 {
            1
        } else {
            r
        }
    };
    if t > u32::MAX {
        u32::MAX as int
    } else {
        t
    }
}

/// The step toward `target` from `current`, or none when within the tolerance.
pub open spec fn spec_plan_step(target: i64, current: i64, corrections: u32) -> Option<HeightStep> {
    let delta = target - current;
    let remaining = abs(delta);
    if remaining <= SET_HEIGHT_TOLERANCE {
        None
    } else {
        let fine_mode = remaining <= SET_HEIGHT_FINE_THRESHOLD || corrections > 0;
        Some(
            HeightStep {
                up: delta > 0,
                fine_mode,
                ticks: spec_step_ticks(remaining, fine_mode, corrections) as u32,
                settle_ms: if fine_mode {
                    SET_HEIGHT_FINE_SETTLE_MS
                } else {
                    SET_HEIGHT_BURST_SETTLE_MS
                },
            },
        )
    }
}

/// Plans the next step of a move toward `target`.
pub fn plan_height_step(target: i64, current: i64, corrections: u32) -> (s: Option<HeightStep>)
    requires
        i64::MIN < target - current <= i64::MAX,
    ensures
        s == spec_plan_step(target, current, corrections),
{
    let delta = target - current;
    let remaining = if delta < 0 {
        -delta
    } else {
        delta
    };
    if remaining <= SET_HEIGHT_TOLERANCE {
        return None;
    }
    let fine_mode = remaining <= SET_HEIGHT_FINE_THRESHOLD || corrections > 0;
    let ticks: u64 = if corrections > 0 {
        1
    } else if fine_mode {
        let m: i64 = if remaining - SET_HEIGHT_TOLERANCE < 1 {
            1
        } else {
            remaining - SET_HEIGHT_TOLERANCE
        };
        ((m + 2) / 3) as u64
    } else {
        let r: i128 = (5 * (remaining as i128) + 16) / 32;
        if r < 1 {
            1
        } else if r > 0xffff_ffff {
            0xffff_ffff
        } else {
            r as u64
        }
    };
    let ticks: u32 = if ticks > 0xffff_ffff {
        0xffff_ffff
    } else {
        ticks as u32
    };
    let settle_ms = if fine_mode {
        SET_HEIGHT_FINE_SETTLE_MS
    } else {
        SET_HEIGHT_BURST_SETTLE_MS
    };
    Some(HeightStep { up: delta > 0, fine_mode, ticks, settle_ms })
}

/// Whether a step went past the target by more than the tolerance.
pub open spec fn spec_overshot(target: i64, previous: i64, current: i64) -> bool {
    signum(target - current) != signum(target - previous) && abs(target - current)
        > SET_HEIGHT_TOLERANCE
}

/// What follows a step: keep going, or stop after too many overshoots.
#[derive(Debug, Clone, Copy, PartialEq, Eq)]
pub enum StepOutcome {
    Continue { corrections: u32 },
    TooManyCorrections { corrections: u32 },
}

/// Counts an overshoot, if the step made one; four overshoots stop the move.
pub open spec fn spec_after_step(target: i64, previous: i64, current: i64, corrections: u32) -> StepOutcome {
    let c = if spec_overshot(target, previous, current) {
        corrections + 1
    } else {
        corrections as int
    };
    if c >= SET_HEIGHT_MAX_CORRECTIONS {
        StepOutcome::TooManyCorrections { corrections: c as u32 }
    } else {
        StepOutcome::Continue { corrections: c as u32 }
    }
}

/// Records the outcome of a step from `previous` to `current`.
pub fn after_height_step(target: i64, previous: i64, current: i64, corrections: u32) -> (o: StepOutcome)
    requires
        i64::MIN < target - current <= i64::MAX,
        i64::MIN < target - previous <= i64::MAX,
        corrections < SET_HEIGHT_MAX_CORRECTIONS,
    ensures
        o == spec_after_step(target, previous, current, corrections),
{
    let now = target - current;
    let before = target - previous;
    let sign_now: i64 = if now < 0 {
        -1
    } else if now > 0 {
        1
    } else {
        0
    };
    let sign_before: i64 = if before < 0 {
        -1
    } else if before > 0 {
        1
    } else {
        0
    };
    let distance = if now < 0 {
        -now
    } else {
        now
    };
    let overshot = sign_now != sign_before && distance > SET_HEIGHT_TOLERANCE;
    let c = if overshot {
        corrections + 1
    } else {
        corrections
    };
    if c >= SET_HEIGHT_MAX_CORRECTIONS {
        StepOutcome::TooManyCorrections { corrections: c }
    } else {
        StepOutcome::Continue { corrections: c }
    }
}

/// The target of a relative move, when it is a positive height.
pub fn relative_target(current: i64, delta: i64) -> (t: Option<i64>)
    requires
        i64::MIN <= current + delta <= i64::MAX,
    ensures
        t == (if current + delta > 0 {
            Some((current + delta) as i64)
        } else {
            None::<i64>
        }),
{
    let target = current + delta;
    if target <= 0 {
        None
    } else {
        Some(target)
    }
}

/// A planned step always heads for the target, has at least one tick, and
/// is planned exactly when the height is outside the tolerance.
pub proof fn lemma_step_heads_for_target(target: i64, current: i64, corrections: u32)
    ensures
        spec_plan_step(target, current, corrections) is None <==> abs(target - current)
            <= SET_HEIGHT_TOLERANCE,
        spec_plan_step(target, current, corrections) matches Some(step) ==> step.up == (target
            > current) && step.ticks >= 1,
{
}

proof fn lemma_same_sign(a: int, b: int)
    requires
        a * b > 0,
    ensures
        signum(a) == signum(b),
{
    if a > 0 && b < 0 {
        assert(a * b < 0) by (nonlinear_arith)
            requires
                a > 0,
                b < 0,
        ;
    }
    if a < 0 && b > 0 {
        assert(a * b < 0) by (nonlinear_arith)
            requires
                a < 0,
                b > 0,
        ;
    }
    if a == 0 || b == 0 {
        assert(a * b == 0) by (nonlinear_arith)
            requires
                a == 0 || b == 0,
        ;
    }
}

/// How many ticks a step takes, at distance `r` from the target: one tick
/// after an overshoot; otherwise, within 17 units (6.4 rounded up plus the
/// tolerance of 10), fine steps of 3 units over the distance beyond the
/// tolerance (at least one unit), rounded up; beyond that, coarse steps of 6.4
/// units, rounded to the nearest count with halves up (cut at `u32::MAX`).
/// Every step settles for 2.5 s and heads toward the target.
pub proof fn lemma_step_ticks(target: i64, current: i64, corrections: u32)
    ensures
        spec_plan_step(target, current, corrections) matches Some(step) ==> ({
            let r = if target >= current {
                target - current
            } else {
                current - target
            };
            let m = if r - 10 < 1 {
                1
            } else {
                r - 10
            };
            let t = step.ticks as int;
            &&& r > 10
            &&& step.up == (target > current)
            &&& step.settle_ms == 2500
            &&& corrections > 0 ==> step.fine_mode && t == 1
            &&& corrections == 0 && r <= 17 ==> step.fine_mode && 3 * (t - 1) < m <= 3 * t
            &&& corrections == 0 && r > 17 ==> !step.fine_mode && (t == u32::MAX || (32 * t - 16
                <= 5 * r < 32 * t + 16))
        }),
{
}

/// After a step from `previous` to `current`, an overshoot is a step that ends
/// more than 10 units from the target on the other side of it than it started
/// (or that leaves the target from exactly on it); each overshoot adds one
/// correction, and the fourth correction stops the move.
pub proof fn lemma_after_step_counts(target: i64, previous: i64, current: i64, corrections: u32)
    requires
        corrections < 4,
    ensures
        ({
            let now = target - current;
            let before = target - previous;
            let far = now > 10 || now < -10;
            let switched = (now > 0) != (before > 0) || (now < 0) != (before < 0);
            let c = if switched && far {
                corrections + 1
            } else {
                corrections as int
            };
            spec_after_step(target, previous, current, corrections) == if c >= 4 {
                StepOutcome::TooManyCorrections { corrections: c as u32 }
            } else {
                StepOutcome::Continue { corrections: c as u32 }
            }
        }),
{
}

/// An overshoot is counted only when the height ends up outside the tolerance
/// on the other side of the target.
pub proof fn lemma_overshoot_counts(target: i64, previous: i64, current: i64, corrections: u32)
    requires
        corrections < SET_HEIGHT_MAX_CORRECTIONS,
    ensures
        abs(target - current) <= SET_HEIGHT_TOLERANCE ==> spec_after_step(
            target,
            previous,
            current,
            corrections,
        ) == (StepOutcome::Continue { corrections }),
        (target - current) * (target - previous) > 0 ==> spec_after_step(
            target,
            previous,
            current,
            corrections,
        ) == (StepOutcome::Continue { corrections }),
{
    if (target - current) * (target - previous) > 0 {
        lemma_same_sign(target - current, target - previous);
    }
}

// ---------------------------------------------------------------------------
// Motion events
// ---------------------------------------------------------------------------

/// A write of one motion tick.
#[derive(Debug, Clone, Copy)]
pub struct MotionWrite {
    pub tick: u16,
    pub at_ms: u128,
}

/// A height notification seen during motion, with the change since the one
/// before it (height difference and milliseconds) when time has passed.
#[derive(Debug, Clone)]
pub struct MotionEvent {
    pub at_ms: u128,
    pub tick: Option<u16>,
    pub height: i64,
    pub movement_counter: Option<i64>,
    pub payload: String,
    pub speed: Option<(i64, u128)>,
}

/// What an event holds.
pub struct EventView {
    pub at_ms: u128,
    pub tick: Option<u16>,
    pub height: i64,
    pub movement_counter: Option<i64>,
    pub payload: Seq<char>,
    pub speed: Option<(i64, u128)>,
}

impl View for MotionEvent {
    type V = EventView;

    open spec fn view(&self) -> EventView {
        EventView {
            at_ms: self.at_ms,
            tick: self.tick,
            height: self.height,
            movement_counter: self.movement_counter,
            payload: self.payload@,
            speed: self.speed,
        }
    }
}

pub open spec fn events_view(v: Seq<MotionEvent>) -> Seq<EventView> {
    v.map_values(|e: MotionEvent| e@)
}

/// The events and the last height seen (with its time).
pub struct EventState {
    pub events: Seq<EventView>,
    pub last: Option<(i64, u128)>,
}

/// The receive time of a record: its stamp when it fits in 64 bits, else `now_ms`.
pub open spec fn record_time(r: RecordView, now_ms: u128) -> u128 {
    match r {
        RecordView::Frame { received_at_ms: Some(t), .. } => if t <= u64::MAX {
            t
        } else {
            now_ms
        },
        RecordView::Error { received_at_ms: Some(t), .. } => if t <= u64::MAX {
            t
        } else {
            now_ms
        },
        _ => now_ms,
    }
}

/// The movement counter of a height record.
pub open spec fn record_counter(r: RecordView) -> Option<i64> {
    match r {
        RecordView::Frame {
            parsed: ParsedView::Result { detail: DetailView::Height { movement_counter, .. }, .. },
            ..
        } => Some(movement_counter as i64),
        _ => None,
    }
}

/// The payload text of a frame record.
pub open spec fn record_payload(r: RecordView) -> Seq<char> {
    match r {
        RecordView::Frame { payload, .. } => payload,
        _ => Seq::empty(),
    }
}

/// One record's effect: height records become events, with the change since
/// the last height when time has passed since it.
pub open spec fn event_step(st: EventState, r: RecordView, now_ms: u128, tick: Option<u16>) -> EventState {
    match spec_record_height(r) {
        None => st,
        Some(height) => {
            let at = record_time(r, now_ms);
            let speed = match st.last {
                Some((h, t)) => if at > t {
                    Some(((height - h) as i64, (at - t) as u128))
                } else {
                    None
                },
                None => None,
            };
            EventState {
                events: st.events.push(
                    EventView {
                        at_ms: at,
                        tick,
                        height,
                        movement_counter: record_counter(r),
                        payload: record_payload(r),
                        speed,
                    },
                ),
                last: Some((height, at)),
            }
        },
    }
}

pub open spec fn event_fold(st: EventState, rs: Seq<RecordView>, now_ms: u128, tick: Option<u16>) -> EventState
    decreases rs.len(),
{
    if rs.len() == 0 {
        st
    } else {
        event_step(event_fold(st, rs.drop_last(), now_ms, tick), rs.last(), now_ms, tick)
    }
}

/// Heights from records are 16-bit, so a last height at or above this bound
/// keeps every difference in range.
pub open spec fn last_height_ok(last: Option<(i64, u128)>) -> bool {
    last matches Some((h, _)) ==> h >= 65535 - i64::MAX
}

proof fn lemma_fold_last_ok(st: EventState, rs: Seq<RecordView>, now_ms: u128, tick: Option<u16>)
    requires
        last_height_ok(st.last),
    ensures
        last_height_ok(event_fold(st, rs, now_ms, tick).last),
    decreases rs.len(),
{
    if rs.len() > 0 {
        lemma_fold_last_ok(st, rs.drop_last(), now_ms, tick);
    }
}

/// Adds the height notifications among `notifications` to `events`, stamping
/// each with its receive time (or `now_ms`) and the tick, and keeps
/// `last_height` up to date.
pub fn collect_motion_events(
    events: &mut Vec<MotionEvent>,
    notifications: Vec<NotificationRecord>,
    now_ms: u128,
    last_height: &mut Option<(i64, u128)>,
    tick: Option<u16>,
)
    requires
        last_height_ok(*old(last_height)),
    ensures
        event_fold(
            EventState { events: events_view(old(events)@), last: *old(last_height) },
            records_view(notifications@),
            now_ms,
            tick,
        ) == (EventState { events: events_view(final(events)@), last: *final(last_height) }),
{
    let ghost rs = records_view(notifications@);
    let ghost start = EventState { events: events_view(events@), last: *last_height };
    let mut i: usize = 0;
    while i < notifications.len()
        invariant
            i <= notifications.len(),
            rs == records_view(notifications@),
            last_height_ok(start.last),
            event_fold(start, rs.take(i as int), now_ms, tick) == (EventState {
                events: events_view(events@),
                last: *last_height,
            }),
        decreases notifications.len() - i,
    {
        let r = &notifications[i];
        proof {
            assert(rs.take(i + 1).drop_last() =~= rs.take(i as int));
            assert(rs.take(i + 1).last() == r@);
            lemma_fold_last_ok(start, rs.take(i as int), now_ms, tick);
        }
        let h = crate::ble::notification_height(r);
        if let Some(height) = h {
            let stamp = match r {
                NotificationRecord::Frame { received_at_ms, .. } => *received_at_ms,
                NotificationRecord::Error { received_at_ms, .. } => *received_at_ms,
            };
            let at_ms = match stamp {
                Some(t) => if t <= 0xffff_ffff_ffff_ffff {
                    t
                } else {
                    now_ms
                },
                None => now_ms,
            };
            let speed = match *last_height {
                Some((previous_height, previous_ms)) => if at_ms > previous_ms {
                    Some((height - previous_height, at_ms - previous_ms))
                } else {
                    None
                },
                None => None,
            };
            let (movement_counter, payload) = match r {
                NotificationRecord::Frame { parsed, payload, .. } => (
                    match parsed.movement_counter() {
                        Some(c) => Some(c as i64),
                        None => None,
                    },
                    payload.clone(),
                ),
                NotificationRecord::Error { .. } => (None, String::new()),
            };
            *last_height = Some((height, at_ms));
            let event = MotionEvent { at_ms, tick, height, movement_counter, payload, speed };
            let ghost before = events@;
            events.push(event);
            proof {
                assert(events_view(events@) =~= events_view(before).push(event@));
            }
        }
        i = i + 1;
    }
    proof {
        assert(rs.take(notifications.len() as int) =~= rs);
    }
}


// ---------------------------------------------------------------------------
// Analysis of a recorded motion
// ---------------------------------------------------------------------------

/// A time in milliseconds as a 64-bit number, when it fits.
pub open spec fn ms_u64(t: u128) -> Option<u64> {
    if t <= u64::MAX {
        Some(t as u64)
    } else {
        None
    }
}

fn to_ms_u64(t: u128) -> (r: Option<u64>)
    ensures
        r == ms_u64(t),
{
    if t <= 0xffff_ffff_ffff_ffff {
        Some(t as u64)
    } else {
        None
    }
}

pub open spec fn writes_view(v: Seq<MotionWrite>) -> Seq<(u16, u128)> {
    v.map_values(|w: MotionWrite| (w.tick, w.at_ms))
}

/// The time of the first write, when there is one and it fits in 64 bits.
pub open spec fn first_write_ms(writes: Seq<(u16, u128)>) -> Option<u64> {
    if writes.len() == 0 {
        None
    } else {
        ms_u64(writes[0].1)
    }
}

/// The time of the last write, when there is one and it fits in 64 bits.
pub open spec fn last_write_ms(writes: Seq<(u16, u128)>) -> Option<u64> {
    if writes.len() == 0 {
        None
    } else {
        ms_u64(writes.last().1)
    }
}

/// The first event whose height differs from `start`.
pub open spec fn first_change(events: Seq<EventView>, start: i64) -> Option<EventView>
    decreases events.len(),
{
    if events.len() == 0 {
        None
    } else if events[0].height != start {
        Some(events[0])
    } else {
        first_change(events.drop_first(), start)
    }
}

/// The last event whose height differs from the event just before it.
pub open spec fn last_change(events: Seq<EventView>) -> Option<EventView>
    decreases events.len(),
{
    if events.len() < 2 {
        None
    } else if events[events.len() - 2].height != events.last().height {
        Some(events.last())
    } else {
        last_change(events.drop_last())
    }
}

/// The last event stamped no later than `limit` (stamps that do not fit in 64
/// bits never count).
pub open spec fn last_event_until(events: Seq<EventView>, limit: u64) -> Option<EventView>
    decreases events.len(),
{
    if events.len() == 0 {
        None
    } else if (ms_u64(events.last().at_ms) matches Some(t) && t <= limit) {
        Some(events.last())
    } else {
        last_event_until(events.drop_last(), limit)
    }
}

/// `b - a` when both are known.
pub open spec fn diff(a: Option<i64>, b: Option<i64>) -> Option<int> {
    match (a, b) {
        (Some(x), Some(y)) => Some(y - x),
        _ => None,
    }
}

/// `later - earlier` of two times when both are known and the later is not earlier.
pub open spec fn elapsed(earlier: Option<u64>, later: Option<u64>) -> Option<u64> {
    match (earlier, later) {
        (Some(x), Some(y)) => if y >= x {
            Some((y - x) as u64)
        } else {
            None
        },
        _ => None,
    }
}

pub open spec fn fits_i64(d: Option<int>) -> bool {
    d matches Some(x) ==> i64::MIN <= x <= i64::MAX
}

pub open spec fn as_i64(d: Option<int>) -> Option<i64> {
    match d {
        Some(x) => Some(x as i64),
        None => None,
    }
}

pub open spec fn event_height(e: Option<EventView>) -> Option<i64> {
    match e {
        Some(e) => Some(e.height),
        None => None,
    }
}

pub open spec fn event_ms(e: Option<EventView>) -> Option<u64> {
    match e {
        Some(e) => ms_u64(e.at_ms),
        None => None,
    }
}

pub open spec fn last_event(events: Seq<EventView>) -> Option<EventView> {
    if events.len() == 0 {
        None
    } else {
        Some(events.last())
    }
}

/// The first height change is the earliest event whose height differs from
/// the starting height, all before it being at that height; there is none
/// when every event is at the starting height.
pub proof fn lemma_first_change_is_earliest(events: Seq<EventView>, start: i64)
    ensures
        match first_change(events, start) {
            Some(e) => exists|k: int|
                0 <= k < events.len() && #[trigger] events[k] == e && e.height != start && forall|j: int|
                    0 <= j < k ==> (#[trigger] events[j]).height == start,
            None => forall|j: int| 0 <= j < events.len() ==> (#[trigger] events[j]).height == start,
        },
    decreases events.len(),
{
    if events.len() > 0 {
        let rest = events.drop_first();
        lemma_first_change_is_earliest(rest, start);
        if events[0].height != start {
            assert(events[0] == events[0]);
        } else {
            match first_change(rest, start) {
                Some(e) => {
                    let k = choose|k: int|
                        0 <= k < rest.len() && #[trigger] rest[k] == e && e.height != start
                            && forall|j: int| 0 <= j < k ==> (#[trigger] rest[j]).height == start;
                    assert(events[k + 1] == rest[k]);
                    assert forall|j: int| 0 <= j < k + 1 implies (#[trigger] events[j]).height == start by {
                        if j > 0 {
                            assert(events[j] == rest[j - 1]);
                        }
                    }
                },
                None => {
                    assert forall|j: int| 0 <= j < events.len() implies (#[trigger] events[j]).height
                        == start by {
                        if j > 0 {
                            assert(events[j] == rest[j - 1]);
                        }
                    }
                },
            }
        }
    }
}

/// The last height change is the latest event whose height differs from the
/// event just before it, the heights staying put after it; there is none when
/// no two neighbouring events differ in height.
pub proof fn lemma_last_change_is_latest(events: Seq<EventView>)
    ensures
        match last_change(events) {
            Some(e) => exists|k: int|
                1 <= k < events.len() && #[trigger] events[k] == e && events[k - 1].height != e.height
                    && forall|j: int| k < j < events.len() ==> events[j - 1].height == (
                    #[trigger] events[j]).height,
            None => forall|j: int| 1 <= j < events.len() ==> events[j - 1].height == (
                #[trigger] events[j]).height,
        },
    decreases events.len(),
{
    if events.len() >= 2 {
        let n = events.len();
        let w = events.drop_last();
        lemma_last_change_is_latest(w);
        if events[n - 2].height != events.last().height {
            assert(events[n - 1] == events.last());
        } else {
            match last_change(w) {
                Some(e) => {
                    let k = choose|k: int|
                        1 <= k < w.len() && #[trigger] w[k] == e && w[k - 1].height != e.height
                            && forall|j: int| k < j < w.len() ==> w[j - 1].height == (
                            #[trigger] w[j]).height;
                    assert(events[k] == w[k] && events[k - 1] == w[k - 1]);
                    assert forall|j: int| k < j < n implies events[j - 1].height == (
                        #[trigger] events[j]).height by {
                        if j < n - 1 {
                            assert(events[j] == w[j] && events[j - 1] == w[j - 1]);
                        }
                    }
                },
                None => {
                    assert forall|j: int| 1 <= j < n implies events[j - 1].height == (
                        #[trigger] events[j]).height by {
                        if j < n - 1 {
                            assert(events[j] == w[j] && events[j - 1] == w[j - 1]);
                        }
                    }
                },
            }
        }
    }
}

/// The height at the last write comes from the latest event stamped no later
/// than `limit`, all later ones being stamped after it; there is none when
/// every event is stamped after `limit`.
pub proof fn lemma_last_event_until_is_latest(events: Seq<EventView>, limit: u64)
    ensures
        match last_event_until(events, limit) {
            Some(e) => exists|k: int|
                0 <= k < events.len() && #[trigger] events[k] == e && e.at_ms <= limit && forall|j: int|
                    k < j < events.len() ==> (#[trigger] events[j]).at_ms > limit,
            None => forall|j: int| 0 <= j < events.len() ==> (#[trigger] events[j]).at_ms > limit,
        },
    decreases events.len(),
{
    if events.len() > 0 {
        let n = events.len();
        let w = events.drop_last();
        lemma_last_event_until_is_latest(w, limit);
        if ms_u64(events.last().at_ms) matches Some(t) && t <= limit {
            assert(events[n - 1] == events.last());
        } else {
            match last_event_until(w, limit) {
                Some(e) => {
                    let k = choose|k: int|
                        0 <= k < w.len() && #[trigger] w[k] == e && e.at_ms <= limit && forall|j: int|
                            k < j < w.len() ==> (#[trigger] w[j]).at_ms > limit;
                    assert(events[k] == w[k]);
                    assert forall|j: int| k < j < n implies (#[trigger] events[j]).at_ms > limit by {
                        if j < n - 1 {
                            assert(events[j] == w[j]);
                        }
                    }
                },
                None => {
                    assert forall|j: int| 0 <= j < n implies (#[trigger] events[j]).at_ms > limit by {
                        if j < n - 1 {
                            assert(events[j] == w[j]);
                        }
                    }
                },
            }
        }
    }
}

/// When writes turned into movement, over one recorded motion. The largest
/// speed, a fraction, is left to the caller, which has the events.
#[derive(Debug, Clone, Copy, PartialEq, Eq)]
pub struct MotionAnalysis {
    pub first_write_ms: Option<u64>,
    pub last_write_ms: Option<u64>,
    pub first_height_change_ms: Option<u64>,
    pub first_height_change_tick: Option<u16>,
    pub height_change_latency_ms: Option<u64>,
    pub last_notification_ms: Option<u64>,
    pub last_notification_height: Option<i64>,
    pub final_height_minus_last_notification: Option<i64>,
    pub observed_delta: Option<i64>,
}

/// The first event whose height differs from `start`, by index.
fn find_first_change(events: &Vec<MotionEvent>, start: i64) -> (r: Option<usize>)
    ensures
        match r {
            Some(i) => i < events.len() && first_change(events_view(events@), start) == Some(
                events@[i as int]@,
            ),
            None => first_change(events_view(events@), start) is None,
        },
{
    let ghost ev = events_view(events@);
    proof {
        assert(ev.skip(0) =~= ev);
    }
    let mut i: usize = 0;
    while i < events.len()
        invariant
            i <= events.len(),
            ev == events_view(events@),
            first_change(ev, start) == first_change(ev.skip(i as int), start),
        decreases events.len() - i,
    {
        proof {
            assert(ev.skip(i as int)[0] == ev[i as int]);
            assert(ev.skip(i as int).drop_first() =~= ev.skip(i + 1));
        }
        if events[i].height != start {
            return Some(i);
        }
        i = i + 1;
    }
    proof {
        assert(ev.skip(i as int).len() == 0);
    }
    None
}

/// Sums up a recorded motion: the first and last write times, the first
/// height change (its time and tick) and its delay after the first write, the
/// last notification, and how far the final height lies from it and from the
/// height before the motion.
pub fn motion_analysis(
    before_height: Option<i64>,
    after_height: Option<i64>,
    writes: &Vec<MotionWrite>,
    events: &Vec<MotionEvent>,
) -> (a: MotionAnalysis)
    requires
        fits_i64(diff(event_height(last_event(events_view(events@))), after_height)),
        fits_i64(diff(before_height, after_height)),
    ensures
        ({
            let ws = writes_view(writes@);
            let ev = events_view(events@);
            let change = match before_height {
                Some(start) => first_change(ev, start),
                None => None,
            };
            &&& a.first_write_ms == first_write_ms(ws)
            &&& a.last_write_ms == last_write_ms(ws)
            &&& a.first_height_change_ms == event_ms(change)
            &&& a.first_height_change_tick == (match change {
                Some(e) => e.tick,
                None => None,
            })
            &&& a.height_change_latency_ms == elapsed(first_write_ms(ws), event_ms(change))
            &&& a.last_notification_ms == event_ms(last_event(ev))
            &&& a.last_notification_height == event_height(last_event(ev))
            &&& a.final_height_minus_last_notification == as_i64(
                diff(event_height(last_event(ev)), after_height),
            )
            &&& a.observed_delta == as_i64(diff(before_height, after_height))
        }),
{
    let ghost ev = events_view(events@);
    let n = writes.len();
    let first_write = if n == 0 {
        None
    } else {
        to_ms_u64(writes[0].at_ms)
    };
    let last_write = if n == 0 {
        None
    } else {
        to_ms_u64(writes[n - 1].at_ms)
    };
    let change = match before_height {
        Some(start) => find_first_change(events, start),
        None => None,
    };
    let (first_change_ms, first_change_tick) = match change {
        Some(i) => (to_ms_u64(events[i].at_ms), events[i].tick),
        None => (None, None),
    };
    let latency = match (first_write, first_change_ms) {
        (Some(w), Some(c)) => c.checked_sub(w),
        _ => None,
    };
    let m = events.len();
    let (last_ms, last_height) = if m == 0 {
        (None, None)
    } else {
        (to_ms_u64(events[m - 1].at_ms), Some(events[m - 1].height))
    };
    proof {
        if m > 0 {
            assert(ev.last() == events@[m - 1]@);
        }
    }
    let final_minus_last = match (after_height, last_height) {
        (Some(after), Some(last)) => Some(after - last),
        _ => None,
    };
    let observed = match (before_height, after_height) {
        (Some(before), Some(after)) => Some(after - before),
        _ => None,
    };
    MotionAnalysis {
        first_write_ms: first_write,
        last_write_ms: last_write,
        first_height_change_ms: first_change_ms,
        first_height_change_tick: first_change_tick,
        height_change_latency_ms: latency,
        last_notification_ms: last_ms,
        last_notification_height: last_height,
        final_height_minus_last_notification: final_minus_last,
        observed_delta: observed,
    }
}

/// The heights and times around the movement of one recorded motion. Units
/// per tick, a fraction, is the caller's to divide: `tick_delta` holds the
/// observed delta and the number of writes when both are known and a write
/// was made.
#[derive(Debug, Clone, Copy, PartialEq, Eq)]
pub struct MotionProfileSummary {
    pub first_change_latency_ms: Option<u64>,
    pub last_change_after_last_write_ms: Option<u64>,
    pub first_change_height: Option<i64>,
    pub last_change_height: Option<i64>,
    pub movement_after_last_write: Option<i64>,
    pub tick_delta: Option<(i64, usize)>,
}

/// The height the desk had when the last write was made: that of the last
/// event stamped no later than it, else the height before the motion.
pub open spec fn height_at_last_write(
    before_height: Option<i64>,
    last_write: u64,
    events: Seq<EventView>,
) -> Option<i64> {
    match last_event_until(events, last_write) {
        Some(e) => Some(e.height),
        None => before_height,
    }
}

/// How far the desk moved after the last write, when there was a write and
/// an event.
pub open spec fn movement_after_last_write(
    before_height: Option<i64>,
    after_height: Option<i64>,
    writes: Seq<(u16, u128)>,
    events: Seq<EventView>,
) -> Option<int> {
    match last_write_ms(writes) {
        Some(lw) => if events.len() > 0 {
            diff(height_at_last_write(before_height, lw, events), after_height)
        } else {
            None
        },
        None => None,
    }
}

/// The last event whose height differs from the one before it, by index.
fn find_last_change(events: &Vec<MotionEvent>) -> (r: Option<usize>)
    ensures
        match r {
            Some(i) => i < events.len() && last_change(events_view(events@)) == Some(
                events@[i as int]@,
            ),
            None => last_change(events_view(events@)) is None,
        },
{
    let ghost ev = events_view(events@);
    proof {
        assert(ev.take(ev.len() as int) =~= ev);
    }
    let mut j: usize = events.len();
    while j >= 2
        invariant
            j <= events.len(),
            ev == events_view(events@),
            last_change(ev) == last_change(ev.take(j as int)),
        decreases j,
    {
        proof {
            assert(ev.take(j as int).drop_last() =~= ev.take(j - 1));
            assert(ev.take(j as int).last() == ev[j - 1]);
            assert(ev.take(j as int)[j - 2] == ev[j - 2]);
        }
        if events[j - 2].height != events[j - 1].height {
            return Some(j - 1);
        }
        j = j - 1;
    }
    None
}

/// The last event stamped no later than `limit`, by index.
fn find_last_until(events: &Vec<MotionEvent>, limit: u64) -> (r: Option<usize>)
    ensures
        match r {
            Some(i) => i < events.len() && last_event_until(events_view(events@), limit) == Some(
                events@[i as int]@,
            ),
            None => last_event_until(events_view(events@), limit) is None,
        },
{
    let ghost ev = events_view(events@);
    proof {
        assert(ev.take(ev.len() as int) =~= ev);
    }
    let mut j: usize = events.len();
    while j > 0
        invariant
            j <= events.len(),
            ev == events_view(events@),
            last_event_until(ev, limit) == last_event_until(ev.take(j as int), limit),
        decreases j,
    {
        proof {
            assert(ev.take(j as int).drop_last() =~= ev.take(j - 1));
            assert(ev.take(j as int).last() == ev[j - 1]);
        }
        let stamp = to_ms_u64(events[j - 1].at_ms);
        if let Some(t) = stamp {
            if t <= limit {
                return Some(j - 1);
            }
        }
        j = j - 1;
    }
    None
}

/// Sums up a recorded motion profile: the delay from the first write to the
/// first height change, from the last write to the last change, the heights
/// of those changes, how far the desk moved after the last write, and the
/// observed delta over the number of writes.
pub fn motion_profile_summary(
    before_height: Option<i64>,
    after_height: Option<i64>,
    writes: &Vec<MotionWrite>,
    events: &Vec<MotionEvent>,
) -> (p: MotionProfileSummary)
    requires
        fits_i64(
            movement_after_last_write(
                before_height,
                after_height,
                writes_view(writes@),
                events_view(events@),
            ),
        ),
        fits_i64(diff(before_height, after_height)),
    ensures
        ({
            let ws = writes_view(writes@);
            let ev = events_view(events@);
            let first = match before_height {
                Some(start) => first_change(ev, start),
                None => None,
            };
            &&& p.first_change_latency_ms == elapsed(first_write_ms(ws), event_ms(first))
            &&& p.last_change_after_last_write_ms == elapsed(
                last_write_ms(ws),
                event_ms(last_change(ev)),
            )
            &&& p.first_change_height == event_height(first)
            &&& p.last_change_height == event_height(last_change(ev))
            &&& p.movement_after_last_write == as_i64(
                movement_after_last_write(before_height, after_height, ws, ev),
            )
            &&& p.tick_delta == (match (before_height, after_height) {
                (Some(b), Some(a)) => if ws.len() > 0 {
                    Some(((a - b) as i64, ws.len() as usize))
                } else {
                    None
                },
                _ => None,
            })
        }),
{
    let ghost ev = events_view(events@);
    let n = writes.len();
    let first_write = if n == 0 {
        None
    } else {
        to_ms_u64(writes[0].at_ms)
    };
    let last_write = if n == 0 {
        None
    } else {
        to_ms_u64(writes[n - 1].at_ms)
    };
    let first = match before_height {
        Some(start) => find_first_change(events, start),
        None => None,
    };
    let (first_ms, first_height) = match first {
        Some(i) => (to_ms_u64(events[i].at_ms), Some(events[i].height)),
        None => (None, None),
    };
    let last = find_last_change(events);
    let (last_ms, last_height) = match last {
        Some(i) => (to_ms_u64(events[i].at_ms), Some(events[i].height)),
        None => (None, None),
    };
    let movement = match last_write {
        Some(lw) => if events.len() > 0 {
            let start = match find_last_until(events, lw) {
                Some(i) => Some(events[i].height),
                None => before_height,
            };
            match (start, after_height) {
                (Some(s), Some(e)) => Some(e - s),
                _ => None,
            }
        } else {
            None
        },
        None => None,
    };
    let first_latency = match (first_write, first_ms) {
        (Some(w), Some(c)) => c.checked_sub(w),
        _ => None,
    };
    let last_latency = match (last_write, last_ms) {
        (Some(w), Some(c)) => c.checked_sub(w),
        _ => None,
    };
    let tick_delta = match (before_height, after_height) {
        (Some(b), Some(a)) => if n > 0 {
            Some((a - b, n))
        } else {
            None
        },
        _ => None,
    };
    MotionProfileSummary {
        first_change_latency_ms: first_latency,
        last_change_after_last_write_ms: last_latency,
        first_change_height: first_height,
        last_change_height: last_height,
        movement_after_last_write: movement,
        tick_delta,
    }
}

} // verus!
