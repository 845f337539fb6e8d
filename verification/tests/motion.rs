use logiclink_desk::ble::NotificationRecord;
use logiclink_desk::motion::{
    after_height_step, collect_motion_events, motion_analysis, motion_profile_summary,
    plan_height_step, relative_target, HeightStep, MotionEvent, MotionWrite, StepOutcome,
};
use logiclink_desk::response::{ParsedResponse, ResponseDetail};

fn height_record(received_at_ms: u128, payload: &str, height: u16, counter: u32) -> NotificationRecord {
    NotificationRecord::Frame {
        raw_notification: String::new(),
        raw_packet: String::new(),
        command: "0x80".to_string(),
        command_name: "get-height".to_string(),
        status: 0,
        nonce: String::new(),
        payload: payload.to_string(),
        parsed: ParsedResponse::Result {
            result: 0,
            result_description: "success".to_string(),
            detail: ResponseDetail::Height { height, movement_counter: counter },
        },
        trailing_remainder: String::new(),
        received_at_ms: Some(received_at_ms),
    }
}

fn event(at_ms: u128, tick: u16, height: i64) -> MotionEvent {
    MotionEvent {
        at_ms,
        tick: Some(tick),
        height,
        movement_counter: None,
        payload: String::new(),
        speed: None,
    }
}

#[test]
fn motion_events_use_notification_receive_timestamps() {
    let mut events = Vec::new();
    let mut last_height = None;

    collect_motion_events(
        &mut events,
        vec![height_record(125, "0102", 1000, 7), height_record(225, "0304", 1004, 8)],
        999_999,
        &mut last_height,
        Some(2),
    );

    assert_eq!(events[0].at_ms, 125);
    assert_eq!(events[0].height, 1000);
    assert_eq!(events[0].movement_counter, Some(7));
    assert_eq!(events[1].at_ms, 225);
    let (units, ms) = events[1].speed.unwrap();
    assert_eq!(units as f64 * 1000.0 / ms as f64, 40.0);
}

#[test]
fn motion_analysis_reports_write_to_height_change_latency() {
    let writes = vec![MotionWrite { tick: 1, at_ms: 10 }, MotionWrite { tick: 2, at_ms: 110 }];
    let events = vec![event(80, 1, 1000), event(180, 2, 1005)];

    let analysis = motion_analysis(Some(1000), Some(1008), &writes, &events);

    assert_eq!(analysis.height_change_latency_ms, Some(170));
    assert_eq!(analysis.first_height_change_tick, Some(2));
    assert_eq!(analysis.final_height_minus_last_notification, Some(3));
}

#[test]
fn motion_events_without_stamp_use_now_and_skip_speed_when_time_stands_still() {
    let mut events = Vec::new();
    let mut last_height = Some((990, 500));
    let mut unstamped = height_record(0, "05", 995, 1);
    if let NotificationRecord::Frame { received_at_ms, .. } = &mut unstamped {
        *received_at_ms = None;
    }
    collect_motion_events(&mut events, vec![unstamped], 500, &mut last_height, None);
    assert_eq!(events.len(), 1);
    assert_eq!(events[0].at_ms, 500);
    assert_eq!(events[0].tick, None);
    assert_eq!(events[0].speed, None);
    assert_eq!(last_height, Some((995, 500)));
}

#[test]
fn motion_events_ignore_records_without_height() {
    let mut events = Vec::new();
    let mut last_height = None;
    let mut other = height_record(10, "", 0, 0);
    if let NotificationRecord::Frame { parsed, .. } = &mut other {
        *parsed = ParsedResponse::NoResult;
    }
    collect_motion_events(&mut events, vec![other], 20, &mut last_height, Some(1));
    assert!(events.is_empty());
    assert_eq!(last_height, None);
}

#[test]
fn motion_analysis_full_record() {
    let writes = vec![MotionWrite { tick: 1, at_ms: 10 }, MotionWrite { tick: 2, at_ms: 110 }];
    let events = vec![event(80, 1, 1000), event(180, 2, 1005), event(260, 2, 1007)];
    let a = motion_analysis(Some(1000), Some(1008), &writes, &events);
    assert_eq!(a.first_write_ms, Some(10));
    assert_eq!(a.last_write_ms, Some(110));
    assert_eq!(a.first_height_change_ms, Some(180));
    assert_eq!(a.last_notification_ms, Some(260));
    assert_eq!(a.last_notification_height, Some(1007));
    assert_eq!(a.final_height_minus_last_notification, Some(1));
    assert_eq!(a.observed_delta, Some(8));
}

#[test]
fn motion_analysis_without_heights_or_writes() {
    let a = motion_analysis(None, None, &Vec::new(), &Vec::new());
    assert_eq!(a.first_write_ms, None);
    assert_eq!(a.first_height_change_ms, None);
    assert_eq!(a.height_change_latency_ms, None);
    assert_eq!(a.last_notification_height, None);
    assert_eq!(a.observed_delta, None);
}

#[test]
fn motion_analysis_change_before_first_write_has_no_latency() {
    let writes = vec![MotionWrite { tick: 1, at_ms: 300 }];
    let events = vec![event(100, 1, 990)];
    let a = motion_analysis(Some(1000), None, &writes, &events);
    assert_eq!(a.first_height_change_ms, Some(100));
    assert_eq!(a.height_change_latency_ms, None);
}

#[test]
fn motion_profile_summary_reports_changes() {
    let writes = vec![MotionWrite { tick: 1, at_ms: 10 }, MotionWrite { tick: 2, at_ms: 110 }];
    let events = vec![
        event(80, 1, 1000),
        event(180, 2, 1005),
        event(260, 2, 1012),
        event(340, 2, 1012),
    ];
    let p = motion_profile_summary(Some(1000), Some(1013), &writes, &events);
    assert_eq!(p.first_change_latency_ms, Some(170));
    assert_eq!(p.first_change_height, Some(1005));
    assert_eq!(p.last_change_height, Some(1012));
    assert_eq!(p.last_change_after_last_write_ms, Some(150));
    // Height at the last write (110 ms) is that of the event at 80 ms.
    assert_eq!(p.movement_after_last_write, Some(13));
    assert_eq!(p.tick_delta, Some((13, 2)));
}

#[test]
fn motion_profile_summary_falls_back_to_height_before() {
    let writes = vec![MotionWrite { tick: 1, at_ms: 10 }];
    let events = vec![event(50, 1, 1000)];
    let p = motion_profile_summary(Some(990), Some(1004), &writes, &events);
    assert_eq!(p.movement_after_last_write, Some(14));
    assert_eq!(p.last_change_height, None);
    assert_eq!(p.first_change_height, Some(1000));
    assert_eq!(p.first_change_latency_ms, Some(40));
    let none = motion_profile_summary(Some(990), Some(1004), &Vec::new(), &events);
    assert_eq!(none.tick_delta, None);
    assert_eq!(none.movement_after_last_write, None);
}

#[test]
fn height_steps() {
    assert_eq!(
        plan_height_step(1000, 900, 0),
        Some(HeightStep { up: true, fine_mode: false, ticks: 16, settle_ms: 2500 })
    );
    assert_eq!(
        plan_height_step(1000, 985, 0),
        Some(HeightStep { up: true, fine_mode: true, ticks: 2, settle_ms: 2500 })
    );
    assert_eq!(
        plan_height_step(900, 1000, 1),
        Some(HeightStep { up: false, fine_mode: true, ticks: 1, settle_ms: 2500 })
    );
    assert_eq!(plan_height_step(1000, 995, 0), None);
    assert_eq!(plan_height_step(1000, 1010, 0), None);
    // 11 units: fine mode, one unit past the tolerance, one tick.
    assert_eq!(plan_height_step(1011, 1000, 0).unwrap().ticks, 1);
    // 18 units: coarse, 18 / 6.4 = 2.81 rounds to 3.
    assert_eq!(plan_height_step(1018, 1000, 0).unwrap().ticks, 3);
}

#[test]
fn overshoot_counting() {
    assert_eq!(after_height_step(1000, 900, 1020, 0), StepOutcome::Continue { corrections: 1 });
    assert_eq!(after_height_step(1000, 900, 1005, 0), StepOutcome::Continue { corrections: 0 });
    assert_eq!(after_height_step(1000, 900, 950, 2), StepOutcome::Continue { corrections: 2 });
    assert_eq!(
        after_height_step(1000, 900, 1020, 3),
        StepOutcome::TooManyCorrections { corrections: 4 }
    );
}

#[test]
fn relative_targets() {
    assert_eq!(relative_target(620, -25), Some(595));
    assert_eq!(relative_target(620, 50), Some(670));
    assert_eq!(relative_target(10, -10), None);
}
