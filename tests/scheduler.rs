use hw_sim::job::{HwJob, WaitKind};
use hw_sim::scheduler::{HwScheduler, SimStep};

fn time_job(t: usize, h: usize) -> HwJob {
    HwJob::new(WaitKind::Time(t), h)
}

fn event_job(n: &str, h: usize) -> HwJob {
    HwJob::new(WaitKind::Event(n.to_string()), h)
}

const A: usize = 1;
const B: usize = 2;
const C: usize = 3;

#[test]
fn equal_targets_resume_in_arrival_order_and_event_stays() {
    let mut s = HwScheduler::new(0, 1);
    let r = s.simulate(20, vec![time_job(10, A), time_job(10, B), event_job("go", C)]);
    assert_eq!(r, vec![A, B]);
    assert_eq!(s.current_tick(), 10);
    // C still waits on its event.
    assert_eq!(s.notify("go".to_string(), 0), vec![C]);
}

#[test]
fn notify_before_target_resumes_event_job_first() {
    let mut s = HwScheduler::new(0, 1);
    s.enqueue(time_job(10, A));
    s.enqueue(time_job(10, B));
    s.enqueue(event_job("go", C));
    assert_eq!(s.notify("go".to_string(), 5), vec![C]);
    assert_eq!(s.current_tick(), 5);
    let r = s.simulate(20, vec![]);
    assert_eq!(r, vec![A, B]);
    assert_eq!(s.current_tick(), 10);
}

#[test]
fn simulate_stops_at_duration_before_target() {
    let mut s = HwScheduler::new(0, 1);
    let r = s.simulate(5, vec![time_job(10, A)]);
    assert!(r.is_empty());
    assert_eq!(s.current_tick(), 5);
    assert!(matches!(s.step(5, true), SimStep::Stopped));
}

#[test]
fn simulate_with_nothing_ends_at_once() {
    let mut s = HwScheduler::new(7, 1);
    assert!(matches!(s.step(100, true), SimStep::Finished));
    let r = s.simulate(100, vec![]);
    assert!(r.is_empty());
    assert_eq!(s.current_tick(), 7);
}

#[test]
fn open_channel_with_nothing_pending_is_idle() {
    let mut s = HwScheduler::new(0, 1);
    assert!(matches!(s.step(100, false), SimStep::Idle));
    s.enqueue(event_job("go", A));
    assert!(matches!(s.step(100, true), SimStep::Idle));
    assert_eq!(s.current_tick(), 0);
}

#[test]
fn step_commits_smallest_target_only() {
    let mut s = HwScheduler::new(0, 1);
    s.enqueue(time_job(30, A));
    s.enqueue(time_job(12, B));
    s.enqueue(time_job(30, C));
    match s.step(100, false) {
        SimStep::Resumed(h) => assert_eq!(h, vec![B]),
        other => panic!("unexpected {:?}", other),
    }
    assert_eq!(s.current_tick(), 12);
    match s.step(100, false) {
        SimStep::Resumed(h) => assert_eq!(h, vec![A, C]),
        other => panic!("unexpected {:?}", other),
    }
    assert_eq!(s.current_tick(), 30);
}

#[test]
fn job_resumes_only_when_tick_reaches_target() {
    let mut s = HwScheduler::new(0, 1);
    s.enqueue(time_job(8, A));
    // Committing tick 7 leaves the job waiting.
    assert!(s.notify("none".to_string(), 7).is_empty());
    assert_eq!(s.current_tick(), 7);
    assert_eq!(s.notify("none".to_string(), 8), vec![A]);
    assert_eq!(s.current_tick(), 8);
}

#[test]
fn target_equal_to_duration_is_not_resumed() {
    let mut s = HwScheduler::new(0, 1);
    let r = s.simulate(10, vec![time_job(10, A)]);
    assert!(r.is_empty());
    assert_eq!(s.current_tick(), 10);
}

#[test]
fn ticks_never_decrease() {
    let mut s = HwScheduler::new(50, 1);
    s.enqueue(time_job(20, A));
    // A target already passed resumes without moving the tick back.
    match s.step(100, true) {
        SimStep::Resumed(h) => assert_eq!(h, vec![A]),
        other => panic!("unexpected {:?}", other),
    }
    assert_eq!(s.current_tick(), 50);
    assert!(s.notify("x".to_string(), 10).is_empty());
    assert_eq!(s.current_tick(), 50);
    // Starting beyond the duration: stopping keeps the tick.
    s.enqueue(time_job(200, B));
    assert!(matches!(s.step(40, true), SimStep::Stopped));
    assert_eq!(s.current_tick(), 50);
}

#[test]
fn simulate_never_commits_beyond_duration() {
    let mut s = HwScheduler::new(0, 1);
    let r = s.simulate(25, vec![time_job(10, A), time_job(20, B), time_job(30, C)]);
    assert_eq!(r, vec![A, B]);
    assert_eq!(s.current_tick(), 25);
}

#[test]
fn notify_commit_resumes_due_jobs_by_target_then_arrival() {
    let mut s = HwScheduler::new(0, 1);
    s.enqueue(time_job(9, A));
    s.enqueue(time_job(4, B));
    s.enqueue(event_job("go", C));
    s.enqueue(time_job(4, 4));
    s.enqueue(time_job(15, 5));
    assert_eq!(s.notify("go".to_string(), 9), vec![C, B, 4, A]);
    assert_eq!(s.current_tick(), 9);
    assert_eq!(s.simulate(100, vec![]), vec![5]);
}

#[test]
fn notify_fires_each_named_job_once_and_keeps_others() {
    let mut s = HwScheduler::new(0, 1);
    s.enqueue(event_job("go", A));
    s.enqueue(event_job("stop", B));
    s.enqueue(event_job("go", C));
    assert_eq!(s.notify("go".to_string(), 0), vec![A, C]);
    assert!(s.notify("go".to_string(), 0).is_empty());
    assert_eq!(s.notify("stop".to_string(), 0), vec![B]);
    assert_eq!(s.current_tick(), 0);
}

#[test]
fn timescale_is_kept() {
    let s = HwScheduler::new(3, 1000);
    assert_eq!(s.timescale(), 1000);
    assert_eq!(s.current_tick(), 3);
}
