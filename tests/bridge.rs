use hw_sim::bridge::{BridgePoll, HwFuture, HwTask};
use hw_sim::job::{HwJob, WaitKind};
use hw_sim::scheduler::HwScheduler;

#[test]
fn time_wait_sends_one_job_then_becomes_ready() {
    let task = HwTask::new("cpu".to_string(), WaitKind::Time(10), 4);
    let mut f = HwFuture::new(&task);
    let mut s = HwScheduler::new(3, 1);
    match f.poll(&s) {
        BridgePoll::Pending(Some(job)) => {
            assert_eq!(job.handle, 4);
            assert!(matches!(job.wait_evt, WaitKind::Time(10)));
            s.enqueue(job);
        }
        other => panic!("unexpected {:?}", other),
    }
    assert!(matches!(f.poll(&s), BridgePoll::Pending(None)));
    assert!(s.notify("tick".to_string(), 9).is_empty());
    assert!(matches!(f.poll(&s), BridgePoll::Pending(None)));
    assert_eq!(s.notify("tick".to_string(), 10), vec![4]);
    assert!(f.resume());
    assert!(matches!(f.poll(&s), BridgePoll::Ready));
    assert!(matches!(f.poll(&s), BridgePoll::Ready));
}

#[test]
fn satisfied_time_wait_is_ready_without_sending() {
    let s = HwScheduler::new(2, 1);
    let mut f = HwFuture::wait_for(2, 1);
    assert!(matches!(f.poll(&s), BridgePoll::Ready));
    assert!(matches!(f.poll(&s), BridgePoll::Ready));
}

#[test]
fn event_wait_is_ready_once_event_fired() {
    let mut s = HwScheduler::new(0, 1);
    let mut f = HwFuture::wait_event("irq".to_string(), 7);
    match f.poll(&s) {
        BridgePoll::Pending(Some(job)) => {
            match &job.wait_evt {
                WaitKind::Event(n) => assert_eq!(n, "irq"),
                other => panic!("unexpected {:?}", other),
            }
            s.enqueue(job);
        }
        other => panic!("unexpected {:?}", other),
    }
    assert!(matches!(f.poll(&s), BridgePoll::Pending(None)));
    assert!(s.notify("other".to_string(), 0).is_empty());
    assert!(matches!(f.poll(&s), BridgePoll::Pending(None)));
    assert_eq!(s.notify("irq".to_string(), 0), vec![7]);
    assert!(matches!(f.poll(&s), BridgePoll::Ready));
}

#[test]
fn event_fired_before_the_wait_is_ready_at_once() {
    let mut s = HwScheduler::new(0, 1);
    assert!(s.notify("go".to_string(), 3).is_empty());
    assert!(s.has_fired(&"go".to_string()));
    assert!(!s.has_fired(&"stop".to_string()));
    let mut f = HwFuture::wait_event("go".to_string(), 1);
    assert!(matches!(f.poll(&s), BridgePoll::Ready));
    let mut g = HwFuture::wait_event("stop".to_string(), 2);
    assert!(matches!(g.poll(&s), BridgePoll::Pending(Some(_))));
}

#[test]
fn many_pending_polls_send_one_job() {
    let s = HwScheduler::new(0, 1);
    let mut f = HwFuture::wait_for(50, 3);
    let mut sent: Vec<HwJob> = Vec::new();
    for _ in 0..10 {
        match f.poll(&s) {
            BridgePoll::Pending(Some(job)) => sent.push(job),
            BridgePoll::Pending(None) => {}
            BridgePoll::Ready => panic!("ready too early"),
        }
    }
    assert_eq!(sent.len(), 1);
}

#[test]
fn second_resume_is_refused() {
    let mut f = HwFuture::wait_event("irq".to_string(), 7);
    assert!(f.resume());
    assert!(!f.resume());
}

#[test]
fn task_keeps_its_fields() {
    let t = HwTask::new("dma".to_string(), WaitKind::Event("go".to_string()), 9);
    assert_eq!(t.name, "dma");
    assert_eq!(t.handle, 9);
    let copy = t.kind.duplicate();
    assert!(matches!(copy, WaitKind::Event(ref n) if n == "go"));
}
