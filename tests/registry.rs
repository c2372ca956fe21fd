use hw_sim::job::{HwJob, WaitKind};
use hw_sim::registry::cur_tick;
use hw_sim::scheduler::{HwScheduler, SimStep};
use once_cell::sync::OnceCell;

#[test]
fn register_installs_the_scheduler() {
    let mut cell: OnceCell<HwScheduler> = OnceCell::new();
    assert!(!HwScheduler::is_registered(&cell));
    HwScheduler::new(7, 1).register(&mut cell);
    assert!(HwScheduler::is_registered(&cell));
    assert_eq!(HwScheduler::global(&cell).current_tick(), 7);
    assert_eq!(HwScheduler::global(&cell).timescale(), 1);
    assert_eq!(cur_tick(&cell), 7);
    assert_eq!(cur_tick(&cell), 7);
}

#[test]
fn installed_scheduler_keeps_its_tick() {
    let mut cell: OnceCell<HwScheduler> = OnceCell::new();
    HwScheduler::new(12, 1000).register(&mut cell);
    assert_eq!(cur_tick(&cell), 12);
    assert!(std::ptr::eq(HwScheduler::global(&cell), HwScheduler::global(&cell)));
}

#[test]
fn driving_the_installed_scheduler_moves_its_tick_forward() {
    let mut cell: OnceCell<HwScheduler> = OnceCell::new();
    HwScheduler::new(0, 1).register(&mut cell);
    let before = cur_tick(&cell);
    {
        let s = HwScheduler::global_mut(&mut cell);
        s.enqueue(HwJob::new(WaitKind::Time(10), 1));
        s.enqueue(HwJob::new(WaitKind::Time(4), 2));
        match s.step(100, true) {
            SimStep::Resumed(h) => assert_eq!(h, vec![2]),
            other => panic!("unexpected {:?}", other),
        }
    }
    let middle = cur_tick(&cell);
    assert_eq!((before, middle), (0, 4));
    assert_eq!(HwScheduler::global_mut(&mut cell).notify("go".to_string(), 2), Vec::<usize>::new());
    assert_eq!(cur_tick(&cell), 4);
    assert_eq!(HwScheduler::global_mut(&mut cell).simulate(100, vec![]), vec![1]);
    assert_eq!(cur_tick(&cell), 10);
}
