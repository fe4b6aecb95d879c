use os_core::sched::TaskManager;
use os_core::sched::BIG_STRIDE;
use os_core::task::TaskControlBlock;
use os_core::task::TaskStatus;

fn tcb(pid: usize, priority: usize) -> TaskControlBlock {
    TaskControlBlock {
        pid,
        status: TaskStatus::Ready,
        parent: None,
        children: Vec::new(),
        exit_code: 0,
        fd_table: Vec::new(),
        space: Some(pid),
        heap_bottom: 0,
        program_brk: 0,
        stride: 0,
        priority,
        pending_return: 0,
        start_time: 0,
        syscall_times: Vec::new(),
    }
}

#[test]
fn fetch_picks_minimum_stride_first_wins_on_ties() {
    let mut tasks = vec![Some(tcb(0, 2)), Some(tcb(1, 2)), Some(tcb(2, 2))];
    tasks[1].as_mut().unwrap().stride = 5;
    let mut tm = TaskManager::new();
    tm.add(0);
    tm.add(1);
    tm.add(2);
    // 0 and 2 tie at stride 0: first encountered wins
    assert_eq!(tm.fetch(&mut tasks), Some(0));
    assert_eq!(tasks[0].as_ref().unwrap().stride, BIG_STRIDE / 2);
    assert_eq!(tm.fetch(&mut tasks), Some(2));
    assert_eq!(tm.fetch(&mut tasks), Some(1));
    assert_eq!(tm.fetch(&mut tasks), None);
}

#[test]
fn scheduler_fairness_equal_priorities() {
    // N tasks of equal priority continuously re-enqueued: each is dispatched
    // within every window of N consecutive fetches.
    let n = 4usize;
    let mut tasks: Vec<Option<TaskControlBlock>> = (0..n).map(|i| Some(tcb(i, 3))).collect();
    let mut tm = TaskManager::new();
    for i in 0..n {
        tm.add(i);
    }
    let mut order = Vec::new();
    for _ in 0..5 * n {
        let got = tm.fetch(&mut tasks).unwrap();
        order.push(got);
        tm.add(got);
    }
    for w in 0..(order.len() - n + 1) {
        let window = &order[w..w + n];
        for pid in 0..n {
            assert!(window.contains(&pid), "task starved within a window");
        }
    }
}

#[test]
fn priority_ratio_two_to_one() {
    // priorities 2 and 4: long-run dispatch frequencies in ratio 4 : 2.
    let mut tasks = vec![Some(tcb(0, 2)), Some(tcb(1, 4))];
    let mut tm = TaskManager::new();
    tm.add(0);
    tm.add(1);
    let mut counts = [0usize; 2];
    for _ in 0..30 {
        let got = tm.fetch(&mut tasks).unwrap();
        counts[got] += 1;
        tm.add(got);
    }
    assert_eq!(counts[1], 2 * counts[0]);
}

#[test]
fn stride_advances_by_quantum_per_dispatch() {
    let mut tasks = vec![Some(tcb(0, 16))];
    let mut tm = TaskManager::new();
    tm.add(0);
    for round in 1..=5u64 {
        let got = tm.fetch(&mut tasks).unwrap();
        assert_eq!(got, 0);
        assert_eq!(tasks[0].as_ref().unwrap().stride, round * (BIG_STRIDE / 16));
        tm.add(got);
    }
}
