use os_core::process::boot;
use os_core::process::heap_read;
use os_core::process::heap_write;
use os_core::process::sys_exec;
use os_core::process::sys_exit;
use os_core::process::sys_fork;
use os_core::process::sys_get_time;
use os_core::process::sys_getpid;
use os_core::process::sys_sbrk;
use os_core::process::sys_set_priority;
use os_core::process::sys_spawn;
use os_core::process::sys_waitpid;
use os_core::process::sys_yield;
use os_core::task::ProgramImage;
use os_core::task::TaskStatus;

fn image() -> ProgramImage {
    ProgramImage { base_size: 0x1000, entry_point: 0x100 }
}

#[test]
fn boot_starts_one_running_task() {
    let k = boot(&image());
    assert_eq!(sys_getpid(&k), 0);
    assert_eq!(k.tasks.len(), 1);
    let tv = sys_get_time(&k);
    assert_eq!(tv.sec, 0);
    assert_eq!(tv.usec, 0);
}

#[test]
fn priority_floor_rejects_below_two() {
    let mut k = boot(&image());
    assert_eq!(sys_set_priority(&mut k, 1), -1);
    assert_eq!(sys_set_priority(&mut k, 0), -1);
    assert_eq!(k.tasks[0].as_ref().unwrap().priority, 16);
    assert_eq!(sys_set_priority(&mut k, 5), 5);
    assert_eq!(k.tasks[0].as_ref().unwrap().priority, 5);
}

#[test]
fn sbrk_returns_old_break_and_guards_underflow() {
    let mut k = boot(&image());
    assert_eq!(sys_sbrk(&mut k, 16), 0x1000);
    assert_eq!(k.tasks[0].as_ref().unwrap().program_brk, 0x1010);
    assert_eq!(sys_sbrk(&mut k, -8), 0x1010);
    assert_eq!(k.tasks[0].as_ref().unwrap().program_brk, 0x1008);
    // shrinking below the heap bottom is rejected without change
    assert_eq!(sys_sbrk(&mut k, -9), -1);
    assert_eq!(k.tasks[0].as_ref().unwrap().program_brk, 0x1008);
}

#[test]
fn wait_semantics_poll_sequence() {
    let mut k = boot(&image());
    let mut code: i32 = 0;
    // zero children: not found
    assert_eq!(sys_waitpid(&mut k, -1, &mut code), -1);
    let child = sys_fork(&mut k);
    assert_eq!(child, 1);
    // one live child: pending
    assert_eq!(sys_waitpid(&mut k, -1, &mut code), -2);
    // let the child run and exit
    assert_eq!(sys_yield(&mut k), 0);
    assert_eq!(sys_getpid(&k), 1);
    sys_exit(&mut k, 7);
    assert_eq!(sys_getpid(&k), 0);
    // reap exactly once
    assert_eq!(sys_waitpid(&mut k, -1, &mut code), 1);
    assert_eq!(code, 7);
    assert_eq!(sys_waitpid(&mut k, -1, &mut code), -1);
}

#[test]
fn wait_by_pid_distinguishes_not_found_and_pending() {
    let mut k = boot(&image());
    let mut code: i32 = 0;
    let child = sys_fork(&mut k);
    assert_eq!(sys_waitpid(&mut k, 42, &mut code), -1);
    assert_eq!(sys_waitpid(&mut k, child, &mut code), -2);
}

#[test]
fn fork_isolation_of_heaps_and_shared_fd_tables() {
    let mut k = boot(&image());
    sys_sbrk(&mut k, 4);
    heap_write(&mut k, 0x1000, 0xAA);
    let child = sys_fork(&mut k) as usize;
    let parent_space = k.tasks[0].as_ref().unwrap().space.unwrap();
    let child_space = k.tasks[child].as_ref().unwrap().space.unwrap();
    assert_ne!(parent_space, child_space);
    // identical fd tables pointing at the same underlying files
    assert_eq!(
        k.tasks[0].as_ref().unwrap().fd_table,
        k.tasks[child].as_ref().unwrap().fd_table
    );
    // the child sees a copy of the parent's heap
    assert_eq!(k.spaces[child_space].as_ref().unwrap().heap[0], 0xAA);
    // a parent write is invisible in the child and vice versa
    heap_write(&mut k, 0x1000, 0x55);
    assert_eq!(k.spaces[parent_space].as_ref().unwrap().heap[0], 0x55);
    assert_eq!(k.spaces[child_space].as_ref().unwrap().heap[0], 0xAA);
    sys_yield(&mut k);
    assert_eq!(sys_getpid(&k), child as isize);
    heap_write(&mut k, 0x1001, 0x99);
    assert_eq!(heap_read(&k, 0x1001), 0x99);
    assert_eq!(k.spaces[parent_space].as_ref().unwrap().heap[1], 0x00);
    assert_eq!(k.spaces[parent_space].as_ref().unwrap().heap[0], 0x55);
}

#[test]
fn fork_child_first_return_is_zero() {
    let mut k = boot(&image());
    let child = sys_fork(&mut k) as usize;
    assert_eq!(k.tasks[child].as_ref().unwrap().pending_return, 0);
    assert_eq!(k.tasks[child].as_ref().unwrap().status, TaskStatus::Ready);
}

#[test]
fn exec_replaces_space_in_place() {
    let mut k = boot(&image());
    assert_eq!(sys_exec(&mut k, None), -1);
    let old_space = k.tasks[0].as_ref().unwrap().space.unwrap();
    let img2 = ProgramImage { base_size: 0x2000, entry_point: 0x200 };
    assert_eq!(sys_exec(&mut k, Some(&img2)), 0);
    let t = k.tasks[0].as_ref().unwrap();
    assert_eq!(t.pid, 0);
    assert_eq!(t.heap_bottom, 0x2000);
    assert_eq!(t.program_brk, 0x2000);
    assert_ne!(t.space.unwrap(), old_space);
    assert!(k.spaces[old_space].is_none());
}

#[test]
fn spawn_makes_child_without_duplicating_parent_space() {
    let mut k = boot(&image());
    sys_sbrk(&mut k, 2);
    heap_write(&mut k, 0x1000, 0x77);
    assert_eq!(sys_spawn(&mut k, None), -1);
    let child = sys_spawn(&mut k, Some(&image())) as usize;
    assert_eq!(child, 1);
    let t = k.tasks[child].as_ref().unwrap();
    assert_eq!(t.parent, Some(0));
    assert_eq!(t.priority, 16);
    assert_eq!(t.stride, 0);
    assert_eq!(t.heap_bottom, 0x1000);
    assert_eq!(t.program_brk, 0x1002);
    // no duplicate of the parent's image: the child's heap reads as zeroes
    let cs = t.space.unwrap();
    assert_eq!(k.spaces[cs].as_ref().unwrap().heap[0], 0);
}

#[test]
fn exit_leaves_zombie_until_reaped() {
    let mut k = boot(&image());
    let child = sys_fork(&mut k) as usize;
    sys_yield(&mut k);
    sys_exit(&mut k, -3);
    assert_eq!(k.tasks[child].as_ref().unwrap().status, TaskStatus::Zombie);
    assert_eq!(k.tasks[child].as_ref().unwrap().exit_code, -3);
    assert!(k.tasks[child].as_ref().unwrap().space.is_none());
    let mut code = 0;
    assert_eq!(sys_waitpid(&mut k, child as isize, &mut code), child as isize);
    assert_eq!(code, -3);
    assert!(k.tasks[child].is_none());
}
