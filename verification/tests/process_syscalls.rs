use os::process::{
    sys_exec, sys_fork, sys_get_time, sys_getpid, sys_sbrk, sys_set_priority, sys_spawn,
    sys_waitpid, sys_yield, ChildTask, TimeVal, TrapContext,
};

fn child(pid: usize, zombie: bool, exit_code: i32) -> ChildTask {
    ChildTask { pid, zombie, exit_code }
}

#[test]
fn yield_returns_zero() {
    assert_eq!(sys_yield(), 0);
}

#[test]
fn getpid_returns_the_pid() {
    assert_eq!(sys_getpid(0), 0);
    assert_eq!(sys_getpid(42), 42);
}

#[test]
fn fork_clears_the_childs_a0_and_returns_its_pid() {
    let mut x = [0usize; 32];
    for (k, r) in x.iter_mut().enumerate() {
        *r = 100 + k;
    }
    let mut cx = TrapContext { x };
    assert_eq!(sys_fork(&mut cx, 9), 9);
    assert_eq!(cx.x[10], 0);
    for k in (0..32).filter(|k| *k != 10) {
        assert_eq!(cx.x[k], 100 + k);
    }
}

#[test]
fn exec_reports_whether_the_program_was_found() {
    assert_eq!(sys_exec(true), 0);
    assert_eq!(sys_exec(false), -1);
}

#[test]
fn sbrk_returns_the_old_break_or_minus_one() {
    assert_eq!(sys_sbrk(Some(0x10000)), 0x10000);
    assert_eq!(sys_sbrk(None), -1);
}

#[test]
fn set_priority_refuses_below_two() {
    let mut pass = 16usize;
    assert_eq!(sys_set_priority(&mut pass, 1), -1);
    assert_eq!(sys_set_priority(&mut pass, -5), -1);
    assert_eq!(pass, 16);
    assert_eq!(sys_set_priority(&mut pass, 2), 2);
    assert_eq!(pass, 2);
    assert_eq!(sys_set_priority(&mut pass, 50), 50);
    assert_eq!(pass, 50);
}

#[test]
fn waitpid_without_such_child_returns_minus_one() {
    let mut children = vec![];
    assert_eq!(sys_waitpid(&mut children, -1), (-1, None));
    let mut children = vec![child(3, true, 0)];
    assert_eq!(sys_waitpid(&mut children, 4), (-1, None));
    assert_eq!(sys_waitpid(&mut children, -2), (-1, None));
    assert_eq!(children.len(), 1);
}

#[test]
fn waitpid_on_a_running_child_returns_minus_two() {
    let mut children = vec![child(3, false, 0), child(4, false, 0)];
    assert_eq!(sys_waitpid(&mut children, 3), (-2, None));
    assert_eq!(sys_waitpid(&mut children, -1), (-2, None));
    assert_eq!(children.len(), 2);
}

#[test]
fn waitpid_reaps_the_exited_child() {
    let mut children = vec![child(3, false, 0), child(4, true, 17), child(5, true, -3)];
    assert_eq!(sys_waitpid(&mut children, 5), (5, Some(-3)));
    assert_eq!(children, vec![child(3, false, 0), child(4, true, 17)]);
    // a reaped child is gone
    assert_eq!(sys_waitpid(&mut children, 5), (-1, None));
}

#[test]
fn waitpid_any_reaps_the_first_exited_child() {
    let mut children = vec![child(3, false, 0), child(4, true, 17), child(5, true, -3)];
    assert_eq!(sys_waitpid(&mut children, -1), (4, Some(17)));
    assert_eq!(sys_waitpid(&mut children, -1), (5, Some(-3)));
    assert_eq!(sys_waitpid(&mut children, -1), (-2, None));
    assert_eq!(children, vec![child(3, false, 0)]);
}

#[test]
fn spawn_adds_a_running_child() {
    let mut children = vec![child(3, true, 1)];
    assert_eq!(sys_spawn(&mut children, Some(8)), 8);
    assert_eq!(children, vec![child(3, true, 1), child(8, false, 0)]);
    assert_eq!(sys_waitpid(&mut children, 8), (-2, None));
    assert_eq!(sys_spawn(&mut children, None), -1);
    assert_eq!(children.len(), 2);
}

#[test]
fn time_val_splits_microseconds() {
    let tv = TimeVal::from_us(3_500_000);
    assert_eq!((tv.sec, tv.usec), (3, 500_000));
    let tv = TimeVal::from_us(999_999);
    assert_eq!((tv.sec, tv.usec), (0, 999_999));
    let tv = TimeVal::from_us(1_000_000);
    assert_eq!((tv.sec, tv.usec), (1, 0));
}

fn expected_bytes(us: usize) -> Vec<u8> {
    let mut v = Vec::new();
    v.extend_from_slice(&((us / 1_000_000) as u64).to_le_bytes());
    v.extend_from_slice(&((us % 1_000_000) as u64).to_le_bytes());
    v
}

#[test]
fn time_val_bytes_are_two_little_endian_words() {
    let tv = TimeVal::from_us(0x1234_5678_9abc);
    assert_eq!(tv.to_bytes(), expected_bytes(0x1234_5678_9abc));
    let tv = TimeVal { sec: 0x0102_0304_0506_0708, usec: 0xff };
    assert_eq!(
        tv.to_bytes(),
        vec![8, 7, 6, 5, 4, 3, 2, 1, 0xff, 0, 0, 0, 0, 0, 0, 0]
    );
}

#[test]
fn get_time_fills_one_piece() {
    let us = 12_345_678_901;
    let mut buffer = vec![vec![0xaau8; 16]];
    assert_eq!(sys_get_time(us, &mut buffer), 0);
    assert_eq!(buffer[0], expected_bytes(us));
}

#[test]
fn get_time_fills_a_value_split_across_pages() {
    let us = 7_000_042;
    let mut buffer = vec![vec![0u8; 5], vec![0u8; 11]];
    assert_eq!(sys_get_time(us, &mut buffer), 0);
    let bytes = expected_bytes(us);
    assert_eq!(buffer[0], bytes[..5].to_vec());
    assert_eq!(buffer[1], bytes[5..].to_vec());
}

#[test]
fn get_time_leaves_bytes_past_the_value_alone() {
    let us = 1;
    let mut buffer = vec![vec![0xeeu8; 10], vec![0xeeu8; 10], vec![0xeeu8; 4]];
    assert_eq!(sys_get_time(us, &mut buffer), 0);
    let bytes = expected_bytes(us);
    assert_eq!(buffer[0], bytes[..10].to_vec());
    assert_eq!(&buffer[1][..6], &bytes[10..]);
    assert_eq!(&buffer[1][6..], &[0xee; 4]);
    assert_eq!(buffer[2], vec![0xee; 4]);
}

#[test]
fn get_time_stops_at_an_empty_piece() {
    let us = 2_000_000;
    let mut buffer = vec![vec![0u8; 3], vec![], vec![0x55u8; 20]];
    assert_eq!(sys_get_time(us, &mut buffer), 0);
    let bytes = expected_bytes(us);
    assert_eq!(buffer[0], bytes[..3].to_vec());
    assert!(buffer[1].is_empty());
    assert_eq!(buffer[2], vec![0x55u8; 20]);
}

#[test]
fn get_time_with_too_small_a_buffer_writes_what_fits() {
    let us = 5_000_001;
    let mut buffer = vec![vec![0u8; 4], vec![0u8; 4]];
    assert_eq!(sys_get_time(us, &mut buffer), 0);
    let bytes = expected_bytes(us);
    assert_eq!(buffer[0], bytes[..4].to_vec());
    assert_eq!(buffer[1], bytes[4..8].to_vec());
}
