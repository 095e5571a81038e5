//! Process management syscalls
//!
//! Each handler here takes, as plain values, what it reads of the current
//! task and of the kernel, and returns the value the syscall hands back to
//! user space. Reading user memory, the clock and the file system, creating
//! tasks and switching between them stay with the kernel around it.
use vstd::prelude::*;
use crate::memory::{
    AddressSpace, PageTableEntry, PAGE_SIZE, PTE_V, is_page_aligned, vpn_floor, vpn_ceil, range_mapped, range_unmapped,
    set_range, floor, ceil, aligned, MAP_PERM_R, MAP_PERM_W, MAP_PERM_X, MAP_PERM_U,
};

verus! {

// ---------------------------------------------------------------------------
// Task-level syscalls
// ---------------------------------------------------------------------------

/// The saved user registers of a task's trap context.
#[derive(Clone, Copy, Debug)]
pub struct TrapContext {
    /// general registers x0..x31
    pub x: [usize; 32],
}

/// yield: the scheduler switches away from the caller; once it runs again
/// the call returns 0.
pub fn sys_yield() -> (ret: isize)
    ensures
        ret == 0,
{
    0
}

/// getpid: the caller's pid, as the syscall's return value.
pub fn sys_getpid(pid: usize) -> (ret: isize)
    ensures
        ret == pid as isize,
{
    pid as isize
}

/// fork, once the child `new_pid` exists as a copy of the caller: the
/// child sees 0 in `a0` (x10) when it first runs, and the parent gets the
/// child's pid.
pub fn sys_fork(child_trap_cx: &mut TrapContext, new_pid: usize) -> (ret: isize)
    ensures
        final(child_trap_cx).x@ == old(child_trap_cx).x@.update(10, 0),
        ret == new_pid as isize,
{
    child_trap_cx.x[10] = 0;
    new_pid as isize
}

/// exec: 0 when the named program was found (and the caller now runs it),
/// -1 when no file has that name.
pub fn sys_exec(app_found: bool) -> (ret: isize)
    ensures
        ret == (if app_found {
            0int
        } else {
            -1int
        }),
{
    if app_found {
        0
    } else {
        -1
    }
}

/// sbrk: the program break before the change, or -1 when the task could
/// not move its break.
pub fn sys_sbrk(old_brk: Option<usize>) -> (ret: isize)
    ensures
        ret == match old_brk {
            Some(brk) => brk as isize,
            None => -1isize,
        },
{
    if let Some(brk) = old_brk {
        brk as isize
    } else {
        -1
    }
}

/// set_priority: a priority below 2 is refused with -1; otherwise it
/// becomes the task's stride pass and is returned.
pub fn sys_set_priority(pass: &mut usize, prio: isize) -> (ret: isize)
    ensures
        prio < 2 ==> ret == -1 && *final(pass) == *old(pass),
        prio >= 2 ==> ret == prio && *final(pass) == prio as usize,
{
    if prio < 2 {
        return -1;
    }
    *pass = prio as usize;
    prio
}

// ---------------------------------------------------------------------------
// Children: spawn and waitpid
// ---------------------------------------------------------------------------

/// What `waitpid` reads of a child task.
#[derive(Clone, Copy, Debug, PartialEq, Eq, Structural)]
pub struct ChildTask {
    pub pid: usize,
    /// The child has exited and waits to be reaped.
    pub zombie: bool,
    pub exit_code: i32,
}

/// `pid` selects the child `child_pid`: -1 selects every child.
pub open spec fn pid_selects(pid: isize, child_pid: usize) -> bool {
    pid == -1 || pid as usize == child_pid
}

/// Some child is selected by `pid`.
pub open spec fn has_selected_child(children: Seq<ChildTask>, pid: isize) -> bool {
    exists|i: int| 0 <= i < children.len() && pid_selects(pid, #[trigger] children[i].pid)
}

/// Child `i` is selected by `pid` and has exited.
pub open spec fn reapable(children: Seq<ChildTask>, pid: isize, i: int) -> bool {
    0 <= i < children.len() && children[i].zombie && pid_selects(pid, children[i].pid)
}

/// Child `i` is the first child that `waitpid(pid)` can reap.
pub open spec fn first_reapable(children: Seq<ChildTask>, pid: isize, i: int) -> bool {
    &&& reapable(children, pid, i)
    &&& forall|j: int| 0 <= j < i ==> !reapable(children, pid, j)
}

/// The result of `waitpid(pid)` on the list `children`: the children
/// left, the value returned, and the exit code written back to the caller.
pub open spec fn waitpid_result(children: Seq<ChildTask>, pid: isize) -> (
    Seq<ChildTask>,
    isize,
    Option<i32>,
) {
    if !has_selected_child(children, pid) {
        (children, -1isize, None)
    } else if exists|i: int| first_reapable(children, pid, i) {
        let i = choose|i: int| first_reapable(children, pid, i);
        (children.remove(i), children[i].pid as isize, Some(children[i].exit_code))
    } else {
        (children, -2isize, None)
    }
}

/// waitpid: -1 when no child is selected by `pid`, -2 when the selected
/// children are all still running; otherwise the first selected child that
/// has exited is removed from `children`, and its pid is returned together
/// with the exit code to write to the caller's `exit_code_ptr`.
pub fn sys_waitpid(children: &mut Vec<ChildTask>, pid: isize) -> (ret: (isize, Option<i32>))
    ensures
        (final(children)@, ret.0, ret.1) == waitpid_result(old(children)@, pid),
        !has_selected_child(old(children)@, pid) ==> ret == (-1isize, None::<i32>)
            && final(children)@ == old(children)@,
        has_selected_child(old(children)@, pid) && (forall|i: int|
            !#[trigger] reapable(old(children)@, pid, i)) ==> ret == (-2isize, None::<i32>)
            && final(children)@ == old(children)@,
        forall|i: int|
            #[trigger] first_reapable(old(children)@, pid, i) ==> ret == (
                old(children)@[i].pid as isize,
                Some(old(children)@[i].exit_code),
            ) && final(children)@ == old(children)@.remove(i),
{
    let mut i: usize = 0;
    let mut any: bool = false;
    while i < children.len()
        invariant
            i <= children.len(),
            any ==> exists|j: int| 0 <= j < i && pid_selects(pid, #[trigger] children@[j].pid),
            !any ==> forall|j: int| 0 <= j < i ==> !pid_selects(pid, #[trigger] children@[j].pid),
        decreases children.len() - i,
    {
        if pid == -1 || pid as usize == children[i].pid {
            assert(pid_selects(pid, children@[i as int].pid));
            any = true;
        }
        i = i + 1;
    }
    if !any {
        return (-1, None);
    }
    let mut k: usize = 0;
    let mut found: Option<usize> = None;
    while k < children.len()
        invariant_except_break
            found is None,
        invariant
            k <= children.len(),
            forall|j: int| 0 <= j < k ==> !reapable(children@, pid, j),
        ensures
            match found {
                Some(idx) => idx == k && first_reapable(children@, pid, idx as int),
                None => k == children.len(),
            },
        decreases children.len() - k,
    {
        if children[k].zombie && (pid == -1 || pid as usize == children[k].pid) {
            found = Some(k);
            break ;
        }
        k = k + 1;
    }
    match found {
        Some(idx) => {
            let ghost before = children@;
            proof {
                lemma_first_reapable_unique(before, pid, idx as int);
            }
            let child = children.remove(idx);
            (child.pid as isize, Some(child.exit_code))
        },
        None => {
            assert(!exists|i: int| first_reapable(children@, pid, i));
            (-2, None)
        },
    }
}

proof fn lemma_first_reapable_unique(children: Seq<ChildTask>, pid: isize, i: int)
    requires
        first_reapable(children, pid, i),
    ensures
        (choose|j: int| first_reapable(children, pid, j)) == i,
{
    let j = choose|j: int| first_reapable(children, pid, j);
    assert(first_reapable(children, pid, j));
    if j < i {
        assert(!reapable(children, pid, j));
    } else if i < j {
        assert(!reapable(children, pid, i));
    }
}

/// spawn: when the program was found and a task `new_pid` was created from
/// it, the new task joins the caller's children, still running, and its
/// pid is returned; -1 when no file has that name.
pub fn sys_spawn(children: &mut Vec<ChildTask>, new_pid: Option<usize>) -> (ret: isize)
    ensures
        match new_pid {
            Some(pid) => {
                &&& final(children)@ == old(children)@.push(
                    ChildTask { pid, zombie: false, exit_code: 0 },
                )
                &&& ret == pid as isize
            },
            None => final(children)@ == old(children)@ && ret == -1,
        },
{
    match new_pid {
        Some(pid) => {
            children.push(ChildTask { pid, zombie: false, exit_code: 0 });
            pid as isize
        },
        None => -1,
    }
}

/// A child that was just spawned is running: waiting for it by its pid
/// reports -2 and reaps nothing, provided no other child has that pid.
pub proof fn lemma_wait_for_fresh_child_reports_running(children: Seq<ChildTask>, new_pid: usize)
    requires
        new_pid <= isize::MAX,
        forall|i: int| 0 <= i < children.len() ==> (#[trigger] children[i]).pid != new_pid,
    ensures
        ({
            let after = children.push(ChildTask { pid: new_pid, zombie: false, exit_code: 0 });
            waitpid_result(after, new_pid as isize) == (after, -2isize, None::<i32>)
        }),
{
    let after = children.push(ChildTask { pid: new_pid, zombie: false, exit_code: 0 });
    assert(pid_selects(new_pid as isize, after[children.len() as int].pid));
    assert(has_selected_child(after, new_pid as isize));
    assert forall|i: int| !#[trigger] first_reapable(after, new_pid as isize, i) by {
        if 0 <= i < children.len() {
            assert(after[i] == children[i]);
        }
    }
}

/// A reaped child is gone: once `waitpid(pid)` for a specific pid has
/// reaped it, waiting for that pid again reports -1, provided the children
/// had distinct pids.
pub proof fn lemma_reaped_child_is_gone(children: Seq<ChildTask>, pid: isize)
    requires
        pid >= 0,
        forall|i: int, j: int|
            0 <= i < j < children.len() ==> (#[trigger] children[i]).pid != (#[trigger] children[j]).pid,
        waitpid_result(children, pid).1 >= 0,
    ensures
        waitpid_result(waitpid_result(children, pid).0, pid).1 == -1,
{
    let i = choose|i: int| first_reapable(children, pid, i);
    let rest = children.remove(i);
    assert forall|j: int| 0 <= j < rest.len() implies !pid_selects(pid, #[trigger] rest[j].pid) by {
        if j < i {
            assert(rest[j] == children[j]);
        } else {
            assert(rest[j] == children[j + 1]);
        }
    }
}

// ---------------------------------------------------------------------------
// get_time
// ---------------------------------------------------------------------------

/// Seconds and microseconds, laid out as two machine words.
#[derive(Clone, Copy, Debug)]
pub struct TimeVal {
    pub sec: usize,
    pub usec: usize,
}

/// The `n` low bytes of `x`, least significant first.
pub open spec fn le_bytes(x: nat, n: nat) -> Seq<u8>
    decreases n,
{
    if n == 0 {
        Seq::empty()
    } else {
        seq![(x % 256) as u8] + le_bytes(x / 256, (n - 1) as nat)
    }
}

impl TimeVal {
    /// The bytes of a `TimeVal` in the kernel's memory: each field as a
    /// 64-bit little-endian word, seconds first.
    pub open spec fn bytes(self) -> Seq<u8> {
        le_bytes(self.sec as nat, 8) + le_bytes(self.usec as nat, 8)
    }

    /// The time `us` microseconds after boot, split into whole seconds and
    /// the microseconds past the last second.
    pub fn from_us(us: usize) -> (tv: TimeVal)
        ensures
            tv.sec == us / 1_000_000,
            tv.usec == us % 1_000_000,
            tv.sec * 1_000_000 + tv.usec == us,
            tv.usec < 1_000_000,
            tv == TimeVal::from_us_spec(us),
    {
        TimeVal { sec: us / 1_000_000, usec: us % 1_000_000 }
    }

    /// The value's bytes as they lie in memory.
    pub fn to_bytes(&self) -> (bytes: Vec<u8>)
        ensures
            bytes@ == self.bytes(),
    {
        let mut bytes: Vec<u8> = Vec::new();
        push_le_bytes(&mut bytes, self.sec);
        push_le_bytes(&mut bytes, self.usec);
        assert(bytes@ =~= self.bytes());
        bytes
    }
}

fn push_le_bytes(out: &mut Vec<u8>, x: usize)
    ensures
        final(out)@ == old(out)@ + le_bytes(x as nat, 8),
{
    let mut v: u64 = x as u64;
    let mut n: u64 = 0;
    while n < 8
        invariant
            n <= 8,
            old(out)@ + le_bytes(x as nat, 8) == out@ + le_bytes(v as nat, (8 - n) as nat),
        decreases 8 - n,
    {
        let ghost before = out@;
        let ghost v0 = v;
        out.push((v % 256) as u8);
        v = v / 256;
        n = n + 1;
        proof {
            assert(le_bytes(v0 as nat, (8 - n + 1) as nat) == seq![(v0 % 256) as u8] + le_bytes(
                v as nat,
                (8 - n) as nat,
            ));
            assert(before + (seq![(v0 % 256) as u8] + le_bytes(v as nat, (8 - n) as nat))
                =~= out@ + le_bytes(v as nat, (8 - n) as nat));
        }
    }
    assert(out@ + le_bytes(v as nat, 0) =~= out@);
}

/// `src` written into the page pieces `chunks` in order: each piece gets
/// as many of the remaining bytes as fit at its start, and the copy stops
/// at the first piece that gets none or once every byte is written.
pub open spec fn copy_into_chunks(src: Seq<u8>, chunks: Seq<Seq<u8>>) -> Seq<Seq<u8>>
    decreases chunks.len(),
{
    if chunks.len() == 0 {
        chunks
    } else {
        let chunk = chunks[0];
        let k = if src.len() < chunk.len() {
            src.len()
        } else {
            chunk.len()
        };
        if k == 0 {
            chunks
        } else {
            let written = src.take(k as int) + chunk.skip(k as int);
            if k >= src.len() {
                seq![written] + chunks.drop_first()
            } else {
                seq![written] + copy_into_chunks(src.skip(k as int), chunks.drop_first())
            }
        }
    }
}

/// get_time, with `us` the microseconds since boot and `buffer` the
/// caller's `ts` buffer as the pieces it spans in kernel memory: the
/// `TimeVal` for `us` is written across the pieces, and 0 is returned.
pub fn sys_get_time(us: usize, buffer: &mut Vec<Vec<u8>>) -> (ret: isize)
    ensures
        final(buffer).deep_view() == copy_into_chunks(
            TimeVal::from_us_spec(us).bytes(),
            old(buffer).deep_view(),
        ),
        ret == 0,
{
    let tv = TimeVal::from_us(us);
    let tv_bytes = tv.to_bytes();
    proof {
        lemma_le_bytes_len(tv.sec as nat, 8);
        lemma_le_bytes_len(tv.usec as nat, 8);
    }
    let ghost src = tv_bytes@;
    let ghost original = buffer.deep_view();
    let ghost mut done = false;
    assert(src.skip(0) =~= src);
    assert(original.skip(0) =~= original);
    assert(buffer.deep_view().take(0) + copy_into_chunks(src, original) =~= copy_into_chunks(
        src,
        original,
    ));
    let mut offset: usize = 0;
    let mut i: usize = 0;
    while i < buffer.len()
        invariant_except_break
            !done,
            offset < src.len(),
            copy_into_chunks(src, original) == buffer.deep_view().take(i as int) + copy_into_chunks(
                src.skip(offset as int),
                original.skip(i as int),
            ),
        invariant
            tv_bytes@ == src,
            src.len() == 16,
            i <= buffer.len(),
            buffer.len() == original.len(),
            buffer.deep_view().skip(i as int) == original.skip(i as int),
            done ==> buffer.deep_view() == copy_into_chunks(src, original),
        ensures
            done ==> buffer.deep_view() == copy_into_chunks(src, original),
            !done ==> i == buffer.len() && copy_into_chunks(src, original) == buffer.deep_view().take(
                i as int,
            ) + copy_into_chunks(src.skip(offset as int), original.skip(i as int)),
        decreases buffer.len() - i,
    {
        let chunk_len = buffer[i].len();
        let remaining = tv_bytes.len() - offset;
        let copy_len = if remaining < chunk_len {
            remaining
        } else {
            chunk_len
        };
        let ghost rest_src = src.skip(offset as int);
        let ghost rest_chunks = original.skip(i as int);
        let ghost dv = buffer.deep_view();
        assert(dv[i as int] =~= buffer@[i as int]@);
        assert(dv.skip(i as int)[0] == dv[i as int]);
        assert(rest_chunks[0] == dv[i as int]);
        if copy_len == 0 {
            proof {
                done = true;
            }
            assert(dv =~= dv.take(i as int) + rest_chunks);
            break ;
        }
        let mut written: Vec<u8> = Vec::new();
        let mut j: usize = 0;
        while j < chunk_len
            invariant
                j <= chunk_len,
                chunk_len == buffer@[i as int]@.len(),
                copy_len <= chunk_len,
                tv_bytes@.len() == 16,
                offset + copy_len <= tv_bytes@.len(),
                i < buffer.len(),
                written@.len() == j,
                forall|t: int|
                    0 <= t < j ==> #[trigger] written@[t] == if t < copy_len {
                        tv_bytes@[offset + t]
                    } else {
                        buffer@[i as int]@[t]
                    },
            decreases chunk_len - j,
        {
            if j < copy_len {
                assert(offset + j < tv_bytes@.len());
                written.push(tv_bytes[offset + j]);
            } else {
                written.push(buffer[i][j]);
            }
            j = j + 1;
        }
        let ghost w = written@;
        assert(written.deep_view() =~= w);
        assert(w =~= rest_src.take(copy_len as int) + rest_chunks[0].skip(copy_len as int));
        buffer.set(i, written);
        assert(buffer.deep_view() =~= dv.update(i as int, w));
        offset = offset + copy_len;
        i = i + 1;
        assert(buffer.deep_view().take(i as int) =~= dv.take(i - 1).push(w));
        assert forall|k: int| 0 <= k < original.len() - i implies #[trigger] buffer.deep_view().skip(
            i as int,
        )[k] == original.skip(i as int)[k] by {
            assert(dv.skip(i - 1)[k + 1] == original.skip(i - 1)[k + 1]);
        }
        assert(buffer.deep_view().skip(i as int) =~= original.skip(i as int));
        assert(rest_chunks.drop_first() =~= original.skip(i as int));
        if offset >= tv_bytes.len() {
            proof {
                done = true;
            }
            assert(dv.take(i - 1) + (seq![w] + original.skip(i as int)) =~= buffer.deep_view());
            break ;
        }
        assert(rest_src.skip(copy_len as int) =~= src.skip(offset as int));
        let ghost rest = copy_into_chunks(src.skip(offset as int), original.skip(i as int));
        assert(dv.take(i - 1) + (seq![w] + rest) =~= buffer.deep_view().take(i as int) + rest);
    }
    proof {
        if !done {
            assert(original.skip(i as int) =~= Seq::<Seq<u8>>::empty());
            assert(buffer.deep_view().take(i as int) =~= buffer.deep_view());
            assert(buffer.deep_view().take(i as int) + Seq::<Seq<u8>>::empty()
                =~= buffer.deep_view());
        }
    }
    0
}

proof fn lemma_le_bytes_len(x: nat, n: nat)
    ensures
        le_bytes(x, n).len() == n,
    decreases n,
{
    if n > 0 {
        lemma_le_bytes_len(x / 256, (n - 1) as nat);
    }
}

/// The number whose little-endian bytes are `bytes`.
pub open spec fn le_value(bytes: Seq<u8>) -> nat
    decreases bytes.len(),
{
    if bytes.len() == 0 {
        0
    } else {
        bytes[0] as nat + 256 * le_value(bytes.drop_first())
    }
}

/// The first number that does not fit in `n` bytes.
pub open spec fn byte_bound(n: nat) -> nat
    decreases n,
{
    if n == 0 {
        1
    } else {
        256 * byte_bound((n - 1) as nat)
    }
}

/// Reading `n` little-endian bytes back gives the number they were taken
/// from, when it fits in `n` bytes.
pub proof fn lemma_le_bytes_round_trip(x: nat, n: nat)
    requires
        x < byte_bound(n),
    ensures
        le_bytes(x, n).len() == n,
        le_value(le_bytes(x, n)) == x,
    decreases n,
{
    lemma_le_bytes_len(x, n);
    if n > 0 {
        let p = byte_bound((n - 1) as nat);
        assert(x / 256 < p) by (nonlinear_arith)
            requires
                x < 256 * p,
        ;
        lemma_le_bytes_round_trip(x / 256, (n - 1) as nat);
        let b = le_bytes(x, n);
        assert(b.drop_first() =~= le_bytes(x / 256, (n - 1) as nat));
        assert((x % 256) as u8 as nat == x % 256);
    } else {
        assert(x == 0);
    }
}

/// The bytes of a `TimeVal` hold its two fields: the first eight read back
/// as the seconds, the last eight as the microseconds.
pub proof fn lemma_time_val_bytes_hold_its_fields(tv: TimeVal)
    ensures
        tv.bytes().len() == 16,
        le_value(tv.bytes().take(8)) == tv.sec,
        le_value(tv.bytes().skip(8)) == tv.usec,
{
    reveal_with_fuel(byte_bound, 9);
    assert(byte_bound(8) == 0x1_0000_0000_0000_0000);
    lemma_le_bytes_round_trip(tv.sec as nat, 8);
    lemma_le_bytes_round_trip(tv.usec as nat, 8);
    assert(tv.bytes().take(8) =~= le_bytes(tv.sec as nat, 8));
    assert(tv.bytes().skip(8) =~= le_bytes(tv.usec as nat, 8));
}

/// Copying never changes how many pieces there are or how long each is.
pub proof fn lemma_copy_keeps_piece_lengths(src: Seq<u8>, chunks: Seq<Seq<u8>>)
    ensures
        copy_into_chunks(src, chunks).len() == chunks.len(),
        forall|i: int|
            0 <= i < chunks.len() ==> (#[trigger] copy_into_chunks(src, chunks)[i]).len()
                == chunks[i].len(),
    decreases chunks.len(),
{
    if chunks.len() > 0 {
        let chunk = chunks[0];
        let k = if src.len() < chunk.len() {
            src.len()
        } else {
            chunk.len()
        };
        if k > 0 && k < src.len() {
            lemma_copy_keeps_piece_lengths(src.skip(k as int), chunks.drop_first());
            let result = copy_into_chunks(src, chunks);
            assert forall|i: int| 0 <= i < chunks.len() implies (#[trigger] result[i]).len()
                == chunks[i].len() by {
                if i > 0 {
                    assert(result[i] == copy_into_chunks(src.skip(k as int), chunks.drop_first())[i
                        - 1]);
                }
            }
        }
    }
}

/// Every byte is written, in order: when the pieces are long enough for
/// `src` and none of them that starts before the end of `src` is empty,
/// the pieces read in order start with `src`, and every byte after it is
/// as it was.
pub proof fn lemma_copy_writes_every_byte(src: Seq<u8>, chunks: Seq<Seq<u8>>)
    requires
        chunks.flatten().len() >= src.len(),
        forall|i: int|
            0 <= i < chunks.len() && chunks.take(i).flatten().len() < src.len() ==> (
            #[trigger] chunks[i]).len() > 0,
    ensures
        copy_into_chunks(src, chunks).flatten() == src + chunks.flatten().skip(src.len() as int),
    decreases chunks.len(),
{
    if chunks.len() == 0 {
        assert(src =~= Seq::<u8>::empty());
        assert(src + chunks.flatten().skip(0) =~= chunks.flatten());
    } else if src.len() == 0 {
        assert(src + chunks.flatten().skip(0) =~= chunks.flatten());
    } else {
        let chunk = chunks[0];
        let rest = chunks.drop_first();
        assert(chunks.take(0) =~= Seq::<Seq<u8>>::empty());
        assert(chunk.len() > 0);
        assert(chunks.flatten() == chunk + rest.flatten());
        if src.len() <= chunk.len() {
            let k = src.len();
            let written = src.take(k as int) + chunk.skip(k as int);
            let result = copy_into_chunks(src, chunks);
            assert(result == seq![written] + rest);
            assert((seq![written] + rest).drop_first() =~= rest);
            assert(result.flatten() == written + rest.flatten());
            assert(src.take(k as int) =~= src);
            assert((chunk + rest.flatten()).skip(k as int) =~= chunk.skip(k as int) + rest.flatten());
            assert(written + rest.flatten() =~= src + (chunk + rest.flatten()).skip(k as int));
        } else {
            let k = chunk.len();
            let tail = src.skip(k as int);
            assert forall|i: int|
                0 <= i < rest.len() && rest.take(i).flatten().len() < tail.len() implies (
                #[trigger] rest[i]).len() > 0 by {
                let t = chunks.take(i + 1);
                assert(t.drop_first() =~= rest.take(i));
                assert(t.flatten() == chunk + rest.take(i).flatten());
                assert(chunks[i + 1] == rest[i]);
            }
            lemma_copy_writes_every_byte(tail, rest);
            let written = src.take(k as int) + chunk.skip(k as int);
            let result = copy_into_chunks(src, chunks);
            let rest_result = copy_into_chunks(tail, rest);
            assert(result == seq![written] + rest_result);
            assert((seq![written] + rest_result).drop_first() =~= rest_result);
            assert(result.flatten() == written + rest_result.flatten());
            assert(chunk.skip(k as int) =~= Seq::<u8>::empty());
            assert(src.take(k as int) + (tail + rest.flatten().skip(tail.len() as int)) =~= src + (
            chunk + rest.flatten()).skip(src.len() as int));
            assert(written + rest_result.flatten() =~= src.take(k as int) + (tail + rest.flatten().skip(
                tail.len() as int,
            )));
        }
    }
}

/// The copy stops at an empty piece: if piece `i` is empty and starts
/// before the end of `src`, piece `i` and every piece after it are left
/// as they were.
pub proof fn lemma_copy_stops_at_empty_piece(src: Seq<u8>, chunks: Seq<Seq<u8>>, i: int)
    requires
        0 <= i < chunks.len(),
        chunks[i].len() == 0,
        chunks.take(i).flatten().len() < src.len(),
    ensures
        copy_into_chunks(src, chunks).skip(i) == chunks.skip(i),
    decreases chunks.len(),
{
    let chunk = chunks[0];
    let rest = chunks.drop_first();
    if i > 0 {
        let t = chunks.take(i);
        assert(t.drop_first() =~= rest.take(i - 1));
        assert(t.flatten() == chunk + rest.take(i - 1).flatten());
        let k = chunk.len();
        if k > 0 {
            lemma_copy_stops_at_empty_piece(src.skip(k as int), rest, i - 1);
            let result = copy_into_chunks(src, chunks);
            let rest_result = copy_into_chunks(src.skip(k as int), rest);
            assert(result == seq![src.take(k as int) + chunk.skip(k as int)] + rest_result);
            lemma_copy_keeps_piece_lengths(src, chunks);
            assert(result.drop_first() =~= rest_result);
            assert(result.skip(i) =~= result.drop_first().skip(i - 1));
            assert(chunks.skip(i) =~= rest.skip(i - 1));
        }
    }
}

/// get_time writes the whole value: when the caller's pieces hold at
/// least sixteen bytes and none of them that starts before the sixteenth
/// byte is empty, the pieces read in order start with the seconds and the
/// microseconds for `us` (little-endian words), and nothing after them is
/// touched.
pub proof fn lemma_get_time_writes_whole_value(us: usize, chunks: Seq<Seq<u8>>)
    requires
        chunks.flatten().len() >= 16,
        forall|i: int|
            0 <= i < chunks.len() && chunks.take(i).flatten().len() < 16 ==> (
            #[trigger] chunks[i]).len() > 0,
    ensures
        ({
            let written = copy_into_chunks(TimeVal::from_us_spec(us).bytes(), chunks).flatten();
            &&& le_value(written.take(8)) == us / 1_000_000
            &&& le_value(written.subrange(8, 16)) == us % 1_000_000
            &&& written.skip(16) == chunks.flatten().skip(16)
        }),
{
    let tv = TimeVal::from_us_spec(us);
    lemma_time_val_bytes_hold_its_fields(tv);
    lemma_copy_writes_every_byte(tv.bytes(), chunks);
    let written = copy_into_chunks(tv.bytes(), chunks).flatten();
    assert(written.take(8) =~= tv.bytes().take(8));
    assert(written.subrange(8, 16) =~= tv.bytes().skip(8));
    assert(written.skip(16) =~= chunks.flatten().skip(16));
}

impl TimeVal {
    /// What `from_us` returns.
    pub open spec fn from_us_spec(us: usize) -> TimeVal {
        TimeVal { sec: us / 1_000_000, usec: us % 1_000_000 }
    }
}

// ---------------------------------------------------------------------------
// mmap and munmap
// ---------------------------------------------------------------------------

/// `prot` asks for a mapping `mmap` accepts: only the read (1), write (2)
/// and execute (4) bits, at least one of them, and never write without
/// read.
pub open spec fn prot_is_valid(prot: usize) -> bool {
    1 <= prot <= 7 && prot != 2 && prot != 6
}

/// The flags of a page that `mmap` maps with `prot`: the prot bits moved
/// up one place (read 2, write 4, execute 8), plus user (16) and valid (1).
pub open spec fn mmap_pte_flags(prot: usize) -> u8 {
    (2 * prot + 17) as u8
}

/// The last byte of the range, plus one.
pub open spec fn range_end(start: usize, len: usize) -> usize {
    (start + len) as usize
}

/// `mmap(start, len, prot)` succeeds on `entries`.
pub open spec fn mmap_succeeds(
    entries: Map<usize, PageTableEntry>,
    start: usize,
    len: usize,
    prot: usize,
) -> bool {
    &&& prot_is_valid(prot)
    &&& is_page_aligned(start)
    &&& range_unmapped(entries, vpn_floor(start), vpn_ceil(range_end(start, len)))
}

/// The entries after `mmap(start, len, prot)`, and its return value.
pub open spec fn mmap_result(
    entries: Map<usize, PageTableEntry>,
    start: usize,
    len: usize,
    prot: usize,
) -> (Map<usize, PageTableEntry>, isize) {
    if mmap_succeeds(entries, start, len, prot) {
        (
            set_range(
                entries,
                vpn_floor(start),
                vpn_ceil(range_end(start, len)),
                PageTableEntry { flags: mmap_pte_flags(prot) },
            ),
            0,
        )
    } else {
        (entries, -1isize)
    }
}

/// `munmap(start, len)` succeeds on `entries`.
pub open spec fn munmap_succeeds(entries: Map<usize, PageTableEntry>, start: usize, len: usize) -> bool {
    &&& is_page_aligned(start)
    &&& range_mapped(entries, vpn_floor(start), vpn_ceil(range_end(start, len)))
}

/// The entries after `munmap(start, len)`, and its return value.
pub open spec fn munmap_result(entries: Map<usize, PageTableEntry>, start: usize, len: usize) -> (
    Map<usize, PageTableEntry>,
    isize,
) {
    if munmap_succeeds(entries, start, len) {
        (
            set_range(
                entries,
                vpn_floor(start),
                vpn_ceil(range_end(start, len)),
                PageTableEntry { flags: 0 },
            ),
            0,
        )
    } else {
        (entries, -1isize)
    }
}

/// mmap: map the pages that `[start, start + len)` touches, with the
/// access `prot` asks for. -1, with nothing mapped, when `prot` is not
/// accepted, `start` is not page aligned, or a page of the range is
/// already mapped; 0 otherwise.
pub fn sys_mmap(space: &mut AddressSpace, start: usize, len: usize, prot: usize) -> (ret: isize)
    requires
        prot_is_valid(prot) && is_page_aligned(start) ==> start + len <= usize::MAX,
    ensures
        (final(space).entries(), ret) == mmap_result(old(space).entries(), start, len, prot),
{
    assert((prot & !0x7usize != 0 || prot & 0x7usize == 0 || ((prot & 0x2usize) != 0 && (prot
        & 0x1usize) == 0)) <==> !(1 <= prot <= 7 && prot != 2 && prot != 6)) by (bit_vector);
    if prot & !0x7 != 0 || prot & 0x7 == 0 {
        return -1;
    }
    if (prot & 0x2) != 0 && (prot & 0x1) == 0 {
        return -1;
    }
    if !aligned(start) {
        return -1;
    }
    assert((prot & 1usize != 0) == (prot % 2 == 1)) by (bit_vector)
        requires
            prot <= 7,
    ;
    assert((prot & 2usize != 0) == ((prot / 2) % 2 == 1)) by (bit_vector)
        requires
            prot <= 7,
    ;
    assert((prot & 4usize != 0) == (prot / 4 == 1)) by (bit_vector)
        requires
            prot <= 7,
    ;
    let r: u8 = if prot & 0x1 != 0 {
        MAP_PERM_R
    } else {
        0
    };
    let w: u8 = if prot & 0x2 != 0 {
        MAP_PERM_W
    } else {
        0
    };
    let x: u8 = if prot & 0x4 != 0 {
        MAP_PERM_X
    } else {
        0
    };
    let permission: u8 = MAP_PERM_U | r | w | x;
    assert(((16u8 | r | w | x) | 1u8) == 17u8 + r + w + x) by (bit_vector)
        requires
            r == 0 || r == 2,
            w == 0 || w == 4,
            x == 0 || x == 8,
    ;
    assert(r + w + x == 2 * prot);
    let end_va = start + len;
    let start_vpn = floor(start);
    let end_vpn = ceil(end_va);
    let mut vpn = start_vpn;
    while vpn < end_vpn
        invariant
            start_vpn <= vpn,
            vpn <= end_vpn || vpn == start_vpn,
            start_vpn == vpn_floor(start),
            end_vpn == vpn_ceil(range_end(start, len)),
            range_unmapped(space.entries(), start_vpn as int, vpn as int),
        decreases end_vpn - vpn,
    {
        if let Some(pte) = space.translate(vpn) {
            if pte.is_valid() {
                assert(!range_unmapped(space.entries(), start_vpn as int, end_vpn as int));
                return -1;
            }
        }
        vpn = vpn + 1;
    }
    space.insert_framed_area(start, end_va, permission);
    0
}

/// munmap: unmap the pages that `[start, start + len)` touches. -1, with
/// nothing changed, when `start` is not page aligned or a page of the
/// range is not mapped; 0 otherwise.
pub fn sys_munmap(space: &mut AddressSpace, start: usize, len: usize) -> (ret: isize)
    requires
        is_page_aligned(start) ==> start + len <= usize::MAX,
    ensures
        (final(space).entries(), ret) == munmap_result(old(space).entries(), start, len),
{
    if !aligned(start) {
        return -1;
    }
    let end_va = start + len;
    let start_vpn = floor(start);
    let end_vpn = ceil(end_va);
    let mut vpn = start_vpn;
    while vpn < end_vpn
        invariant
            start_vpn <= vpn,
            vpn <= end_vpn || vpn == start_vpn,
            start_vpn == vpn_floor(start),
            end_vpn == vpn_ceil(range_end(start, len)),
            range_mapped(space.entries(), start_vpn as int, vpn as int),
        decreases end_vpn - vpn,
    {
        if let Some(pte) = space.translate(vpn) {
            if !pte.is_valid() {
                assert(!space.entries()[vpn].valid());
                assert(!range_mapped(space.entries(), start_vpn as int, end_vpn as int));
                return -1;
            }
            assert(space.entries().contains_key(vpn) && space.entries()[vpn].valid());
            assert forall|v: usize| start_vpn <= v < vpn + 1 implies #[trigger] space.entries().contains_key(
                v,
            ) && space.entries()[v].valid() by {
                if v < vpn {
                    assert(space.entries().contains_key(v));
                }
            }
        } else {
            assert(!(space.entries().contains_key(vpn) && space.entries()[vpn].valid()));
            assert(!range_mapped(space.entries(), start_vpn as int, end_vpn as int));
            return -1;
        }
        let ghost prev = vpn;
        vpn = vpn + 1;
        assert(range_mapped(space.entries(), start_vpn as int, vpn as int));
    }
    space.munmap_vpn_range(start_vpn, end_vpn);
    0
}

/// A non-empty range starting on a page boundary covers at least its
/// first page.
proof fn lemma_range_covers_first_page(start: usize, len: usize)
    requires
        is_page_aligned(start),
        len > 0,
        start + len <= usize::MAX,
    ensures
        vpn_floor(start) < vpn_ceil(range_end(start, len)),
        0 <= vpn_floor(start) <= usize::MAX,
{
    assert(start as int == (start as int / 4096) * 4096) by (nonlinear_arith)
        requires
            start as int % 4096 == 0,
    ;
    assert((start as int + len + 4095) / 4096 >= start as int / 4096 + 1) by (nonlinear_arith)
        requires
            start as int == (start as int / 4096) * 4096,
            len >= 1,
    ;
}

/// munmap undoes mmap: right after `mmap(start, len, prot)` succeeds,
/// `munmap(start, len)` succeeds too; afterwards no page of the range is
/// mapped, every other entry is as it was before the `mmap`, and the range
/// can be mapped again with any accepted `prot`.
pub proof fn lemma_munmap_undoes_mmap(
    entries: Map<usize, PageTableEntry>,
    start: usize,
    len: usize,
    prot: usize,
    prot_again: usize,
)
    requires
        start + len <= usize::MAX,
        mmap_result(entries, start, len, prot).1 == 0,
        prot_is_valid(prot_again),
    ensures
        ({
            let lo = vpn_floor(start);
            let hi = vpn_ceil(range_end(start, len));
            let mapped = mmap_result(entries, start, len, prot).0;
            let unmapped = munmap_result(mapped, start, len);
            &&& unmapped.1 == 0
            &&& unmapped.0 == set_range(entries, lo, hi, PageTableEntry { flags: 0 })
            &&& range_unmapped(unmapped.0, lo, hi)
            &&& mmap_result(unmapped.0, start, len, prot_again).1 == 0
            &&& forall|vpn: usize|
                (#[trigger] unmapped.0.contains_key(vpn) && unmapped.0[vpn].valid()) <==> (
                entries.contains_key(vpn) && entries[vpn].valid())
        }),
{
    let lo = vpn_floor(start);
    let hi = vpn_ceil(range_end(start, len));
    let pte = PageTableEntry { flags: mmap_pte_flags(prot) };
    let mapped = mmap_result(entries, start, len, prot).0;
    assert(range_mapped(mapped, lo, hi));
    let empty = PageTableEntry { flags: 0 };
    let unmapped = munmap_result(mapped, start, len).0;
    assert(unmapped =~= set_range(entries, lo, hi, empty));
    assert(range_unmapped(unmapped, lo, hi));
    assert forall|vpn: usize|
        (#[trigger] unmapped.contains_key(vpn) && unmapped[vpn].valid()) <==> (
        entries.contains_key(vpn) && entries[vpn].valid()) by {
        if lo <= vpn < hi {
            assert(!(entries.contains_key(vpn) && entries[vpn].valid()));
        }
    }
}

/// A mapped range cannot be mapped again: right after a non-empty
/// `mmap(start, len, prot)` succeeds, any `mmap` of the same range fails
/// and changes nothing.
pub proof fn lemma_mmap_over_mapped_range_fails(
    entries: Map<usize, PageTableEntry>,
    start: usize,
    len: usize,
    prot: usize,
    prot_again: usize,
)
    requires
        start + len <= usize::MAX,
        len > 0,
        mmap_result(entries, start, len, prot).1 == 0,
    ensures
        ({
            let mapped = mmap_result(entries, start, len, prot).0;
            mmap_result(mapped, start, len, prot_again) == (mapped, -1isize)
        }),
{
    let lo = vpn_floor(start);
    let mapped = mmap_result(entries, start, len, prot).0;
    lemma_range_covers_first_page(start, len);
    let first = lo as usize;
    assert(mapped.contains_key(first) && mapped[first].valid());
}

/// No page is mapped twice: right after a non-empty `mmap(start, len,
/// prot)` succeeds, any `mmap` whose page range shares a page with the
/// pages it mapped (the two ranges' larger start lies below both ends)
/// fails and changes nothing, whatever its `prot`.
pub proof fn lemma_mmap_over_intersecting_range_fails(
    entries: Map<usize, PageTableEntry>,
    start: usize,
    len: usize,
    prot: usize,
    start_again: usize,
    len_again: usize,
    prot_again: usize,
)
    requires
        start + len <= usize::MAX,
        start_again + len_again <= usize::MAX,
        len > 0,
        mmap_result(entries, start, len, prot).1 == 0,
        vpn_floor(start) < vpn_ceil(range_end(start_again, len_again)),
        vpn_floor(start_again) < vpn_ceil(range_end(start, len)),
        vpn_floor(start_again) < vpn_ceil(range_end(start_again, len_again)),
    ensures
        ({
            let mapped = mmap_result(entries, start, len, prot).0;
            mmap_result(mapped, start_again, len_again, prot_again) == (mapped, -1isize)
        }),
{
    let lo = vpn_floor(start);
    let lo_again = vpn_floor(start_again);
    let mapped = mmap_result(entries, start, len, prot).0;
    lemma_range_covers_first_page(start, len);
    let shared = if lo < lo_again {
        lo_again as usize
    } else {
        lo as usize
    };
    assert(mapped.contains_key(shared) && mapped[shared].valid());
}

/// An unmapped range cannot be unmapped again: right after a non-empty
/// `munmap(start, len)` succeeds, a second one fails and changes nothing.
pub proof fn lemma_munmap_twice_fails(entries: Map<usize, PageTableEntry>, start: usize, len: usize)
    requires
        start + len <= usize::MAX,
        len > 0,
        munmap_result(entries, start, len).1 == 0,
    ensures
        ({
            let unmapped = munmap_result(entries, start, len).0;
            munmap_result(unmapped, start, len) == (unmapped, -1isize)
        }),
{
    let lo = vpn_floor(start);
    let unmapped = munmap_result(entries, start, len).0;
    lemma_range_covers_first_page(start, len);
    let first = lo as usize;
    assert(unmapped.contains_key(first) && !unmapped[first].valid());
}

/// munmap checks every page of the range: if any page that
/// `[start, start + len)` touches has no valid entry, munmap fails and
/// changes nothing.
pub proof fn lemma_munmap_fails_on_any_unmapped_page(
    entries: Map<usize, PageTableEntry>,
    start: usize,
    len: usize,
    vpn: usize,
)
    requires
        vpn_floor(start) <= vpn < vpn_ceil(range_end(start, len)),
        !(entries.contains_key(vpn) && entries[vpn].valid()),
    ensures
        munmap_result(entries, start, len) == (entries, -1isize),
{
    assert(!range_mapped(entries, vpn_floor(start), vpn_ceil(range_end(start, len)))) by {
        assert(!(entries.contains_key(vpn) && entries[vpn].valid()));
    }
}

/// munmap fails on an unaligned start and changes nothing.
pub proof fn lemma_munmap_fails_on_unaligned_start(
    entries: Map<usize, PageTableEntry>,
    start: usize,
    len: usize,
)
    requires
        start % PAGE_SIZE != 0,
    ensures
        munmap_result(entries, start, len) == (entries, -1isize),
{
}

/// What a successful munmap did: the start was aligned, every page of the
/// range was mapped and now has an empty entry, and every other entry is
/// as it was. Conversely, an aligned range whose pages are all mapped is
/// unmapped successfully.
pub proof fn lemma_munmap_success(entries: Map<usize, PageTableEntry>, start: usize, len: usize)
    ensures
        munmap_result(entries, start, len).1 == 0 <==> (start % PAGE_SIZE == 0 && forall|vpn: usize|
            vpn_floor(start) <= vpn < vpn_ceil(range_end(start, len)) ==> (
            #[trigger] entries.contains_key(vpn) && entries[vpn].valid())),
        munmap_result(entries, start, len).1 == 0 ==> {
            let after = munmap_result(entries, start, len).0;
            &&& forall|vpn: usize|
                vpn_floor(start) <= vpn < vpn_ceil(range_end(start, len)) ==> (
                #[trigger] after.contains_key(vpn) && after[vpn].flags == 0)
            &&& forall|vpn: usize|
                !(vpn_floor(start) <= vpn < vpn_ceil(range_end(start, len))) ==> (
                #[trigger] after.contains_key(vpn) == entries.contains_key(vpn) && (
                entries.contains_key(vpn) ==> after[vpn] == entries[vpn]))
        },
        munmap_result(entries, start, len).1 != 0 ==> munmap_result(entries, start, len) == (
            entries,
            -1isize,
        ),
{
}

/// mmap maps no page twice: if any page that `[start, start + len)`
/// touches already has a valid entry, mmap fails and changes nothing.
pub proof fn lemma_mmap_fails_on_any_mapped_page(
    entries: Map<usize, PageTableEntry>,
    start: usize,
    len: usize,
    prot: usize,
    vpn: usize,
)
    requires
        vpn_floor(start) <= vpn < vpn_ceil(range_end(start, len)),
        entries.contains_key(vpn) && entries[vpn].valid(),
    ensures
        mmap_result(entries, start, len, prot) == (entries, -1isize),
{
    assert(!range_unmapped(entries, vpn_floor(start), vpn_ceil(range_end(start, len)))) by {
        assert(entries.contains_key(vpn) && entries[vpn].valid());
    }
}

/// mmap refuses, changing nothing, a `prot` with a bit above the three
/// access bits, a `prot` with none of them, write without read, and an
/// unaligned start.
pub proof fn lemma_mmap_refusals(
    entries: Map<usize, PageTableEntry>,
    start: usize,
    len: usize,
    prot: usize,
)
    requires
        prot & !7usize != 0 || prot & 7usize == 0 || (prot & 2usize != 0 && prot & 1usize == 0)
            || start % PAGE_SIZE != 0,
    ensures
        mmap_result(entries, start, len, prot) == (entries, -1isize),
{
    assert((prot & !0x7usize != 0 || prot & 0x7usize == 0 || ((prot & 0x2usize) != 0 && (prot
        & 0x1usize) == 0)) <==> !(1 <= prot <= 7 && prot != 2 && prot != 6)) by (bit_vector);
}

/// What a successful mmap did, and when it succeeds: it succeeds exactly
/// when the start is aligned, `prot` has only access bits, at least one,
/// and not write without read, and no page of the range is mapped. Then
/// every page of the range is mapped, user-accessible, readable,
/// writable and executable exactly as `prot`'s bits 0, 1 and 2 ask, with
/// no other flag; every other entry is as it was.
pub proof fn lemma_mmap_success(
    entries: Map<usize, PageTableEntry>,
    start: usize,
    len: usize,
    prot: usize,
)
    ensures
        mmap_result(entries, start, len, prot).1 == 0 <==> {
            &&& start % PAGE_SIZE == 0
            &&& prot & !7usize == 0
            &&& prot & 7usize != 0
            &&& !(prot & 2usize != 0 && prot & 1usize == 0)
            &&& forall|vpn: usize|
                vpn_floor(start) <= vpn < vpn_ceil(range_end(start, len)) ==> !(
                #[trigger] entries.contains_key(vpn) && entries[vpn].valid())
        },
        mmap_result(entries, start, len, prot).1 == 0 ==> {
            let after = mmap_result(entries, start, len, prot).0;
            &&& forall|vpn: usize|
                vpn_floor(start) <= vpn < vpn_ceil(range_end(start, len)) ==> {
                    let f = after[vpn].flags;
                    &&& #[trigger] after.contains_key(vpn)
                    &&& f & PTE_V == PTE_V
                    &&& f & MAP_PERM_U == MAP_PERM_U
                    &&& (f & MAP_PERM_R == MAP_PERM_R) == (prot & 1usize == 1usize)
                    &&& (f & MAP_PERM_W == MAP_PERM_W) == (prot & 2usize == 2usize)
                    &&& (f & MAP_PERM_X == MAP_PERM_X) == (prot & 4usize == 4usize)
                    &&& f < 32
                }
            &&& forall|vpn: usize|
                !(vpn_floor(start) <= vpn < vpn_ceil(range_end(start, len))) ==> (
                #[trigger] after.contains_key(vpn) == entries.contains_key(vpn) && (
                entries.contains_key(vpn) ==> after[vpn] == entries[vpn]))
        },
        mmap_result(entries, start, len, prot).1 != 0 ==> mmap_result(entries, start, len, prot) == (
            entries,
            -1isize,
        ),
{
    assert((prot & !0x7usize != 0 || prot & 0x7usize == 0 || ((prot & 0x2usize) != 0 && (prot
        & 0x1usize) == 0)) <==> !(1 <= prot <= 7 && prot != 2 && prot != 6)) by (bit_vector);
    if mmap_result(entries, start, len, prot).1 == 0 {
        let f = mmap_pte_flags(prot);
        let p = prot as u8;
        assert(f == 2 * p + 17);
        assert((prot & 1usize == 1usize) == (p & 1u8 == 1u8)) by (bit_vector)
            requires
                prot <= 7,
                p == prot as u8,
        ;
        assert((prot & 2usize == 2usize) == (p & 2u8 == 2u8)) by (bit_vector)
            requires
                prot <= 7,
                p == prot as u8,
        ;
        assert((prot & 4usize == 4usize) == (p & 4u8 == 4u8)) by (bit_vector)
            requires
                prot <= 7,
                p == prot as u8,
        ;
        assert({
            &&& f & 1u8 == 1u8
            &&& f & 16u8 == 16u8
            &&& (f & 2u8 == 2u8) == (p & 1u8 == 1u8)
            &&& (f & 4u8 == 4u8) == (p & 2u8 == 2u8)
            &&& (f & 8u8 == 8u8) == (p & 4u8 == 4u8)
            &&& f < 32
        }) by (bit_vector)
            requires
                p <= 7,
                f == 2 * p + 17,
        ;
    }
}

} // verus!
