use rcore::id::RecycleAllocator;
use rcore::process::{ProcessControlBlock, STDIN, STDOUT};

fn spawn(pids: &mut RecycleAllocator, token: usize, task: usize) -> ProcessControlBlock {
    ProcessControlBlock::new(pids, &mut Vec::new(), token, task, 0, 0, 0, 0, 0).0
}

fn process_with_threads(n: usize) -> ProcessControlBlock {
    let mut p = spawn(&mut RecycleAllocator::new(), 0x8000_0000_0000_1234, 100);
    let inner = p.inner_exclusive_access();
    for k in 1..n {
        let tid = inner.alloc_tid();
        assert_eq!(tid, k);
        inner.tasks.push(Some(100 + k));
    }
    p
}

#[test]
fn new_process_has_standard_fds_and_main_thread() {
    let mut pids = RecycleAllocator::new();
    pids.allocate();
    pids.allocate();
    let mut p = spawn(&mut pids, 42, 9);
    assert_eq!(p.getpid(), 2);
    let inner = p.inner_exclusive_access();
    assert_eq!(inner.fd_table, vec![Some(STDIN), Some(STDOUT), Some(STDOUT)]);
    assert_eq!(inner.tasks, vec![Some(9)]);
    assert_eq!(inner.thread_count(), 1);
    assert_eq!(inner.get_task(0), 9);
    assert_eq!(inner.get_user_token(), 42);
    assert!(!inner.is_zombie);
    assert_eq!(inner.exit_code, 0);
    assert_eq!(inner.parent, None);
    assert!(inner.children.is_empty());
    assert!(!inner.deadlock_detection_enabled);
}

#[test]
fn alloc_fd_appends_when_table_is_full() {
    let mut p = spawn(&mut RecycleAllocator::new(), 0, 0);
    let inner = p.inner_exclusive_access();
    assert_eq!(inner.alloc_fd(), 3);
    assert_eq!(inner.fd_table.len(), 4);
    assert_eq!(inner.fd_table[3], None);
    // The new slot is still free until a file is put there.
    assert_eq!(inner.alloc_fd(), 3);
    assert_eq!(inner.fd_table.len(), 4);
}

#[test]
fn alloc_fd_reuses_lowest_free_slot() {
    let mut p = spawn(&mut RecycleAllocator::new(), 0, 0);
    let inner = p.inner_exclusive_access();
    inner.fd_table.push(Some(5));
    inner.fd_table.push(None);
    inner.fd_table[1] = None;
    assert_eq!(inner.alloc_fd(), 1);
    assert_eq!(inner.fd_table, vec![Some(STDIN), None, Some(STDOUT), Some(5), None]);
    inner.fd_table[1] = Some(8);
    assert_eq!(inner.alloc_fd(), 4);
}

#[test]
fn thread_ids_are_recycled_last_in_first_out() {
    let mut p = spawn(&mut RecycleAllocator::new(), 0, 0);
    let inner = p.inner_exclusive_access();
    assert_eq!(inner.alloc_tid(), 1);
    assert_eq!(inner.alloc_tid(), 2);
    assert_eq!(inner.alloc_tid(), 3);
    inner.dealloc_tid(1);
    inner.dealloc_tid(3);
    assert_eq!(inner.alloc_tid(), 3);
    assert_eq!(inner.alloc_tid(), 1);
    assert_eq!(inner.alloc_tid(), 4);
}

#[test]
fn dealloc_then_alloc_gives_the_same_tid_back() {
    let mut p = spawn(&mut RecycleAllocator::new(), 0, 0);
    let inner = p.inner_exclusive_access();
    let t = inner.alloc_tid();
    inner.dealloc_tid(t);
    assert_eq!(inner.alloc_tid(), t);
}

#[test]
fn fork_copies_descriptors_and_records_child() {
    let mut pids = RecycleAllocator::new();
    let mut parent = spawn(&mut pids, 1, 5);
    assert_eq!(parent.getpid(), 0);
    parent.inner_exclusive_access().fd_table.push(Some(77));
    parent.inner_exclusive_access().fd_table[0] = None;
    parent.inner_exclusive_access().exit_code = 3;
    let mut ready = vec![5];
    let mut child = parent.fork(&mut pids, &mut ready, 2, 6);
    assert_eq!(ready, vec![5, 6]);
    assert_eq!(child.getpid(), 1);
    let parent_fds = parent.inner_exclusive_access().fd_table.clone();
    assert_eq!(parent.inner_exclusive_access().children, vec![1]);
    assert_eq!(parent.inner_exclusive_access().exit_code, 3);
    let c = child.inner_exclusive_access();
    assert_eq!(c.fd_table, parent_fds);
    assert_eq!(c.fd_table, vec![None, Some(STDOUT), Some(STDOUT), Some(77)]);
    assert_eq!(c.parent, Some(0));
    assert_eq!(c.tasks, vec![Some(6)]);
    assert_eq!(c.get_user_token(), 2);
    assert_eq!(c.exit_code, 0);
    assert_eq!(c.alloc_tid(), 1);
}

#[test]
fn exec_lays_out_arguments_on_user_stack() {
    let mut p = spawn(&mut RecycleAllocator::new(), 5, 0);
    let args = vec![String::from("ab"), String::from("c")];
    let full = p.exec(99, 0x1000, 0x10_000, 0x8000_0000, 0x5000, 0x9000, &args);
    let img = &full.stack;
    assert_eq!(p.inner_exclusive_access().get_user_token(), 99);
    let w = core::mem::size_of::<usize>();
    assert_eq!(img.argc, 2);
    assert_eq!(img.argv_base, 0x1000 - 3 * w);
    let s0 = img.argv_base - 3;
    let s1 = s0 - 2;
    assert_eq!(
        img.argv_words,
        vec![(img.argv_base + 2 * w, 0), (img.argv_base, s0), (img.argv_base + w, s1)]
    );
    assert_eq!(
        img.string_bytes,
        vec![(s0, b'a'), (s0 + 1, b'b'), (s0 + 2, 0), (s1, b'c'), (s1 + 1, 0)]
    );
    assert_eq!(img.user_sp, s1 - s1 % w);
    assert_eq!(img.user_sp % w, 0);
    if w == 8 {
        assert_eq!(img.argv_base, 0xfe8);
        assert_eq!(img.user_sp, 0xfe0);
    }
    let e = &full.entry;
    assert_eq!(e.entry_point, 0x10_000);
    assert_eq!(e.user_sp, img.user_sp);
    assert_eq!(e.argc, 2);
    assert_eq!(e.argv, img.argv_base);
    assert_eq!(e.kernel_satp, 0x8000_0000);
    assert_eq!(e.kernel_sp, 0x5000);
    assert_eq!(e.trap_handler, 0x9000);
}

#[test]
fn exec_without_arguments() {
    let mut p = spawn(&mut RecycleAllocator::new(), 5, 0);
    let img = p.exec(6, 0x2000, 0, 0, 0, 0, &Vec::new()).stack;
    let w = core::mem::size_of::<usize>();
    assert_eq!(img.argc, 0);
    assert_eq!(img.argv_base, 0x2000 - w);
    assert_eq!(img.argv_words, vec![(0x2000 - w, 0)]);
    assert!(img.string_bytes.is_empty());
    assert_eq!(img.user_sp, 0x2000 - w);
}

#[test]
fn exec_keeps_every_write_inside_the_stack() {
    let mut p = spawn(&mut RecycleAllocator::new(), 5, 0);
    let args = vec![String::from("hello"), String::from(""), String::from("wörld")];
    let top = 0x4000;
    let img = p.exec(6, top, 0, 0, 0, 0, &args).stack;
    let w = core::mem::size_of::<usize>();
    for (addr, _) in &img.string_bytes {
        assert!(img.user_sp <= *addr && *addr < img.argv_base);
    }
    for (addr, _) in &img.argv_words {
        assert!(img.argv_base <= *addr && *addr + w <= top);
    }
    // "wörld" is six bytes in UTF-8.
    assert_eq!(img.string_bytes.len(), 6 + 1 + 7);
}

#[test]
fn vec_sync_is_a_no_op_when_detection_is_off() {
    let mut p = process_with_threads(2);
    p.inner_exclusive_access().mutex_list.push(Some(1));
    p.vec_sync();
    let inner = p.inner_exclusive_access();
    assert!(inner.mutex_allocation.is_empty());
    assert!(inner.mutex_work.is_empty());
}

#[test]
fn vec_sync_grows_matrices_to_threads_and_resources() {
    let mut p = process_with_threads(3);
    {
        let inner = p.inner_exclusive_access();
        inner.deadlock_detection_enabled = true;
        inner.mutex_list.push(Some(1));
        inner.mutex_list.push(Some(2));
        inner.semaphore_list.push(Some(3));
        inner.mutex_allocation.push(vec![4]);
    }
    p.vec_sync();
    let inner = p.inner_exclusive_access();
    assert_eq!(inner.mutex_allocation, vec![vec![4, 0], vec![0, 0], vec![0, 0]]);
    assert_eq!(inner.mutex_need, vec![vec![0, 0]; 3]);
    assert_eq!(inner.mutex_work, vec![0, 0]);
    assert_eq!(inner.sem_allocation, vec![vec![0]; 3]);
    assert_eq!(inner.sem_need, vec![vec![0]; 3]);
    assert_eq!(inner.sem_work, vec![0]);
}

#[test]
fn vec_sync_twice_changes_nothing() {
    let mut p = process_with_threads(2);
    {
        let inner = p.inner_exclusive_access();
        inner.deadlock_detection_enabled = true;
        inner.semaphore_list.push(Some(3));
        inner.sem_need.push(vec![1, 2, 3]);
    }
    p.vec_sync();
    let once = p.inner_exclusive_access().sem_need.clone();
    p.vec_sync();
    assert_eq!(p.inner_exclusive_access().sem_need, once);
    assert_eq!(once, vec![vec![1, 2, 3], vec![0]]);
}

#[test]
fn new_mutex_and_semaphore_set_available_counts() {
    let mut p = process_with_threads(2);
    {
        let inner = p.inner_exclusive_access();
        inner.deadlock_detection_enabled = true;
        inner.mutex_list.push(Some(1));
        inner.semaphore_list.push(Some(1));
        inner.semaphore_list.push(Some(2));
    }
    p.new_mutex(0);
    p.new_semaphore(1, 5);
    let inner = p.inner_exclusive_access();
    assert_eq!(inner.mutex_work, vec![1]);
    assert_eq!(inner.sem_work, vec![0, 5]);
    assert_eq!(inner.mutex_need.len(), 2);
}

#[test]
fn new_mutex_without_detection_only_syncs_nothing() {
    let mut p = process_with_threads(1);
    p.inner_exclusive_access().mutex_list.push(Some(1));
    p.new_mutex(0);
    p.new_semaphore(0, 3);
    let inner = p.inner_exclusive_access();
    assert!(inner.mutex_work.is_empty());
    assert!(inner.sem_work.is_empty());
}

#[test]
fn thread_vec_clear_zeroes_one_thread() {
    let mut p = process_with_threads(2);
    {
        let inner = p.inner_exclusive_access();
        inner.deadlock_detection_enabled = true;
        inner.mutex_allocation = vec![vec![1, 2], vec![3, 4]];
        inner.mutex_need = vec![vec![5, 6], vec![7, 8]];
        inner.sem_allocation = vec![vec![9], vec![10]];
        inner.sem_need = vec![vec![11], vec![12]];
    }
    p.thread_vec_clear(1);
    let inner = p.inner_exclusive_access();
    assert_eq!(inner.mutex_allocation, vec![vec![1, 2], vec![0, 0]]);
    assert_eq!(inner.mutex_need, vec![vec![5, 6], vec![0, 0]]);
    assert_eq!(inner.sem_allocation, vec![vec![9], vec![0]]);
    assert_eq!(inner.sem_need, vec![vec![11], vec![0]]);
}

#[test]
fn is_safe_state_checks_mutexes_or_semaphores() {
    let mut p = process_with_threads(2);
    {
        let inner = p.inner_exclusive_access();
        inner.deadlock_detection_enabled = true;
        inner.mutex_list = vec![Some(1), Some(2)];
        inner.semaphore_list = vec![Some(3)];
        // Each thread holds one mutex and wants the other: deadlock.
        inner.mutex_work = vec![0, 0];
        inner.mutex_allocation = vec![vec![1, 0], vec![0, 1]];
        inner.mutex_need = vec![vec![0, 1], vec![1, 0]];
        // One semaphore unit is free; thread 0 needs it, then gives two back.
        inner.sem_work = vec![1];
        inner.sem_allocation = vec![vec![2], vec![0]];
        inner.sem_need = vec![vec![1], vec![3]];
    }
    let inner = p.inner_exclusive_access();
    assert!(!inner.is_safe_state(1));
    assert!(inner.is_safe_state(2));
    assert!(inner.is_safe_state(0));
}

#[test]
fn is_safe_state_ignores_exited_threads() {
    let mut p = process_with_threads(2);
    let inner = p.inner_exclusive_access();
    inner.mutex_list = vec![Some(1)];
    inner.mutex_work = vec![0];
    inner.mutex_allocation = vec![vec![0], vec![1]];
    inner.mutex_need = vec![vec![1], vec![1]];
    assert!(!inner.is_safe_state(1));
    // Once thread 1 is gone its need no longer counts, but neither does what it held.
    inner.tasks[1] = None;
    assert!(!inner.is_safe_state(1));
    inner.mutex_work = vec![1];
    assert!(inner.is_safe_state(1));
}

#[test]
fn fork_gives_child_a_fresh_pid() {
    let mut pids = RecycleAllocator::new();
    let mut parent = spawn(&mut pids, 1, 5);
    let other = spawn(&mut pids, 1, 5);
    pids.deallocate(other.getpid());
    let child = parent.fork(&mut pids, &mut Vec::new(), 2, 6);
    assert_ne!(child.getpid(), parent.getpid());
    assert_eq!(child.getpid(), other.getpid());
}

#[test]
fn alloc_fd_twice_without_filling_gives_same_fd() {
    let mut p = spawn(&mut RecycleAllocator::new(), 0, 0);
    let inner = p.inner_exclusive_access();
    inner.fd_table[2] = None;
    let a = inner.alloc_fd();
    let table = inner.fd_table.clone();
    assert_eq!(inner.alloc_fd(), a);
    assert_eq!(inner.fd_table, table);
}

#[test]
fn alloc_then_dealloc_tid_restores() {
    let mut p = spawn(&mut RecycleAllocator::new(), 0, 0);
    let inner = p.inner_exclusive_access();
    let t = inner.alloc_tid();
    inner.dealloc_tid(t);
    assert_eq!(inner.alloc_tid(), t);
    assert_eq!(inner.alloc_tid(), t + 1);
}

#[test]
fn safety_check_modes_read_their_own_data() {
    let mut p = spawn(&mut RecycleAllocator::new(), 0, 0);
    let inner = p.inner_exclusive_access();
    inner.mutex_list = vec![Some(1)];
    inner.semaphore_list = vec![Some(1)];
    inner.mutex_work = vec![0];
    inner.mutex_need = vec![vec![1]];
    inner.mutex_allocation = vec![vec![0]];
    inner.sem_work = vec![1];
    inner.sem_need = vec![vec![1]];
    inner.sem_allocation = vec![vec![0]];
    assert!(!inner.is_safe_state(1));
    assert!(inner.is_safe_state(0));
    assert!(inner.is_safe_state(-3));
    inner.mutex_work = vec![5];
    assert!(inner.is_safe_state(1));
}

#[test]
fn new_schedules_main_thread_and_gives_start_registers() {
    let mut pids = RecycleAllocator::new();
    let mut ready = vec![1, 2];
    let (mut p, e) =
        ProcessControlBlock::new(&mut pids, &mut ready, 7, 3, 0x1000, 0x8000, 0xabc, 0x9000, 0x42);
    assert_eq!(ready, vec![1, 2, 3]);
    assert_eq!(p.getpid(), 0);
    assert_eq!(p.inner_exclusive_access().tasks, vec![Some(3)]);
    assert_eq!(e.entry_point, 0x1000);
    assert_eq!(e.user_sp, 0x8000);
    assert_eq!(e.argc, 0);
    assert_eq!(e.argv, 0);
    assert_eq!(e.kernel_satp, 0xabc);
    assert_eq!(e.kernel_sp, 0x9000);
    assert_eq!(e.trap_handler, 0x42);
}
