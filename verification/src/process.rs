//! The process control block: file descriptors, threads, thread ids, and the
//! resource matrices behind deadlock avoidance.
//!
//! Kernel objects (open files, threads, locks, address spaces) are held here
//! by the handles under which the kernel keeps them.
use vstd::prelude::*;
use crate::banker::{banker_is_safe, banker_inputs_ok, safe_state};
use crate::id::RecycleAllocator;
use crate::user_stack::{
    argv_base_of, argv_writes, build_user_stack, final_sp, stack_fits, string_writes,
    UserStackImage,
};
use crate::matrix::{
    grow_matrix, grow_matrix_in_place, grow_row, grow_row_in_place, rows_of, zero_matrix_row,
    zeros,
};

verus! {

/// Handle of the standard input file.
pub const STDIN: usize = 0;

/// Handle of the standard output file; standard error writes there too.
pub const STDOUT: usize = 1;

/// Mutable state of a process.
pub struct ProcessControlBlockInner {
    /// Whether the process has exited and waits to be reaped.
    pub is_zombie: bool,
    /// Token (page-table root) of the process's address space.
    pub memory_set_token: usize,
    /// Pid of the parent process.
    pub parent: Option<usize>,
    /// Pids of the child processes.
    pub children: Vec<usize>,
    /// Exit code.
    pub exit_code: i32,
    /// File descriptor table: the open file behind each descriptor.
    pub fd_table: Vec<Option<usize>>,
    /// Pending signals, one bit each.
    pub signals: u32,
    /// The threads, indexed by thread id.
    pub tasks: Vec<Option<usize>>,
    /// Allocator of thread ids.
    pub task_res_allocator: RecycleAllocator,
    /// The mutexes, indexed by mutex id.
    pub mutex_list: Vec<Option<usize>>,
    /// The semaphores, indexed by semaphore id.
    pub semaphore_list: Vec<Option<usize>>,
    /// The condition variables, indexed by condition variable id.
    pub condvar_list: Vec<Option<usize>>,
    /// Whether lock requests are checked for deadlock.
    pub deadlock_detection_enabled: bool,
    /// Mutexes held, per thread and mutex.
    pub mutex_allocation: Vec<Vec<usize>>,
    /// Mutexes still needed, per thread and mutex.
    pub mutex_need: Vec<Vec<usize>>,
    /// Semaphore units held, per thread and semaphore.
    pub sem_allocation: Vec<Vec<usize>>,
    /// Semaphore units still needed, per thread and semaphore.
    pub sem_need: Vec<Vec<usize>>,
    /// Mutexes available, per mutex.
    pub mutex_work: Vec<usize>,
    /// Semaphore units available, per semaphore.
    pub sem_work: Vec<usize>,
}

/// The registers a program starts with after `exec`.
pub struct UserEntry {
    /// Where the program starts.
    pub entry_point: usize,
    /// The user stack pointer.
    pub user_sp: usize,
    /// First argument register: the number of arguments.
    pub argc: usize,
    /// Second argument register: the address of `argv`.
    pub argv: usize,
    /// Token of the kernel address space, for traps.
    pub kernel_satp: usize,
    /// Top of the thread's kernel stack, for traps.
    pub kernel_sp: usize,
    /// Address of the trap handler.
    pub trap_handler: usize,
}

/// What `exec` hands back: the writes to the new user stack and the
/// registers the program starts with.
pub struct ExecImage {
    pub stack: UserStackImage,
    pub entry: UserEntry,
}

/// A process: its pid and its mutable state.
pub struct ProcessControlBlock {
    pid: usize,
    inner: ProcessControlBlockInner,
}

/// The lowest free descriptor of `table`, or its length when all are taken.
pub open spec fn lowest_free_fd(table: Seq<Option<usize>>) -> int
    decreases table.len(),
{
    if table.len() == 0 {
        0
    } else if lowest_free_fd(table.drop_last()) < table.len() - 1 {
        lowest_free_fd(table.drop_last())
    } else if table.last() is None {
        table.len() - 1
    } else {
        table.len() as int
    }
}

/// `new` agrees with `old` on everything but the thread-id allocator.
pub open spec fn same_but_allocator(old: ProcessControlBlockInner, new: ProcessControlBlockInner) -> bool {
    new == (ProcessControlBlockInner { task_res_allocator: new.task_res_allocator, ..old })
}

/// `new` agrees with `old` on everything but the file descriptor table.
pub open spec fn same_but_fd_table(old: ProcessControlBlockInner, new: ProcessControlBlockInner) -> bool {
    new == (ProcessControlBlockInner { fd_table: new.fd_table, ..old })
}

/// `new` agrees with `old` on everything but the resource matrices and the
/// available vectors.
pub open spec fn same_but_matrices(old: ProcessControlBlockInner, new: ProcessControlBlockInner) -> bool {
    &&& new.is_zombie == old.is_zombie
    &&& new.memory_set_token == old.memory_set_token
    &&& new.parent == old.parent
    &&& new.children@ == old.children@
    &&& new.exit_code == old.exit_code
    &&& new.fd_table@ == old.fd_table@
    &&& new.signals == old.signals
    &&& new.tasks@ == old.tasks@
    &&& new.task_res_allocator == old.task_res_allocator
    &&& new.mutex_list@ == old.mutex_list@
    &&& new.semaphore_list@ == old.semaphore_list@
    &&& new.condvar_list@ == old.condvar_list@
    &&& new.deadlock_detection_enabled == old.deadlock_detection_enabled
}

/// `new` is `old` with the resource matrices grown to cover every thread and
/// every mutex and semaphore when deadlock detection is on, and with them
/// unchanged otherwise; the available vectors are not constrained.
pub open spec fn matrices_synced(old: ProcessControlBlockInner, new: ProcessControlBlockInner) -> bool {
    let n = old.tasks@.len();
    let mm = old.mutex_list@.len();
    let ms = old.semaphore_list@.len();
    &&& same_but_matrices(old, new)
    &&& if old.deadlock_detection_enabled {
        &&& rows_of(new.mutex_allocation@) == grow_matrix(rows_of(old.mutex_allocation@), n, mm)
        &&& rows_of(new.mutex_need@) == grow_matrix(rows_of(old.mutex_need@), n, mm)
        &&& rows_of(new.sem_allocation@) == grow_matrix(rows_of(old.sem_allocation@), n, ms)
        &&& rows_of(new.sem_need@) == grow_matrix(rows_of(old.sem_need@), n, ms)
    } else {
        &&& rows_of(new.mutex_allocation@) == rows_of(old.mutex_allocation@)
        &&& rows_of(new.mutex_need@) == rows_of(old.mutex_need@)
        &&& rows_of(new.sem_allocation@) == rows_of(old.sem_allocation@)
        &&& rows_of(new.sem_need@) == rows_of(old.sem_need@)
    }
}

/// The available mutexes after the matrices are synced.
pub open spec fn synced_mutex_work(old: ProcessControlBlockInner) -> Seq<usize> {
    if old.deadlock_detection_enabled {
        grow_row(old.mutex_work@, old.mutex_list@.len())
    } else {
        old.mutex_work@
    }
}

/// The available semaphore units after the matrices are synced.
pub open spec fn synced_sem_work(old: ProcessControlBlockInner) -> Seq<usize> {
    if old.deadlock_detection_enabled {
        grow_row(old.sem_work@, old.semaphore_list@.len())
    } else {
        old.sem_work@
    }
}

/// `new` is `old` with the resource matrices and the available vectors grown
/// to cover every thread and every mutex and semaphore, when deadlock
/// detection is on, and `old` unchanged otherwise.
pub open spec fn synced(old: ProcessControlBlockInner, new: ProcessControlBlockInner) -> bool {
    &&& matrices_synced(old, new)
    &&& new.mutex_work@ == synced_mutex_work(old)
    &&& new.sem_work@ == synced_sem_work(old)
}

impl ProcessControlBlockInner {
    /// The inputs of the deadlock check for mutexes (`mode == 1`) or
    /// semaphores (any other mode) have the shape the check needs.
    pub open spec fn safety_check_ready(self, mode: i32) -> bool {
        if mode == 1 {
            &&& self.mutex_work@.len() == self.mutex_list@.len()
            &&& banker_inputs_ok(self.tasks@, self.mutex_work@, self.mutex_need@, self.mutex_allocation@)
        } else {
            &&& self.sem_work@.len() == self.semaphore_list@.len()
            &&& banker_inputs_ok(self.tasks@, self.sem_work@, self.sem_need@, self.sem_allocation@)
        }
    }

    /// Whether the mutexes (`mode == 1`) or the semaphores (any other mode)
    /// are in a safe state.
    pub open spec fn safety_verdict(self, mode: i32) -> bool {
        if mode == 1 {
            safe_state(self.tasks@, self.mutex_work@, self.mutex_need@, self.mutex_allocation@)
        } else {
            safe_state(self.tasks@, self.sem_work@, self.sem_need@, self.sem_allocation@)
        }
    }

    /// Token of the process's address space.
    pub fn get_user_token(&self) -> (token: usize)
        ensures
            token == self.memory_set_token,
    {
        self.memory_set_token
    }

    /// Hands out the lowest free file descriptor, growing the table by an
    /// empty slot when every descriptor is taken.
    pub fn alloc_fd(&mut self) -> (fd: usize)
        requires
            old(self).fd_table.len() < usize::MAX,
        ensures
            fd == lowest_free_fd(old(self).fd_table@),
            forall|k: int| 0 <= k < fd ==> #[trigger] old(self).fd_table@[k] is Some,
            fd < old(self).fd_table.len() ==> old(self).fd_table@[fd as int] is None
                && final(self).fd_table@ == old(self).fd_table@,
            fd == old(self).fd_table.len() ==> final(self).fd_table@ == old(self).fd_table@.push(
                None,
            ),
            fd < final(self).fd_table.len(),
            final(self).fd_table@[fd as int] is None,
            same_but_fd_table(*old(self), *final(self)),
    {
        let mut fd: usize = 0;
        while fd < self.fd_table.len()
            invariant
                fd <= self.fd_table.len(),
                self.fd_table@ == old(self).fd_table@,
                forall|k: int| 0 <= k < fd ==> #[trigger] self.fd_table@[k] is Some,
            decreases self.fd_table.len() - fd,
        {
            if self.fd_table[fd].is_none() {
                proof {
                    lemma_lowest_free_fd(self.fd_table@, fd as int);
                }
                return fd;
            }
            fd = fd + 1;
        }
        proof {
            lemma_lowest_free_fd(self.fd_table@, self.fd_table@.len() as int);
        }
        self.fd_table.push(None);
        self.fd_table.len() - 1
    }

    /// Allocates a thread id.
    pub fn alloc_tid(&mut self) -> (tid: usize)
        requires
            old(self).task_res_allocator.spec_recycled().len() > 0
                || old(self).task_res_allocator.spec_current() < usize::MAX,
        ensures
            !old(self).task_res_allocator.allocated().contains(tid),
            final(self).task_res_allocator.allocated() == old(
                self,
            ).task_res_allocator.allocated().insert(tid),
            old(self).task_res_allocator.spec_recycled().len() > 0 ==> tid == old(
                self,
            ).task_res_allocator.spec_recycled().last(),
            old(self).task_res_allocator.spec_recycled().len() == 0 ==> tid == old(
                self,
            ).task_res_allocator.spec_current(),
            old(self).task_res_allocator.spec_recycled().len() > 0 ==> {
                &&& final(self).task_res_allocator.spec_recycled() == old(
                    self,
                ).task_res_allocator.spec_recycled().drop_last()
                &&& final(self).task_res_allocator.spec_current() == old(
                    self,
                ).task_res_allocator.spec_current()
            },
            old(self).task_res_allocator.spec_recycled().len() == 0 ==> {
                &&& final(self).task_res_allocator.spec_recycled() == old(
                    self,
                ).task_res_allocator.spec_recycled()
                &&& final(self).task_res_allocator.spec_current() == old(
                    self,
                ).task_res_allocator.spec_current() + 1
            },
            same_but_allocator(*old(self), *final(self)),
    {
        self.task_res_allocator.allocate()
    }

    /// Gives back thread id `tid`.
    pub fn dealloc_tid(&mut self, tid: usize)
        requires
            old(self).task_res_allocator.allocated().contains(tid),
        ensures
            final(self).task_res_allocator.allocated() == old(
                self,
            ).task_res_allocator.allocated().remove(tid),
            final(self).task_res_allocator.spec_recycled() == old(
                self,
            ).task_res_allocator.spec_recycled().push(tid),
            final(self).task_res_allocator.spec_current() == old(
                self,
            ).task_res_allocator.spec_current(),
            same_but_allocator(*old(self), *final(self)),
    {
        self.task_res_allocator.deallocate(tid)
    }

    /// The number of thread slots of the process.
    pub fn thread_count(&self) -> (n: usize)
        ensures
            n == self.tasks@.len(),
    {
        self.tasks.len()
    }

    /// The thread with id `tid`.
    pub fn get_task(&self, tid: usize) -> (task: usize)
        requires
            tid < self.tasks@.len(),
            self.tasks@[tid as int] is Some,
        ensures
            self.tasks@[tid as int] == Some(task),
    {
        *self.tasks[tid].as_ref().unwrap()
    }

    /// Whether the mutexes (`mode == 1`) or the semaphores (any other mode)
    /// are in a safe state: whether some order lets every thread obtain what
    /// it still needs and finish.
    pub fn is_safe_state(&self, mode: i32) -> (safe: bool)
        requires
            self.safety_check_ready(mode),
        ensures
            mode == 1 ==> safe == safe_state(
                self.tasks@,
                self.mutex_work@,
                self.mutex_need@,
                self.mutex_allocation@,
            ),
            mode != 1 ==> safe == safe_state(
                self.tasks@,
                self.sem_work@,
                self.sem_need@,
                self.sem_allocation@,
            ),
            safe == self.safety_verdict(mode),
    {
        if mode == 1 {
            banker_is_safe(&self.tasks, &self.mutex_work, &self.mutex_need, &self.mutex_allocation)
        } else {
            banker_is_safe(&self.tasks, &self.sem_work, &self.sem_need, &self.sem_allocation)
        }
    }

    /// Grows the resource matrices so that they cover every thread and every
    /// mutex and semaphore, when deadlock detection is on.
    pub fn sync_matrices(&mut self)
        ensures
            synced(*old(self), *final(self)),
    {
        if self.deadlock_detection_enabled {
            let n = self.tasks.len();
            let m_mutex = self.mutex_list.len();
            let m_sem = self.semaphore_list.len();
            grow_matrix_in_place(&mut self.mutex_allocation, n, m_mutex);
            grow_matrix_in_place(&mut self.mutex_need, n, m_mutex);
            grow_row_in_place(&mut self.mutex_work, m_mutex);
            grow_matrix_in_place(&mut self.sem_allocation, n, m_sem);
            grow_matrix_in_place(&mut self.sem_need, n, m_sem);
            grow_row_in_place(&mut self.sem_work, m_sem);
        }
    }
}

proof fn lemma_lowest_free_fd(table: Seq<Option<usize>>, fd: int)
    requires
        0 <= fd <= table.len(),
        forall|k: int| 0 <= k < fd ==> #[trigger] table[k] is Some,
        fd < table.len() ==> table[fd] is None,
    ensures
        lowest_free_fd(table) == fd,
    decreases table.len(),
{
    if table.len() > 0 {
        let pre = table.drop_last();
        if fd < table.len() - 1 {
            assert forall|k: int| 0 <= k < fd implies #[trigger] pre[k] is Some by {
                assert(pre[k] == table[k]);
            }
            assert(pre[fd] == table[fd]);
            lemma_lowest_free_fd(pre, fd);
        } else {
            assert forall|k: int| 0 <= k < pre.len() implies #[trigger] pre[k] is Some by {
                assert(pre[k] == table[k]);
            }
            lemma_lowest_free_fd(pre, pre.len() as int);
        }
    }
}

/// The state of a freshly made process: nothing but its address space, the
/// three standard descriptors and its main thread, whose id is 0.
pub open spec fn fresh_inner(
    inner: ProcessControlBlockInner,
    memory_set_token: usize,
    parent: Option<usize>,
    fd_table: Seq<Option<usize>>,
    main_task: usize,
) -> bool {
    &&& !inner.is_zombie
    &&& inner.memory_set_token == memory_set_token
    &&& inner.parent == parent
    &&& inner.children@ == Seq::<usize>::empty()
    &&& inner.exit_code == 0
    &&& inner.fd_table@ == fd_table
    &&& inner.signals == 0
    &&& inner.tasks@ == seq![Some(main_task)]
    &&& inner.task_res_allocator.spec_current() == 1
    &&& inner.task_res_allocator.spec_recycled() == Seq::<usize>::empty()
    &&& inner.task_res_allocator.allocated() == set![0usize]
    &&& inner.mutex_list@ == Seq::<Option<usize>>::empty()
    &&& inner.semaphore_list@ == Seq::<Option<usize>>::empty()
    &&& inner.condvar_list@ == Seq::<Option<usize>>::empty()
    &&& !inner.deadlock_detection_enabled
    &&& inner.mutex_allocation@ == Seq::<Vec<usize>>::empty()
    &&& inner.mutex_need@ == Seq::<Vec<usize>>::empty()
    &&& inner.sem_allocation@ == Seq::<Vec<usize>>::empty()
    &&& inner.sem_need@ == Seq::<Vec<usize>>::empty()
    &&& inner.mutex_work@ == Seq::<usize>::empty()
    &&& inner.sem_work@ == Seq::<usize>::empty()
}

/// The descriptor table a new program starts with: standard input, standard
/// output, and standard error writing to standard output.
pub open spec fn standard_fds() -> Seq<Option<usize>> {
    seq![Some(STDIN), Some(STDOUT), Some(STDOUT)]
}

/// Makes the state of a new process whose main thread is `main_task`.
fn fresh_state(
    memory_set_token: usize,
    parent: Option<usize>,
    fd_table: Vec<Option<usize>>,
    main_task: usize,
) -> (inner: ProcessControlBlockInner)
    ensures
        fresh_inner(inner, memory_set_token, parent, fd_table@, main_task),
{
    let mut inner = ProcessControlBlockInner {
        is_zombie: false,
        memory_set_token,
        parent,
        children: Vec::new(),
        exit_code: 0,
        fd_table,
        signals: 0,
        tasks: Vec::new(),
        task_res_allocator: RecycleAllocator::new(),
        mutex_list: Vec::new(),
        semaphore_list: Vec::new(),
        condvar_list: Vec::new(),
        deadlock_detection_enabled: false,
        mutex_allocation: Vec::new(),
        mutex_need: Vec::new(),
        sem_allocation: Vec::new(),
        sem_need: Vec::new(),
        mutex_work: Vec::new(),
        sem_work: Vec::new(),
    };
    let tid = inner.alloc_tid();
    inner.tasks.push(Some(main_task));
    proof {
        assert(tid == 0);
        assert(set![].insert(0usize) =~= set![0usize]);
        assert(inner.tasks@ =~= seq![Some(main_task)]);
    }
    inner
}

impl ProcessControlBlock {
    /// Process id.
    pub closed spec fn process_id(&self) -> usize {
        self.pid
    }

    /// The mutable state of the process.
    pub closed spec fn state(&self) -> ProcessControlBlockInner {
        self.inner
    }

    /// Exclusive access to the mutable state.
    pub fn inner_exclusive_access(&mut self) -> (inner: &mut ProcessControlBlockInner)
        ensures
            *inner == old(self).state(),
            final(self).state() == *final(inner),
            final(self).process_id() == old(self).process_id(),
    {
        &mut self.inner
    }

    /// A new process whose pid is handed out by `pids`, running in the
    /// address space with token `memory_set_token`, whose main thread
    /// `main_task` gets thread id 0 and joins the back of `ready_queue`. Also
    /// gives the registers the main thread starts with: at `entry_point`, on
    /// the user stack topped at `ustack_top`, trapping to `trap_handler` on
    /// the kernel stack `kernel_sp` in the kernel address space `kernel_satp`.
    pub fn new(
        pids: &mut RecycleAllocator,
        ready_queue: &mut Vec<usize>,
        memory_set_token: usize,
        main_task: usize,
        entry_point: usize,
        ustack_top: usize,
        kernel_satp: usize,
        kernel_sp: usize,
        trap_handler: usize,
    ) -> (created: (Self, UserEntry))
        requires
            old(pids).can_allocate(),
        ensures
            RecycleAllocator::handed_out(*old(pids), *final(pids), created.0.process_id()),
            fresh_inner(created.0.state(), memory_set_token, None, standard_fds(), main_task),
            final(ready_queue)@ == old(ready_queue)@.push(main_task),
            created.1 == (UserEntry {
                entry_point,
                user_sp: ustack_top,
                argc: 0,
                argv: 0,
                kernel_satp,
                kernel_sp,
                trap_handler,
            }),
    {
        let pid = pids.allocate();
        let mut fd_table: Vec<Option<usize>> = Vec::new();
        fd_table.push(Some(STDIN));
        fd_table.push(Some(STDOUT));
        fd_table.push(Some(STDOUT));
        proof {
            assert(fd_table@ =~= standard_fds());
        }
        let process = ProcessControlBlock {
            pid,
            inner: fresh_state(memory_set_token, None, fd_table, main_task),
        };
        let entry = UserEntry {
            entry_point,
            user_sp: ustack_top,
            argc: 0,
            argv: 0,
            kernel_satp,
            kernel_sp,
            trap_handler,
        };
        ready_queue.push(main_task);
        (process, entry)
    }

    /// Replaces the program of a single-threaded process: switches to the
    /// address space with token `new_token`, lays out the arguments on the
    /// new user stack below `ustack_top`, and gives the registers the program
    /// starts with at `entry_point`, trapping to `trap_handler` on the kernel
    /// stack `kernel_sp` in the kernel address space `kernel_satp`.
    pub fn exec(
        &mut self,
        new_token: usize,
        ustack_top: usize,
        entry_point: usize,
        kernel_satp: usize,
        kernel_sp: usize,
        trap_handler: usize,
        args: &Vec<String>,
    ) -> (img: ExecImage)
        requires
            old(self).state().tasks@.len() == 1,
            old(self).state().tasks@[0] is Some,
            stack_fits(ustack_top as int, args@),
        ensures
            final(self).process_id() == old(self).process_id(),
            final(self).state() == (ProcessControlBlockInner { memory_set_token: new_token, ..old(self).state() }),
            img.stack.argc == args.len(),
            img.stack.argv_base == argv_base_of(ustack_top as int, args.len() as int),
            img.stack.user_sp == final_sp(img.stack.argv_base as int, args@),
            img.stack.argv_words@ == argv_writes(img.stack.argv_base as int, args@),
            img.stack.string_bytes@ == string_writes(img.stack.argv_base as int, args@, args.len() as int),
            img.entry == (UserEntry {
                entry_point,
                user_sp: img.stack.user_sp,
                argc: img.stack.argc,
                argv: img.stack.argv_base,
                kernel_satp,
                kernel_sp,
                trap_handler,
            }),
    {
        self.inner.memory_set_token = new_token;
        let stack = build_user_stack(ustack_top, args);
        let entry = UserEntry {
            entry_point,
            user_sp: stack.user_sp,
            argc: stack.argc,
            argv: stack.argv_base,
            kernel_satp,
            kernel_sp,
            trap_handler,
        };
        ExecImage { stack, entry }
    }

    /// Duplicates a single-threaded process: the child, whose pid `pids`
    /// hands out, runs in the address space with token `child_token`, shares
    /// the parent's open files under the same descriptors, and has the main
    /// thread `child_main_task` with thread id 0, which joins the back of
    /// `ready_queue`; the parent records the child.
    pub fn fork(
        &mut self,
        pids: &mut RecycleAllocator,
        ready_queue: &mut Vec<usize>,
        child_token: usize,
        child_main_task: usize,
    ) -> (child: ProcessControlBlock)
        requires
            old(self).state().tasks@.len() == 1,
            old(pids).can_allocate(),
        ensures
            final(ready_queue)@ == old(ready_queue)@.push(child_main_task),
            RecycleAllocator::handed_out(*old(pids), *final(pids), child.process_id()),
            old(pids).allocated().contains(old(self).process_id()) ==> child.process_id() != old(
                self,
            ).process_id(),
            fresh_inner(child.state(), child_token, Some(old(self).process_id()), old(self).state().fd_table@, child_main_task),
            final(self).process_id() == old(self).process_id(),
            final(self).state() == (ProcessControlBlockInner {
                children: final(self).state().children,
                ..old(self).state()
            }),
            final(self).state().children@ == old(self).state().children@.push(child.process_id()),
    {
        let mut new_fd_table: Vec<Option<usize>> = Vec::new();
        let mut k: usize = 0;
        while k < self.inner.fd_table.len()
            invariant
                k <= self.inner.fd_table.len(),
                new_fd_table@ == self.inner.fd_table@.take(k as int),
            decreases self.inner.fd_table.len() - k,
        {
            match self.inner.fd_table[k] {
                Some(file) => new_fd_table.push(Some(file)),
                None => new_fd_table.push(None),
            }
            proof {
                assert(new_fd_table@ =~= self.inner.fd_table@.take(k + 1));
            }
            k = k + 1;
        }
        proof {
            assert(new_fd_table@ =~= self.inner.fd_table@);
        }
        let child_pid = pids.allocate();
        let child_inner = fresh_state(child_token, Some(self.pid), new_fd_table, child_main_task);
        self.inner.children.push(child_pid);
        ready_queue.push(child_main_task);
        ProcessControlBlock { pid: child_pid, inner: child_inner }
    }

    /// Process id.
    pub fn getpid(&self) -> (pid: usize)
        ensures
            pid == self.process_id(),
    {
        self.pid
    }

    /// Grows the resource matrices so that they cover every thread and every
    /// mutex and semaphore, when deadlock detection is on.
    pub fn vec_sync(&mut self)
        ensures
            final(self).process_id() == old(self).process_id(),
            synced(old(self).state(), final(self).state()),
    {
        self.inner.sync_matrices();
    }

    /// Clears what thread `tid` holds and needs, when deadlock detection is on.
    pub fn thread_vec_clear(&mut self, tid: usize)
        requires
            old(self).state().deadlock_detection_enabled ==> {
                &&& tid < old(self).state().mutex_allocation@.len()
                &&& tid < old(self).state().mutex_need@.len()
                &&& tid < old(self).state().sem_allocation@.len()
                &&& tid < old(self).state().sem_need@.len()
            },
        ensures
            final(self).process_id() == old(self).process_id(),
            same_but_matrices(old(self).state(), final(self).state()),
            final(self).state().mutex_work@ == old(self).state().mutex_work@,
            final(self).state().sem_work@ == old(self).state().sem_work@,
            old(self).state().deadlock_detection_enabled ==> {
                &&& row_cleared(old(self).state().mutex_allocation@, final(self).state().mutex_allocation@, tid as int)
                &&& row_cleared(old(self).state().mutex_need@, final(self).state().mutex_need@, tid as int)
                &&& row_cleared(old(self).state().sem_allocation@, final(self).state().sem_allocation@, tid as int)
                &&& row_cleared(old(self).state().sem_need@, final(self).state().sem_need@, tid as int)
            },
            !old(self).state().deadlock_detection_enabled ==> final(self).state() == old(self).state(),
    {
        if self.inner.deadlock_detection_enabled {
            zero_matrix_row(&mut self.inner.mutex_allocation, tid);
            zero_matrix_row(&mut self.inner.mutex_need, tid);
            zero_matrix_row(&mut self.inner.sem_allocation, tid);
            zero_matrix_row(&mut self.inner.sem_need, tid);
        }
    }

    /// Records a new mutex `mutex_id` as available, after syncing the
    /// matrices, when deadlock detection is on.
    pub fn new_mutex(&mut self, mutex_id: isize)
        requires
            old(self).state().deadlock_detection_enabled ==> 0 <= mutex_id < synced_mutex_work(old(self).state()).len(),
        ensures
            final(self).process_id() == old(self).process_id(),
            matrices_synced(old(self).state(), final(self).state()),
            final(self).state().sem_work@ == synced_sem_work(old(self).state()),
            final(self).state().mutex_work@ == if old(self).state().deadlock_detection_enabled {
                synced_mutex_work(old(self).state()).update(mutex_id as int, 1)
            } else {
                old(self).state().mutex_work@
            },
    {
        self.vec_sync();
        if self.inner.deadlock_detection_enabled {
            self.inner.mutex_work.set(mutex_id as usize, 1);
        }
    }

    /// Records a new semaphore `sem_id` with `count` units available, after
    /// syncing the matrices, when deadlock detection is on.
    pub fn new_semaphore(&mut self, sem_id: usize, count: usize)
        requires
            old(self).state().deadlock_detection_enabled ==> sem_id < synced_sem_work(old(self).state()).len(),
        ensures
            final(self).process_id() == old(self).process_id(),
            matrices_synced(old(self).state(), final(self).state()),
            final(self).state().mutex_work@ == synced_mutex_work(old(self).state()),
            final(self).state().sem_work@ == if old(self).state().deadlock_detection_enabled {
                synced_sem_work(old(self).state()).update(sem_id as int, count)
            } else {
                old(self).state().sem_work@
            },
    {
        self.vec_sync();
        if self.inner.deadlock_detection_enabled {
            self.inner.sem_work.set(sem_id, count);
        }
    }
}

/// Row `r` of `new` is the zeroed row `r` of `old`, and every other row is as it was.
pub open spec fn row_cleared(old: Seq<Vec<usize>>, new: Seq<Vec<usize>>, r: int) -> bool {
    &&& new.len() == old.len()
    &&& new[r]@ == zeros(old[r]@.len())
    &&& forall|k: int| 0 <= k < old.len() && k != r ==> #[trigger] new[k] == old[k]
}

proof fn lemma_grow_row_twice(row: Seq<usize>, m: nat)
    ensures
        grow_row(grow_row(row, m), m) == grow_row(row, m),
        grow_row(row, m).len() >= m,
        grow_row(row, m).len() >= row.len(),
{
}

proof fn lemma_grow_matrix_twice(rows: Seq<Seq<usize>>, n: nat, m: nat)
    ensures
        grow_matrix(grow_matrix(rows, n, m), n, m) == grow_matrix(rows, n, m),
        grow_matrix(rows, n, m).len() >= n,
        forall|i: int| 0 <= i < n ==> #[trigger] grow_matrix(rows, n, m)[i].len() >= m,
{
    let g = grow_matrix(rows, n, m);
    assert forall|i: int| 0 <= i < n implies #[trigger] g[i].len() >= m by {
        lemma_grow_row_twice(if i < rows.len() { rows[i] } else { Seq::empty() }, m);
    }
    assert forall|i: int| 0 <= i < g.len() implies #[trigger] grow_matrix(g, n, m)[i] == g[i] by {
        if i < n {
            lemma_grow_row_twice(if i < rows.len() { rows[i] } else { Seq::empty() }, m);
        }
    }
    assert(grow_matrix(g, n, m) =~= g);
}

/// Syncing the resource matrices a second time changes nothing.
pub proof fn law_sync_idempotent(
    a: ProcessControlBlockInner,
    b: ProcessControlBlockInner,
    c: ProcessControlBlockInner,
)
    requires
        synced(a, b),
        synced(b, c),
    ensures
        same_but_matrices(b, c),
        rows_of(c.mutex_allocation@) == rows_of(b.mutex_allocation@),
        rows_of(c.mutex_need@) == rows_of(b.mutex_need@),
        rows_of(c.sem_allocation@) == rows_of(b.sem_allocation@),
        rows_of(c.sem_need@) == rows_of(b.sem_need@),
        c.mutex_work@ == b.mutex_work@,
        c.sem_work@ == b.sem_work@,
{
    let n = a.tasks@.len();
    let mm = a.mutex_list@.len();
    let ms = a.semaphore_list@.len();
    if a.deadlock_detection_enabled {
        lemma_grow_matrix_twice(rows_of(a.mutex_allocation@), n, mm);
        lemma_grow_matrix_twice(rows_of(a.mutex_need@), n, mm);
        lemma_grow_matrix_twice(rows_of(a.sem_allocation@), n, ms);
        lemma_grow_matrix_twice(rows_of(a.sem_need@), n, ms);
        lemma_grow_row_twice(a.mutex_work@, mm);
        lemma_grow_row_twice(a.sem_work@, ms);
    }
}

/// With deadlock detection on, synced matrices have a row for every thread,
/// as long as the number of mutexes (semaphores), and the available vectors
/// are at least that long too.
pub proof fn law_sync_covers(a: ProcessControlBlockInner, b: ProcessControlBlockInner)
    requires
        synced(a, b),
        a.deadlock_detection_enabled,
    ensures
        b.mutex_allocation@.len() >= b.tasks@.len(),
        b.mutex_need@.len() >= b.tasks@.len(),
        b.sem_allocation@.len() >= b.tasks@.len(),
        b.sem_need@.len() >= b.tasks@.len(),
        forall|i: int|
            0 <= i < b.tasks@.len() ==> #[trigger] b.mutex_allocation@[i]@.len() >= b.mutex_list@.len()
                && b.mutex_need@[i]@.len() >= b.mutex_list@.len()
                && b.sem_allocation@[i]@.len() >= b.semaphore_list@.len()
                && b.sem_need@[i]@.len() >= b.semaphore_list@.len(),
        b.mutex_work@.len() >= b.mutex_list@.len(),
        b.sem_work@.len() >= b.semaphore_list@.len(),
{
    let n = a.tasks@.len();
    let mm = a.mutex_list@.len();
    let ms = a.semaphore_list@.len();
    lemma_grow_matrix_twice(rows_of(a.mutex_allocation@), n, mm);
    lemma_grow_matrix_twice(rows_of(a.mutex_need@), n, mm);
    lemma_grow_matrix_twice(rows_of(a.sem_allocation@), n, ms);
    lemma_grow_matrix_twice(rows_of(a.sem_need@), n, ms);
    lemma_grow_row_twice(a.mutex_work@, mm);
    lemma_grow_row_twice(a.sem_work@, ms);
    assert(rows_of(b.mutex_allocation@).len() == b.mutex_allocation@.len());
    assert forall|i: int| 0 <= i < n implies #[trigger] b.mutex_allocation@[i]@.len() >= mm
        && b.mutex_need@[i]@.len() >= mm && b.sem_allocation@[i]@.len() >= ms
        && b.sem_need@[i]@.len() >= ms by {
        assert(rows_of(b.mutex_allocation@)[i] == b.mutex_allocation@[i]@);
        assert(rows_of(b.mutex_need@)[i] == b.mutex_need@[i]@);
        assert(rows_of(b.sem_allocation@)[i] == b.sem_allocation@[i]@);
        assert(rows_of(b.sem_need@)[i] == b.sem_need@[i]@);
    }
}

/// Every mode other than 1 checks the semaphores alone: two states that
/// agree on the threads and the semaphore data get the same answer, whatever
/// their mutex data.
pub proof fn law_mode_selects_semaphores(
    s: ProcessControlBlockInner,
    s2: ProcessControlBlockInner,
    mode: i32,
    mode2: i32,
)
    requires
        mode != 1,
        mode2 != 1,
        s2.tasks@ == s.tasks@,
        s2.sem_work@ == s.sem_work@,
        s2.sem_need@ == s.sem_need@,
        s2.sem_allocation@ == s.sem_allocation@,
    ensures
        s2.safety_verdict(mode2) == s.safety_verdict(mode),
{
}

/// Mode 1 checks the mutexes alone: two states that agree on the threads
/// and the mutex data get the same answer, whatever their semaphore data.
pub proof fn law_mode_selects_mutexes(s: ProcessControlBlockInner, s2: ProcessControlBlockInner)
    requires
        s2.tasks@ == s.tasks@,
        s2.mutex_work@ == s.mutex_work@,
        s2.mutex_need@ == s.mutex_need@,
        s2.mutex_allocation@ == s.mutex_allocation@,
    ensures
        s2.safety_verdict(1) == s.safety_verdict(1),
{
}

proof fn lemma_lowest_free_fd_props(table: Seq<Option<usize>>)
    ensures
        0 <= lowest_free_fd(table) <= table.len(),
        forall|k: int| 0 <= k < lowest_free_fd(table) ==> #[trigger] table[k] is Some,
        lowest_free_fd(table) < table.len() ==> table[lowest_free_fd(table)] is None,
    decreases table.len(),
{
    if table.len() > 0 {
        let pre = table.drop_last();
        lemma_lowest_free_fd_props(pre);
        assert forall|k: int| 0 <= k < lowest_free_fd(table) implies #[trigger] table[k] is Some by {
            if k < pre.len() {
                assert(pre[k] == table[k]);
                assert(k < lowest_free_fd(pre));
            }
        }
    }
}

/// `alloc_fd` does not take the descriptor it hands out: until a file is
/// put there, the next `alloc_fd` hands out the same one and leaves the
/// table as it is.
pub proof fn law_alloc_fd_twice(table: Seq<Option<usize>>)
    ensures
        ({
            let fd = lowest_free_fd(table);
            let after = if fd < table.len() {
                table
            } else {
                table.push(None)
            };
            &&& fd < after.len()
            &&& lowest_free_fd(after) == fd
        }),
{
    lemma_lowest_free_fd_props(table);
    let fd = lowest_free_fd(table);
    let after = if fd < table.len() {
        table
    } else {
        table.push(None)
    };
    assert forall|k: int| 0 <= k < fd implies #[trigger] after[k] is Some by {
        assert(table[k] is Some);
    }
    lemma_lowest_free_fd(after, fd);
}

} // verus!
