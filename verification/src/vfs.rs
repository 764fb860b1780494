//! The shared inode: a handle on one inode of a file system that several
//! harts use, guarded by a spin lock. Each operation takes the lock and runs
//! the matching `*_in` function of the inode layer on the file system behind
//! it; those functions state the outcome for every state of the file system.
use std::sync::Arc;
use vstd::prelude::*;
use crate::efs::{
    clear_in, create_in, find_in, get_stat_in, link_in, ls_in, read_at_in, read_from, unlink_in,
    write_at_in, FileSystem,
};

verus! {

#[verifier::external_type_specification]
#[verifier::external_body]
#[verifier::reject_recursive_types(T)]
#[verifier::reject_recursive_types(R)]
pub struct ExSpinMutex<T: ?Sized, R>(spin::mutex::Mutex<T, R>);

#[verifier::external_type_specification]
#[verifier::external_body]
pub struct ExSpinRelax(spin::relax::Spin);

#[verifier::external_type_specification]
#[verifier::external_body]
#[verifier::reject_recursive_types(T)]
pub struct ExSpinMutexGuard<'a, T: 'a + ?Sized>(spin::mutex::MutexGuard<'a, T>);

/// Takes the file system's lock with `spin::Mutex::lock`, which spins until
/// no other holder keeps it. Nothing is stated of the file system behind the
/// guard: it is whatever the last holder left.
#[verifier::external_body]
fn lock_fs(fs: &Arc<spin::Mutex<FileSystem>>) -> spin::MutexGuard<'_, FileSystem> {
    fs.lock()
}

/// The file system behind a held lock, through `DerefMut` of
/// `spin::MutexGuard`, which hands out the guarded value itself.
#[verifier::external_body]
fn locked_fs<'a, 'b>(guard: &'b mut spin::MutexGuard<'a, FileSystem>) -> &'b mut FileSystem {
    &mut *guard
}

/// An inode of a file system shared behind a spin lock.
pub struct Inode {
    inode_id: u32,
    fs: Arc<spin::Mutex<FileSystem>>,
}

impl Inode {
    /// The inode's id.
    pub closed spec fn id(&self) -> u32 {
        self.inode_id
    }

    /// The shared file system the inode belongs to.
    pub closed spec fn file_system(&self) -> Arc<spin::Mutex<FileSystem>> {
        self.fs
    }

    /// A handle on inode `inode_id` of the shared file system `fs`.
    pub fn new(inode_id: u32, fs: Arc<spin::Mutex<FileSystem>>) -> (inode: Self)
        ensures
            inode.id() == inode_id,
            inode.file_system() == fs,
    {
        Inode { inode_id, fs }
    }

    /// The inode's id.
    pub fn inode_id(&self) -> (id: u32)
        ensures
            id == self.id(),
    {
        self.inode_id
    }

    /// The inode named `name` in this directory; `None` also when this inode
    /// is not a directory (see `find_in`).
    pub fn find(&self, name: &str) -> (found: Option<Arc<Inode>>)
        ensures
            found matches Some(inode) ==> inode.file_system() == self.file_system(),
    {
        let mut guard = lock_fs(&self.fs);
        let fs = locked_fs(&mut guard);
        match find_in(fs, self.inode_id, name) {
            Some(id) => Some(Arc::new(Inode { inode_id: id, fs: self.fs.clone() })),
            None => None,
        }
    }

    /// Makes an empty file named `name` in this directory, unless the name is
    /// taken; `None` also when this inode is not a directory or no inode id
    /// is left (see `create_in`).
    pub fn create(&self, name: &str) -> (created: Option<Arc<Inode>>)
        ensures
            created matches Some(inode) ==> inode.file_system() == self.file_system(),
    {
        let mut guard = lock_fs(&self.fs);
        let fs = locked_fs(&mut guard);
        match create_in(fs, self.inode_id, name) {
            Some(id) => Some(Arc::new(Inode { inode_id: id, fs: self.fs.clone() })),
            None => None,
        }
    }

    /// Names of the entries of this directory, in order; empty when this
    /// inode is not a directory (see `ls_in`).
    pub fn ls(&self) -> Vec<String> {
        let mut guard = lock_fs(&self.fs);
        let fs = locked_fs(&mut guard);
        ls_in(fs, self.inode_id)
    }

    /// Copies bytes of this file from `offset` into `buf`, up to the end of
    /// `buf` or of the file, and returns how many were copied (see
    /// `read_at_in`). The count and the buffer are those of a read from
    /// `offset` of the bytes the file held under the lock: the first `n`
    /// bytes are copied, the rest of `buf` is left as it was, and `n` is
    /// short of `buf.len()` only where the file ends.
    pub fn read_at(&self, offset: usize, buf: &mut [u8]) -> (n: usize)
        ensures
            n <= old(buf)@.len(),
            final(buf)@.len() == old(buf)@.len(),
            exists|data: Seq<u8>|
                #[trigger] read_from(data, offset as int, old(buf)@, final(buf)@, n as int),
    {
        let mut guard = lock_fs(&self.fs);
        let fs = locked_fs(&mut guard);
        let ghost state = fs@;
        let n = read_at_in(fs, self.inode_id, offset, buf);
        proof {
            let data = if (self.inode_id as int) < state.len() {
                state[self.inode_id as int].data
            } else {
                Seq::empty()
            };
            assert(read_from(data, offset as int, old(buf)@, buf@, n as int));
        }
        n
    }

    /// Writes `buf` into this file at `offset` and returns the bytes written;
    /// nothing is written when the end would pass `u32::MAX` (see
    /// `write_at_in`).
    pub fn write_at(&self, offset: usize, buf: &[u8]) -> (n: usize)
        ensures
            n == buf@.len() || n == 0,
            offset + buf@.len() > u32::MAX ==> n == 0,
    {
        let mut guard = lock_fs(&self.fs);
        let fs = locked_fs(&mut guard);
        write_at_in(fs, self.inode_id, offset, buf)
    }

    /// Empties this inode (see `clear_in`).
    pub fn clear(&self) {
        let mut guard = lock_fs(&self.fs);
        let fs = locked_fs(&mut guard);
        clear_in(fs, self.inode_id);
    }

    /// Adds to this directory an entry `new_path` for the inode `old_path`
    /// names; returns whether it did (see `link_in`).
    pub fn link(&self, old_path: &str, new_path: &str) -> bool {
        let mut guard = lock_fs(&self.fs);
        let fs = locked_fs(&mut guard);
        link_in(fs, self.inode_id, old_path, new_path)
    }

    /// Removes from this directory the entry `path`; returns whether it did
    /// (see `unlink_in`).
    pub fn unlink(&self, path: &str) -> bool {
        let mut guard = lock_fs(&self.fs);
        let fs = locked_fs(&mut guard);
        unlink_in(fs, self.inode_id, path)
    }

    /// The inode id, the kind (1 for a directory, 2 for a file, 0 for an
    /// inode that does not exist) and the link count (see `get_stat_in`).
    pub fn get_stat(&self) -> (stat: (u64, u32, u32))
        ensures
            stat.0 == self.id() as u64,
            stat.1 <= 2,
    {
        let mut guard = lock_fs(&self.fs);
        let fs = locked_fs(&mut guard);
        get_stat_in(fs, self.inode_id)
    }
}

} // verus!
