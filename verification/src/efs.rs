//! The file system's inode layer: directories of named entries, regular
//! files of bytes, hard links counted per inode.
//!
//! A directory's content is its list of entries, kept in the order in which
//! they sit on disk; each entry takes `DIRENT_SZ` bytes there.
use vstd::prelude::*;

verus! {

/// Bytes one directory entry takes on disk.
pub const DIRENT_SZ: usize = 32;

/// Kind of an inode.
pub enum DiskInodeType {
    File,
    Directory,
}

/// A directory entry: a name and the inode it names.
pub struct DirEntry {
    pub name: String,
    pub inode_id: u32,
}

/// An inode as stored on disk.
pub struct DiskInode {
    pub type_: DiskInodeType,
    /// Number of directory entries that name the inode.
    pub links_count: u32,
    /// Content of a regular file.
    pub data: Vec<u8>,
    /// Entries of a directory, in their order on disk.
    pub entries: Vec<DirEntry>,
}

/// The inodes of a file system, indexed by inode id; inode 0 is the root
/// directory.
pub struct FileSystem {
    inodes: Vec<DiskInode>,
}

/// A handle on one inode of a file system; the file system is handed to
/// each operation.
pub struct InodeHandle {
    pub inode_id: u32,
}

/// The inode as a value: kind, link count, file bytes, directory entries.
pub struct InodeView {
    pub is_dir: bool,
    pub links_count: u32,
    pub data: Seq<u8>,
    pub entries: Seq<(Seq<char>, u32)>,
}

impl DiskInode {
    pub open spec fn view_entries(self) -> Seq<(Seq<char>, u32)> {
        Seq::new(self.entries@.len(), |i: int| (self.entries@[i].name@, self.entries@[i].inode_id))
    }

    pub open spec fn is_dir(self) -> bool {
        self.type_ is Directory
    }

    pub open spec fn view(self) -> InodeView {
        InodeView {
            is_dir: self.is_dir(),
            links_count: self.links_count,
            data: self.data@,
            entries: self.view_entries(),
        }
    }

    /// Size in bytes: the file's bytes, or the directory's entries.
    pub open spec fn size(self) -> int {
        if self.is_dir() {
            self.entries@.len() * DIRENT_SZ
        } else {
            self.data@.len() as int
        }
    }
}

/// Index of the first entry named `name`.
pub open spec fn first_entry(entries: Seq<(Seq<char>, u32)>, name: Seq<char>) -> Option<int>
    decreases entries.len(),
{
    if entries.len() == 0 {
        None
    } else {
        match first_entry(entries.drop_last(), name) {
            Some(i) => Some(i),
            None => if entries.last().0 == name {
                Some(entries.len() - 1)
            } else {
                None
            },
        }
    }
}

/// The inode that the first entry named `name` names.
pub open spec fn lookup(entries: Seq<(Seq<char>, u32)>, name: Seq<char>) -> Option<u32> {
    match first_entry(entries, name) {
        Some(i) => Some(entries[i].1),
        None => None,
    }
}

/// A fresh inode of the given kind: empty, named once.
pub open spec fn fresh_inode(is_dir: bool) -> InodeView {
    InodeView { is_dir, links_count: 1, data: Seq::empty(), entries: Seq::empty() }
}

/// The bytes `read_at` copies out of `data` from `offset` into a buffer of
/// `len` bytes: up to the end of the buffer or of the data.
pub open spec fn read_len(data_len: int, offset: int, len: int) -> int {
    let end = if offset + len < data_len {
        offset + len
    } else {
        data_len
    };
    if offset >= end {
        0
    } else {
        end - offset
    }
}

/// `data` after writing `buf` at `offset`, first zero-extended to reach
/// `offset + buf.len()`.
pub open spec fn written(data: Seq<u8>, offset: int, buf: Seq<u8>) -> Seq<u8> {
    let new_len = if offset + buf.len() > data.len() {
        offset + buf.len()
    } else {
        data.len() as int
    };
    Seq::new(
        new_len as nat,
        |k: int|
            if offset <= k < offset + buf.len() {
                buf[k - offset]
            } else if k < data.len() {
                data[k]
            } else {
                0u8
            },
    )
}

proof fn lemma_first_entry(entries: Seq<(Seq<char>, u32)>, name: Seq<char>)
    ensures
        first_entry(entries, name) matches Some(i) ==> {
            &&& 0 <= i < entries.len()
            &&& entries[i].0 == name
            &&& forall|k: int| 0 <= k < i ==> #[trigger] entries[k].0 != name
        },
        first_entry(entries, name) is None ==> forall|k: int|
            0 <= k < entries.len() ==> #[trigger] entries[k].0 != name,
    decreases entries.len(),
{
    if entries.len() > 0 {
        let pre = entries.drop_last();
        lemma_first_entry(pre, name);
        match first_entry(pre, name) {
            Some(i) => {
                assert(pre[i] == entries[i]);
                assert forall|k: int| 0 <= k < i implies #[trigger] entries[k].0 != name by {
                    assert(pre[k] == entries[k]);
                }
            },
            None => {
                assert forall|k: int| 0 <= k < entries.len() - 1 implies #[trigger] entries[k].0
                    != name by {
                    assert(pre[k] == entries[k]);
                }
            },
        }
    }
}

/// The inodes after `create` adds an empty file named `name` to directory `d`.
pub open spec fn after_create(fs: Seq<InodeView>, d: int, name: Seq<char>) -> Seq<InodeView> {
    fs.update(
        d,
        InodeView { entries: fs[d].entries.push((name, fs.len() as u32)), ..fs[d] },
    ).push(fresh_inode(false))
}

/// The inodes after `link` adds to directory `d` an entry `name` for inode
/// `t`, counting the extra link.
pub open spec fn after_link(fs: Seq<InodeView>, d: int, t: int, name: Seq<char>) -> Seq<InodeView> {
    let counted = fs.update(
        t,
        InodeView { links_count: (fs[t].links_count + 1) as u32, ..fs[t] },
    );
    counted.update(
        d,
        InodeView { entries: counted[d].entries.push((name, t as u32)), ..counted[d] },
    )
}

/// The inodes after `unlink` removes entry `i` of directory `d`: the inode
/// it names loses a link, or its content when that was its only link, and
/// the directory's last entry moves into the gap.
pub open spec fn after_unlink(fs: Seq<InodeView>, d: int, i: int) -> Seq<InodeView> {
    let t = fs[d].entries[i].1 as int;
    let released = fs.update(
        t,
        if fs[t].links_count == 1 {
            InodeView { data: Seq::empty(), entries: Seq::empty(), ..fs[t] }
        } else {
            InodeView { links_count: (fs[t].links_count - 1) as u32, ..fs[t] }
        },
    );
    let es = released[d].entries;
    released.update(d, InodeView { entries: es.update(i, es.last()).drop_last(), ..released[d] })
}

/// The inodes after `write_at` writes `buf` at `offset` into inode `f`.
pub open spec fn after_write(fs: Seq<InodeView>, f: int, offset: int, buf: Seq<u8>) -> Seq<InodeView> {
    fs.update(f, InodeView { data: written(fs[f].data, offset, buf), ..fs[f] })
}

/// `first_entry` is the one index whose entry is named `name` and after
/// every entry not so named.
proof fn lemma_first_entry_is(entries: Seq<(Seq<char>, u32)>, name: Seq<char>, i: int)
    requires
        0 <= i <= entries.len(),
        i < entries.len() ==> entries[i].0 == name,
        forall|k: int| 0 <= k < i ==> #[trigger] entries[k].0 != name,
    ensures
        first_entry(entries, name) == if i < entries.len() {
            Some(i)
        } else {
            None::<int>
        },
    decreases entries.len(),
{
    if entries.len() > 0 {
        let pre = entries.drop_last();
        assert forall|k: int| 0 <= k < pre.len() implies #[trigger] pre[k] == entries[k] by {}
        if i < entries.len() - 1 {
            lemma_first_entry_is(pre, name, i);
        } else {
            lemma_first_entry_is(pre, name, pre.len() as int);
        }
    }
}

impl FileSystem {
    pub closed spec fn view(self) -> Seq<InodeView> {
        Seq::new(self.inodes@.len(), |i: int| self.inodes@[i].view())
    }

    /// Every entry names an existing inode.
    pub open spec fn wf(self) -> bool {
        forall|i: int, k: int|
            0 <= i < self@.len() && 0 <= k < self@[i].entries.len() ==> #[trigger] self@[i].entries[k].1
                < self@.len()
    }

    /// The inode `inode` refers to exists.
    pub open spec fn has(self, inode: InodeHandle) -> bool {
        inode.inode_id < self@.len()
    }

    /// The inode `inode` refers to exists and is a directory.
    pub open spec fn is_dir(self, inode: InodeHandle) -> bool {
        self.has(inode) && self@[inode.inode_id as int].is_dir
    }

    /// A file system holding only an empty root directory.
    pub fn new() -> (fs: Self)
        ensures
            fs.wf(),
            fs@ == seq![fresh_inode(true)],
    {
        let mut inodes: Vec<DiskInode> = Vec::new();
        inodes.push(
            DiskInode {
                type_: DiskInodeType::Directory,
                links_count: 1,
                data: Vec::new(),
                entries: Vec::new(),
            },
        );
        let fs = FileSystem { inodes };
        assert(fs@ =~= seq![fresh_inode(true)]) by {
            assert(fs@[0].entries =~= Seq::<(Seq<char>, u32)>::empty());
        }
        fs
    }

    /// The root directory.
    pub fn root_inode(&self) -> (root: InodeHandle)
        ensures
            root.inode_id == 0,
    {
        InodeHandle { inode_id: 0 }
    }

    /// Whether inode `id` exists and is a directory.
    pub fn is_directory(&self, id: u32) -> (r: bool)
        ensures
            r == self.is_dir(InodeHandle { inode_id: id }),
    {
        if (id as usize) < self.inodes.len() {
            match self.inodes[id as usize].type_ {
                DiskInodeType::Directory => true,
                DiskInodeType::File => false,
            }
        } else {
            false
        }
    }

    /// Number of entries naming inode `id`.
    pub fn links_count(&self, id: u32) -> (n: u32)
        requires
            id < self@.len(),
        ensures
            n == self@[id as int].links_count,
    {
        self.inodes[id as usize].links_count
    }

    /// Number of inodes.
    pub fn inode_count(&self) -> (n: usize)
        ensures
            n == self@.len(),
    {
        self.inodes.len()
    }

    /// Every entry names an existing inode, at all times.
    #[verifier::type_invariant]
    closed spec fn inv(self) -> bool {
        self.wf()
    }

    /// Takes inode `id` out, leaving an empty file in its place.
    fn take_inode(&mut self, id: usize) -> (inode: DiskInode)
        requires
            id < old(self)@.len(),
        ensures
            inode.view() == old(self)@[id as int],
            final(self).inodes@.len() == old(self).inodes@.len(),
            final(self)@.len() == old(self)@.len(),
            forall|k: int| 0 <= k < old(self)@.len() && k != id ==> #[trigger] final(self)@[k] == old(self)@[k],
            forall|k: int|
                0 <= k < old(self).inodes@.len() && k != id ==> #[trigger] final(self).inodes@[k]
                    == old(self).inodes@[k],
            old(self).wf(),
            final(self).wf(),
    {
        proof {
            use_type_invariant(&*self);
        }
        let ghost before = self@;
        let mut inodes: Vec<DiskInode> = Vec::new();
        std::mem::swap(&mut inodes, &mut self.inodes);
        let mut inode = DiskInode {
            type_: DiskInodeType::File,
            links_count: 0,
            data: Vec::new(),
            entries: Vec::new(),
        };
        std::mem::swap(&mut inode, &mut inodes[id]);
        proof {
            let v = Seq::new(inodes@.len(), |i: int| inodes@[i].view());
            assert forall|i: int, k: int|
                0 <= i < v.len() && 0 <= k < v[i].entries.len() implies #[trigger] v[i].entries[k].1
                < v.len() by {
                if i != id {
                    assert(v[i] == before[i]);
                }
            }
        }
        self.inodes = inodes;
        proof {
            use_type_invariant(&*self);
        }
        inode
    }

    /// Puts inode `id` back; its entries must name existing inodes.
    fn put_inode(&mut self, id: usize, inode: DiskInode)
        requires
            id < old(self).inodes@.len(),
            forall|k: int|
                0 <= k < inode.view().entries.len() ==> #[trigger] inode.view().entries[k].1 < old(
                    self,
                )@.len(),
        ensures
            final(self)@ == old(self)@.update(id as int, inode.view()),
            final(self).wf(),
    {
        proof {
            use_type_invariant(&*self);
        }
        let ghost before = self@;
        let ghost iv = inode.view();
        let mut inodes: Vec<DiskInode> = Vec::new();
        std::mem::swap(&mut inodes, &mut self.inodes);
        inodes.set(id, inode);
        proof {
            let v = Seq::new(inodes@.len(), |i: int| inodes@[i].view());
            assert(v =~= before.update(id as int, iv));
            assert forall|i: int, k: int|
                0 <= i < v.len() && 0 <= k < v[i].entries.len() implies #[trigger] v[i].entries[k].1
                < v.len() by {
                if i != id {
                    assert(v[i] == before[i]);
                }
            }
        }
        self.inodes = inodes;
        assert(self@ =~= old(self)@.update(id as int, iv));
        proof {
            use_type_invariant(&*self);
        }
    }

    /// Makes a new inode of the given kind and returns its id.
    fn alloc_inode(&mut self, is_dir: bool) -> (id: u32)
        requires
            old(self)@.len() < u32::MAX,
        ensures
            id == old(self)@.len(),
            final(self)@ == old(self)@.push(fresh_inode(is_dir)),
            final(self).wf(),
    {
        proof {
            use_type_invariant(&*self);
        }
        let ghost before = self@;
        let id = self.inodes.len() as u32;
        let type_ = if is_dir {
            DiskInodeType::Directory
        } else {
            DiskInodeType::File
        };
        let mut inodes: Vec<DiskInode> = Vec::new();
        std::mem::swap(&mut inodes, &mut self.inodes);
        inodes.push(DiskInode { type_, links_count: 1, data: Vec::new(), entries: Vec::new() });
        proof {
            let v = Seq::new(inodes@.len(), |i: int| inodes@[i].view());
            assert(v[id as int].entries =~= Seq::<(Seq<char>, u32)>::empty());
            assert(v =~= before.push(fresh_inode(is_dir)));
            assert forall|i: int, k: int|
                0 <= i < v.len() && 0 <= k < v[i].entries.len() implies #[trigger] v[i].entries[k].1
                < v.len() by {
                if i < before.len() {
                    assert(v[i] == before[i]);
                }
            }
        }
        self.inodes = inodes;
        assert(self@ =~= before.push(fresh_inode(is_dir)));
        proof {
            use_type_invariant(&*self);
        }
        id
    }
}

/// Index of the first entry of `entries` named `name`.
fn find_entry(entries: &Vec<DirEntry>, name: &String) -> (idx: Option<usize>)
    ensures
        match idx {
            Some(i) => i < entries@.len() && entries@[i as int].name@ == name@ && first_entry(
                Seq::new(entries@.len(), |k: int| (entries@[k].name@, entries@[k].inode_id)),
                name@,
            ) == Some(i as int),
            None => first_entry(
                Seq::new(entries@.len(), |k: int| (entries@[k].name@, entries@[k].inode_id)),
                name@,
            ) is None,
        },
{
    let ghost es = Seq::new(entries@.len(), |k: int| (entries@[k].name@, entries@[k].inode_id));
    let mut i: usize = 0;
    while i < entries.len()
        invariant
            i <= entries.len(),
            es == Seq::new(entries@.len(), |k: int| (entries@[k].name@, entries@[k].inode_id)),
            forall|k: int| 0 <= k < i ==> #[trigger] es[k].0 != name@,
        decreases entries.len() - i,
    {
        if entries[i].name == *name {
            proof {
                lemma_first_entry_is(es, name@, i as int);
            }
            return Some(i);
        }
        i = i + 1;
    }
    proof {
        lemma_first_entry_is(es, name@, es.len() as int);
    }
    None
}

impl InodeHandle {
    /// A handle on inode `inode_id`.
    pub fn new(inode_id: u32) -> (inode: InodeHandle)
        ensures
            inode.inode_id == inode_id,
    {
        InodeHandle { inode_id }
    }

    /// The inode named `name` in this directory, by its first entry.
    pub fn find(&self, fs: &FileSystem, name: &str) -> (found: Option<InodeHandle>)
        requires
            fs.is_dir(*self),
        ensures
            match found {
                Some(inode) => lookup(fs@[self.inode_id as int].entries, name@) == Some(
                    inode.inode_id,
                ),
                None => lookup(fs@[self.inode_id as int].entries, name@) is None,
            },
            found matches Some(inode) ==> fs.has(inode),
    {
        proof {
            use_type_invariant(fs);
        }
        proof {
            lemma_first_entry(fs@[self.inode_id as int].entries, name@);
        }
        let name = name.to_owned();
        let dir = &fs.inodes[self.inode_id as usize];
        match find_entry(&dir.entries, &name) {
            Some(i) => Some(InodeHandle { inode_id: dir.entries[i].inode_id }),
            None => None,
        }
    }

    /// Makes an empty file named `name` in this directory, unless an entry
    /// of that name is there already.
    pub fn create(&self, fs: &mut FileSystem, name: &str) -> (created: Option<InodeHandle>)
        requires
            old(fs).is_dir(*self),
            old(fs)@.len() < u32::MAX,
        ensures
            lookup(old(fs)@[self.inode_id as int].entries, name@) is Some ==> created is None
                && final(fs)@ == old(fs)@,
            lookup(old(fs)@[self.inode_id as int].entries, name@) is None ==> {
                &&& created == Some(InodeHandle { inode_id: old(fs)@.len() as u32 })
                &&& final(fs)@ == after_create(old(fs)@, self.inode_id as int, name@)
            },
            final(fs).wf(),
    {
        proof {
            use_type_invariant(&*fs);
        }
        let owned = name.to_owned();
        let found = find_entry(&fs.inodes[self.inode_id as usize].entries, &owned);
        if found.is_some() {
            return None;
        }
        let ghost mid = fs@;
        let new_id = fs.alloc_inode(false);
        let ghost with_file = fs@;
        let mut dir = fs.take_inode(self.inode_id as usize);
        let ghost before_push = dir.view();
        dir.entries.push(DirEntry { name: owned, inode_id: new_id });
        proof {
            let d = self.inode_id as int;
            assert(dir.view().entries =~= before_push.entries.push((name@, new_id)));
            assert forall|k: int| 0 <= k < dir.view().entries.len() implies #[trigger] dir.view().entries[k].1
                < fs@.len() by {
                if k < before_push.entries.len() {
                    assert(dir.view().entries[k] == with_file[d].entries[k]);
                }
            }
        }
        fs.put_inode(self.inode_id as usize, dir);
        proof {
            let d = self.inode_id as int;
            assert(fs@ =~= old(fs)@.update(
                d,
                InodeView {
                    entries: old(fs)@[d].entries.push((name@, new_id)),
                    ..old(fs)@[d]
                },
            ).push(fresh_inode(false))) by {
                assert(fs@[d].entries =~= old(fs)@[d].entries.push((name@, new_id)));
            }
        }
        Some(InodeHandle { inode_id: new_id })
    }

    /// Names of the entries of this directory, in order.
    pub fn ls(&self, fs: &FileSystem) -> (names: Vec<String>)
        requires
            fs.is_dir(*self),
        ensures
            names@.len() == fs@[self.inode_id as int].entries.len(),
            forall|k: int|
                0 <= k < names@.len() ==> #[trigger] names@[k]@ == fs@[self.inode_id as int].entries[k].0,
    {
        let dir = &fs.inodes[self.inode_id as usize];
        let mut names: Vec<String> = Vec::new();
        let mut i: usize = 0;
        while i < dir.entries.len()
            invariant
                i <= dir.entries.len(),
                dir.view() == fs@[self.inode_id as int],
                names@.len() == i,
                forall|k: int| 0 <= k < i ==> #[trigger] names@[k]@ == dir.entries@[k].name@,
            decreases dir.entries.len() - i,
        {
            names.push(dir.entries[i].name.clone());
            i = i + 1;
        }
        names
    }

    /// Copies bytes of this file from `offset` into `buf`, up to the end of
    /// `buf` or of the file, and returns how many were copied.
    pub fn read_at(&self, fs: &FileSystem, offset: usize, buf: &mut [u8]) -> (n: usize)
        requires
            fs.has(*self),
        ensures
            n == read_len(fs@[self.inode_id as int].data.len() as int, offset as int, old(buf)@.len() as int),
            final(buf)@.len() == old(buf)@.len(),
            forall|k: int| 0 <= k < n ==> #[trigger] final(buf)@[k] == fs@[self.inode_id as int].data[offset + k],
            forall|k: int| n <= k < old(buf)@.len() ==> #[trigger] final(buf)@[k] == old(buf)@[k],
    {
        let data = &fs.inodes[self.inode_id as usize].data;
        let size = data.len();
        let len = buf.len();
        if offset >= size {
            return 0;
        }
        let end = if len < size - offset {
            offset + len
        } else {
            size
        };
        let n = end - offset;
        let mut k: usize = 0;
        while k < n
            invariant
                k <= n,
                n <= len,
                offset + n <= size,
                size == data@.len(),
                data@ == fs@[self.inode_id as int].data,
                buf@.len() == len,
                len == old(buf)@.len(),
                forall|k2: int| 0 <= k2 < k ==> #[trigger] buf@[k2] == data@[offset + k2],
                forall|k2: int| k <= k2 < len ==> #[trigger] buf@[k2] == old(buf)@[k2],
            decreases n - k,
        {
            buf[k] = data[offset + k];
            k = k + 1;
        }
        n
    }

    /// Writes `buf` into this file at `offset`, first growing the file with
    /// zeros to reach `offset + buf.len()`, and returns the bytes written.
    pub fn write_at(&self, fs: &mut FileSystem, offset: usize, buf: &[u8]) -> (n: usize)
        requires
            old(fs).has(*self),
            offset + buf@.len() <= u32::MAX,
        ensures
            n == buf@.len(),
            final(fs)@ == after_write(old(fs)@, self.inode_id as int, offset as int, buf@),
            write_keeps_rest(
                old(fs)@[self.inode_id as int].data,
                final(fs)@[self.inode_id as int].data,
                offset as int,
                buf@,
            ),
    {
        let mut inode = fs.take_inode(self.inode_id as usize);
        let mut data: Vec<u8> = Vec::new();
        std::mem::swap(&mut data, &mut inode.data);
        let end = offset + buf.len();
        let ghost before = data@;
        while data.len() < end
            invariant
                before.len() <= data@.len() <= if end > before.len() {
                    end as int
                } else {
                    before.len() as int
                },
                forall|k: int| 0 <= k < before.len() ==> #[trigger] data@[k] == before[k],
                forall|k: int| before.len() <= k < data@.len() ==> #[trigger] data@[k] == 0u8,
            decreases end - data.len(),
        {
            data.push(0);
        }
        let mut k: usize = 0;
        while k < buf.len()
            invariant
                k <= buf.len(),
                end == offset + buf@.len(),
                data@.len() == if end > before.len() {
                    end as int
                } else {
                    before.len() as int
                },
                forall|k2: int|
                    0 <= k2 < data@.len() ==> #[trigger] data@[k2] == if offset <= k2
                        < offset + k {
                        buf@[k2 - offset]
                    } else if k2 < before.len() {
                        before[k2]
                    } else {
                        0u8
                    },
            decreases buf.len() - k,
        {
            data.set(offset + k, buf[k]);
            k = k + 1;
        }
        inode.data = data;
        proof {
            assert(inode.data@ =~= written(before, offset as int, buf@));
            assert(inode.view() == InodeView {
                data: written(old(fs)@[self.inode_id as int].data, offset as int, buf@),
                ..old(fs)@[self.inode_id as int]
            }) by {
                assert(inode.view_entries() =~= old(fs)@[self.inode_id as int].entries);
            }
        }
        fs.put_inode(self.inode_id as usize, inode);
        buf.len()
    }

    /// Empties this inode.
    pub fn clear(&self, fs: &mut FileSystem)
        requires
            old(fs).has(*self),
        ensures
            final(fs)@ == old(fs)@.update(
                self.inode_id as int,
                InodeView {
                    data: Seq::empty(),
                    entries: Seq::empty(),
                    ..old(fs)@[self.inode_id as int]
                },
            ),
            final(fs).wf(),
    {
        proof {
            use_type_invariant(&*fs);
        }
        let mut inode = fs.take_inode(self.inode_id as usize);
        inode.data = Vec::new();
        inode.entries = Vec::new();
        proof {
            assert(inode.view_entries() =~= Seq::<(Seq<char>, u32)>::empty());
        }
        fs.put_inode(self.inode_id as usize, inode);
    }

    /// Adds to this directory an entry `new_path` for the inode that
    /// `old_path` names, and counts the extra link; returns whether
    /// `old_path` was found.
    pub fn link(&self, fs: &mut FileSystem, old_path: &str, new_path: &str) -> (linked: bool)
        requires
            old(fs).is_dir(*self),
            lookup(old(fs)@[self.inode_id as int].entries, old_path@) matches Some(t) ==> old(
                fs,
            )@[t as int].links_count < u32::MAX,
        ensures
            linked == lookup(old(fs)@[self.inode_id as int].entries, old_path@) is Some,
            !linked ==> final(fs)@ == old(fs)@,
            lookup(old(fs)@[self.inode_id as int].entries, old_path@) matches Some(t) ==> final(fs)@
                == after_link(old(fs)@, self.inode_id as int, t as int, new_path@),
            final(fs).wf(),
    {
        proof {
            use_type_invariant(&*fs);
        }
        let old_name = old_path.to_owned();
        let found = find_entry(&fs.inodes[self.inode_id as usize].entries, &old_name);
        match found {
            None => false,
            Some(i) => {
                let target = fs.inodes[self.inode_id as usize].entries[i].inode_id;
                proof {
                    assert(old(fs)@[self.inode_id as int].entries[i as int].1 == target);
                }
                let mut t_inode = fs.take_inode(target as usize);
                t_inode.links_count = t_inode.links_count + 1;
                proof {
                    assert(t_inode.view_entries() =~= old(fs)@[target as int].entries);
                }
                fs.put_inode(target as usize, t_inode);
                let ghost counted = fs@;
                let mut dir = fs.take_inode(self.inode_id as usize);
                dir.entries.push(DirEntry { name: new_path.to_owned(), inode_id: target });
                proof {
                    assert(dir.view_entries() =~= counted[self.inode_id as int].entries.push(
                        (new_path@, target),
                    ));
                }
                fs.put_inode(self.inode_id as usize, dir);
                true
            },
        }
    }

    /// Removes from this directory the first entry named `path`, moving its
    /// last entry into the gap; the named inode loses a link, or, when this
    /// was its only link, loses its content instead. Returns whether `path`
    /// was found.
    pub fn unlink(&self, fs: &mut FileSystem, path: &str) -> (unlinked: bool)
        requires
            old(fs).is_dir(*self),
            lookup(old(fs)@[self.inode_id as int].entries, path@) matches Some(t) ==> {
                &&& old(fs)@[t as int].links_count >= 1
                &&& t == self.inode_id ==> old(fs)@[t as int].links_count > 1
            },
        ensures
            unlinked == lookup(old(fs)@[self.inode_id as int].entries, path@) is Some,
            !unlinked ==> final(fs)@ == old(fs)@,
            first_entry(old(fs)@[self.inode_id as int].entries, path@) matches Some(i) ==> final(fs)@
                == after_unlink(old(fs)@, self.inode_id as int, i),
            final(fs).wf(),
    {
        proof {
            use_type_invariant(&*fs);
        }
        let name = path.to_owned();
        let found = find_entry(&fs.inodes[self.inode_id as usize].entries, &name);
        match found {
            None => false,
            Some(i) => {
                let target = fs.inodes[self.inode_id as usize].entries[i].inode_id;
                proof {
                    assert(old(fs)@[self.inode_id as int].entries[i as int].1 == target);
                }
                let mut t_inode = fs.take_inode(target as usize);
                if t_inode.links_count == 1 {
                    t_inode.data = Vec::new();
                    t_inode.entries = Vec::new();
                    proof {
                        assert(t_inode.view_entries() =~= Seq::<(Seq<char>, u32)>::empty());
                    }
                } else {
                    t_inode.links_count = t_inode.links_count - 1;
                    proof {
                        assert(t_inode.view_entries() =~= old(fs)@[target as int].entries);
                    }
                }
                fs.put_inode(target as usize, t_inode);
                let ghost released = fs@;
                let mut dir = fs.take_inode(self.inode_id as usize);
                proof {
                    assert(dir.view() == released[self.inode_id as int]);
                }
                let ghost es = dir.view_entries();
                let ghost before = dir.entries@;
                if i < dir.entries.len() {
                    dir.entries.swap_remove(i);
                }
                proof {
                    assert(dir.view_entries() =~= es.update(i as int, es.last()).drop_last());
                }
                fs.put_inode(self.inode_id as usize, dir);
                true
            },
        }
    }

    /// The inode id, the kind (1 for a directory, 2 for a file) and the link count.
    pub fn get_stat(&self, fs: &FileSystem) -> (stat: (u64, u32, u32))
        requires
            fs.has(*self),
        ensures
            stat.0 == self.inode_id as u64,
            stat.1 == if fs@[self.inode_id as int].is_dir {
                1u32
            } else {
                2u32
            },
            stat.2 == fs@[self.inode_id as int].links_count,
    {
        let inode = &fs.inodes[self.inode_id as usize];
        let inode_type: u32 = match inode.type_ {
            DiskInodeType::Directory => 1,
            DiskInodeType::File => 2,
        };
        (self.inode_id as u64, inode_type, inode.links_count)
    }
}

/// Inode `d` exists and is a directory.
pub open spec fn dir_ok(fs: Seq<InodeView>, d: int) -> bool {
    0 <= d < fs.len() && fs[d].is_dir
}

/// `create` makes the file: `d` is a directory without an entry `name`, and
/// an inode id is left for the new file.
pub open spec fn create_ok(fs: Seq<InodeView>, d: int, name: Seq<char>) -> bool {
    &&& dir_ok(fs, d)
    &&& fs.len() < u32::MAX
    &&& lookup(fs[d].entries, name) is None
}

/// `link` adds the entry: `d` is a directory whose entry `old_name` names an
/// existing inode that can count one more link.
pub open spec fn link_ok(fs: Seq<InodeView>, d: int, old_name: Seq<char>) -> bool {
    &&& dir_ok(fs, d)
    &&& match lookup(fs[d].entries, old_name) {
        Some(t) => t < fs.len() && fs[t as int].links_count < u32::MAX,
        None => false,
    }
}

/// `unlink` removes the entry: `d` is a directory whose entry `name` names
/// an existing inode that counts a link, and that is not `d` itself named
/// only once.
pub open spec fn unlink_ok(fs: Seq<InodeView>, d: int, name: Seq<char>) -> bool {
    &&& dir_ok(fs, d)
    &&& match lookup(fs[d].entries, name) {
        Some(t) => t < fs.len() && fs[t as int].links_count >= 1 && !(t == d
            && fs[t as int].links_count == 1),
        None => false,
    }
}

/// The inode named `name` in directory `dir`; `None` also when `dir` is not
/// a directory.
pub fn find_in(fs: &FileSystem, dir: u32, name: &str) -> (found: Option<u32>)
    ensures
        found == if dir_ok(fs@, dir as int) {
            lookup(fs@[dir as int].entries, name@)
        } else {
            None
        },
        found matches Some(t) ==> t < fs@.len(),
{
    proof {
        use_type_invariant(fs);
    }
    if !fs.is_directory(dir) {
        return None;
    }
    match InodeHandle::new(dir).find(fs, name) {
        Some(h) => Some(h.inode_id),
        None => None,
    }
}

/// Makes an empty file named `name` in directory `dir` when `create_ok`
/// holds, and returns its id; otherwise changes nothing.
pub fn create_in(fs: &mut FileSystem, dir: u32, name: &str) -> (created: Option<u32>)
    ensures
        created is Some <==> create_ok(old(fs)@, dir as int, name@),
        created is Some ==> created == Some(old(fs)@.len() as u32) && final(fs)@ == after_create(
            old(fs)@,
            dir as int,
            name@,
        ),
        created is None ==> final(fs)@ == old(fs)@,
        final(fs).wf(),
{
    proof {
        use_type_invariant(&*fs);
    }
    if !fs.is_directory(dir) || fs.inode_count() >= u32::MAX as usize {
        return None;
    }
    match InodeHandle::new(dir).create(fs, name) {
        Some(h) => Some(h.inode_id),
        None => None,
    }
}

/// Names of the entries of directory `dir`, in order; empty when `dir` is
/// not a directory.
pub fn ls_in(fs: &FileSystem, dir: u32) -> (names: Vec<String>)
    ensures
        dir_ok(fs@, dir as int) ==> names@.len() == fs@[dir as int].entries.len() && forall|k: int|
            0 <= k < names@.len() ==> #[trigger] names@[k]@ == fs@[dir as int].entries[k].0,
        !dir_ok(fs@, dir as int) ==> names@.len() == 0,
{
    if !fs.is_directory(dir) {
        return Vec::new();
    }
    InodeHandle::new(dir).ls(fs)
}

/// Copies bytes of file `id` from `offset` into `buf`, up to the end of
/// `buf` or of the file, and returns how many were copied; copies nothing
/// when inode `id` does not exist.
pub fn read_at_in(fs: &FileSystem, id: u32, offset: usize, buf: &mut [u8]) -> (n: usize)
    ensures
        final(buf)@.len() == old(buf)@.len(),
        id >= fs@.len() ==> n == 0 && final(buf)@ == old(buf)@,
        id < fs@.len() ==> {
            &&& n == read_len(fs@[id as int].data.len() as int, offset as int, old(buf)@.len() as int)
            &&& forall|k: int| 0 <= k < n ==> #[trigger] final(buf)@[k] == fs@[id as int].data[offset + k]
            &&& forall|k: int| n <= k < old(buf)@.len() ==> #[trigger] final(buf)@[k] == old(buf)@[k]
        },
{
    if (id as usize) >= fs.inode_count() {
        return 0;
    }
    InodeHandle::new(id).read_at(fs, offset, buf)
}

/// Writes `buf` into file `id` at `offset` and returns `buf.len()`, when
/// inode `id` exists and the end stays within `u32::MAX`; otherwise writes
/// nothing and returns 0.
pub fn write_at_in(fs: &mut FileSystem, id: u32, offset: usize, buf: &[u8]) -> (n: usize)
    ensures
        id < old(fs)@.len() && offset + buf@.len() <= u32::MAX ==> n == buf@.len() && final(fs)@
            == after_write(old(fs)@, id as int, offset as int, buf@) && write_keeps_rest(
            old(fs)@[id as int].data,
            final(fs)@[id as int].data,
            offset as int,
            buf@,
        ),
        !(id < old(fs)@.len() && offset + buf@.len() <= u32::MAX) ==> n == 0 && final(fs)@ == old(
            fs,
        )@,
{
    if (id as usize) >= fs.inode_count() || offset > u32::MAX as usize || buf.len() > u32::MAX
        as usize - offset {
        return 0;
    }
    InodeHandle::new(id).write_at(fs, offset, buf)
}

/// Empties inode `id`, when it exists.
pub fn clear_in(fs: &mut FileSystem, id: u32)
    ensures
        id < old(fs)@.len() ==> final(fs)@ == old(fs)@.update(
            id as int,
            InodeView { data: Seq::empty(), entries: Seq::empty(), ..old(fs)@[id as int] },
        ),
        id >= old(fs)@.len() ==> final(fs)@ == old(fs)@,
        final(fs).wf(),
{
    proof {
        use_type_invariant(&*fs);
    }
    if (id as usize) < fs.inode_count() {
        InodeHandle::new(id).clear(fs);
    }
}

/// Adds to directory `dir` an entry `new_path` for the inode `old_path`
/// names, counting the extra link, when `link_ok` holds; otherwise changes
/// nothing. Returns whether it linked.
pub fn link_in(fs: &mut FileSystem, dir: u32, old_path: &str, new_path: &str) -> (linked: bool)
    ensures
        linked == link_ok(old(fs)@, dir as int, old_path@),
        linked ==> final(fs)@ == after_link(
            old(fs)@,
            dir as int,
            lookup(old(fs)@[dir as int].entries, old_path@)->0 as int,
            new_path@,
        ),
        !linked ==> final(fs)@ == old(fs)@,
        final(fs).wf(),
{
    proof {
        use_type_invariant(&*fs);
    }
    if !fs.is_directory(dir) {
        return false;
    }
    let d = InodeHandle::new(dir);
    match d.find(fs, old_path) {
        None => false,
        Some(t) => {
            if fs.links_count(t.inode_id) == u32::MAX {
                return false;
            }
            d.link(fs, old_path, new_path)
        },
    }
}

/// Removes from directory `dir` the first entry `path` when `unlink_ok`
/// holds; otherwise changes nothing. Returns whether it removed one.
pub fn unlink_in(fs: &mut FileSystem, dir: u32, path: &str) -> (unlinked: bool)
    ensures
        unlinked == unlink_ok(old(fs)@, dir as int, path@),
        unlinked ==> final(fs)@ == after_unlink(
            old(fs)@,
            dir as int,
            first_entry(old(fs)@[dir as int].entries, path@)->0,
        ),
        !unlinked ==> final(fs)@ == old(fs)@,
        final(fs).wf(),
{
    proof {
        use_type_invariant(&*fs);
    }
    if !fs.is_directory(dir) {
        return false;
    }
    let d = InodeHandle::new(dir);
    match d.find(fs, path) {
        None => false,
        Some(t) => {
            let links = fs.links_count(t.inode_id);
            if links == 0 || (t.inode_id == dir && links == 1) {
                return false;
            }
            d.unlink(fs, path)
        },
    }
}

/// The id, kind (1 for a directory, 2 for a file) and link count of inode
/// `id`; `(id, 0, 0)` when it does not exist.
pub fn get_stat_in(fs: &FileSystem, id: u32) -> (stat: (u64, u32, u32))
    ensures
        id < fs@.len() ==> stat == (id as u64, if fs@[id as int].is_dir {
            1u32
        } else {
            2u32
        }, fs@[id as int].links_count),
        id >= fs@.len() ==> stat == (id as u64, 0u32, 0u32),
{
    if (id as usize) >= fs.inode_count() {
        return (id as u64, 0, 0);
    }
    InodeHandle::new(id).get_stat(fs)
}

/// A file made by `create` is found under its name in the directory, and is
/// a fresh empty file.
pub proof fn law_create_then_find(fs: Seq<InodeView>, d: int, name: Seq<char>)
    requires
        0 <= d < fs.len(),
        lookup(fs[d].entries, name) is None,
    ensures
        lookup(after_create(fs, d, name)[d].entries, name) == Some(fs.len() as u32),
        after_create(fs, d, name)[fs.len() as int] == fresh_inode(false),
{
    let es = fs[d].entries;
    let es2 = after_create(fs, d, name)[d].entries;
    lemma_first_entry(es, name);
    assert(es2 == es.push((name, fs.len() as u32)));
    assert forall|k: int| 0 <= k < es.len() implies #[trigger] es2[k].0 != name by {
        assert(es2[k] == es[k]);
    }
    lemma_first_entry_is(es2, name, es.len() as int);
}

/// After `link` adds a name that the directory did not hold, that name finds
/// the linked inode, which counts one more link.
pub proof fn law_link_then_find(fs: Seq<InodeView>, d: int, t: int, name: Seq<char>)
    requires
        0 <= d < fs.len(),
        0 <= t < fs.len(),
        fs[t].links_count < u32::MAX,
        lookup(fs[d].entries, name) is None,
    ensures
        lookup(after_link(fs, d, t, name)[d].entries, name) == Some(t as u32),
        after_link(fs, d, t, name)[t].links_count == fs[t].links_count + 1,
{
    let es = fs[d].entries;
    let es2 = after_link(fs, d, t, name)[d].entries;
    lemma_first_entry(es, name);
    assert(es2 == es.push((name, t as u32)));
    assert forall|k: int| 0 <= k < es.len() implies #[trigger] es2[k].0 != name by {
        assert(es2[k] == es[k]);
    }
    lemma_first_entry_is(es2, name, es.len() as int);
}

/// Unlinking a name that `link` has just added, and that the directory did
/// not hold before, gives back the inodes as they were before the link.
pub proof fn law_link_then_unlink(fs: Seq<InodeView>, d: int, t: int, name: Seq<char>)
    requires
        0 <= d < fs.len(),
        0 <= t < fs.len(),
        t <= u32::MAX,
        1 <= fs[t].links_count < u32::MAX,
        lookup(fs[d].entries, name) is None,
    ensures
        first_entry(after_link(fs, d, t, name)[d].entries, name) == Some(fs[d].entries.len() as int),
        after_unlink(after_link(fs, d, t, name), d, fs[d].entries.len() as int) == fs,
{
    let es = fs[d].entries;
    let g = after_link(fs, d, t, name);
    let es2 = g[d].entries;
    lemma_first_entry(es, name);
    assert(es2 == es.push((name, t as u32)));
    assert forall|k: int| 0 <= k < es.len() implies #[trigger] es2[k].0 != name by {
        assert(es2[k] == es[k]);
    }
    lemma_first_entry_is(es2, name, es.len() as int);
    let i = es.len() as int;
    assert(g[d].entries[i].1 as int == t);
    assert(g[t].links_count == fs[t].links_count + 1);
    let released = g.update(
        t,
        InodeView { links_count: (g[t].links_count - 1) as u32, ..g[t] },
    );
    assert(released[d].entries == es2);
    let back = after_unlink(g, d, i);
    assert(es2.update(i, es2.last()).drop_last() =~= es);
    assert(back.len() == fs.len());
    assert forall|k: int| 0 <= k < fs.len() implies #[trigger] back[k] == fs[k] by {
        if k == d {
            assert(back[k].entries =~= fs[k].entries);
        }
    }
    assert(back =~= fs);
}

/// When a name occurs once in a directory, `unlink` removes it: the name
/// finds nothing afterwards.
pub proof fn law_unlink_then_find(fs: Seq<InodeView>, d: int, name: Seq<char>, i: int)
    requires
        0 <= d < fs.len(),
        first_entry(fs[d].entries, name) == Some(i),
        forall|k: int| 0 <= k < fs[d].entries.len() && k != i ==> #[trigger] fs[d].entries[k].0 != name,
        fs[d].entries[i].1 as int == d ==> fs[d].links_count > 1,
        0 <= fs[d].entries[i].1 < fs.len(),
    ensures
        lookup(after_unlink(fs, d, i)[d].entries, name) is None,
{
    lemma_first_entry(fs[d].entries, name);
    let es = fs[d].entries;
    let t = es[i].1 as int;
    let after = after_unlink(fs, d, i);
    let es2 = after[d].entries;
    assert(es2 == es.update(i, es.last()).drop_last());
    assert forall|k: int| 0 <= k < es2.len() implies #[trigger] es2[k].0 != name by {
        if k == i {
            assert(es2[k] == es[es.len() - 1]);
        } else {
            assert(es2[k] == es[k]);
        }
    }
    lemma_first_entry_is(es2, name, es2.len() as int);
}

/// Reading back from where `write_at` wrote returns what was written.
pub proof fn law_write_then_read(fs: Seq<InodeView>, f: int, offset: int, buf: Seq<u8>)
    requires
        0 <= f < fs.len(),
        0 <= offset,
    ensures
        read_len(after_write(fs, f, offset, buf)[f].data.len() as int, offset, buf.len() as int)
            == buf.len(),
        forall|k: int|
            0 <= k < buf.len() ==> #[trigger] after_write(fs, f, offset, buf)[f].data[offset + k]
                == buf[k],
{
}

/// A write of `buf` at `offset` turned `old` into `new`: the file never
/// shrinks, it grows just enough to hold the write, the written range holds
/// `buf`, the bytes it does not cover keep their values, and the gap between
/// the old end and `offset` reads as zeros.
pub open spec fn write_keeps_rest(old: Seq<u8>, new: Seq<u8>, offset: int, buf: Seq<u8>) -> bool {
    &&& new.len() >= old.len()
    &&& new.len() >= offset + buf.len()
    &&& (new.len() == old.len() || new.len() == offset + buf.len())
    &&& forall|k: int| 0 <= k < buf.len() ==> #[trigger] new[offset + k] == buf[k]
    &&& forall|k: int|
        0 <= k < old.len() && !(offset <= k < offset + buf.len()) ==> #[trigger] new[k] == old[k]
    &&& forall|k: int| old.len() <= k < offset ==> #[trigger] new[k] == 0u8
}

/// A read returned `n` after copying from a file holding `data`, starting at
/// `offset`, into a buffer that held `old_buf` and now holds `new_buf`.
pub open spec fn read_from(
    data: Seq<u8>,
    offset: int,
    old_buf: Seq<u8>,
    new_buf: Seq<u8>,
    n: int,
) -> bool {
    &&& n == read_len(data.len() as int, offset, old_buf.len() as int)
    &&& new_buf.len() == old_buf.len()
    &&& forall|k: int| 0 <= k < n ==> #[trigger] new_buf[k] == data[offset + k]
    &&& forall|k: int| n <= k < old_buf.len() ==> #[trigger] new_buf[k] == old_buf[k]
}

/// A write never shortens a file and keeps every byte it does not cover;
/// the file grows to exactly the end of the write when that passes its old
/// end, with zeros in any gap.
pub proof fn law_write_keeps_rest(fs: Seq<InodeView>, f: int, offset: int, buf: Seq<u8>)
    requires
        0 <= f < fs.len(),
        0 <= offset,
    ensures
        write_keeps_rest(fs[f].data, after_write(fs, f, offset, buf)[f].data, offset, buf),
        after_write(fs, f, offset, buf).len() == fs.len(),
        forall|i: int| 0 <= i < fs.len() && i != f ==> #[trigger] after_write(fs, f, offset, buf)[i] == fs[i],
        after_write(fs, f, offset, buf)[f].entries == fs[f].entries,
        after_write(fs, f, offset, buf)[f].links_count == fs[f].links_count,
        after_write(fs, f, offset, buf)[f].data.len() == if offset + buf.len() > fs[f].data.len() {
            offset + buf.len()
        } else {
            fs[f].data.len() as int
        },
{
}

proof fn lemma_first_entry_push(es: Seq<(Seq<char>, u32)>, x: (Seq<char>, u32), name: Seq<char>)
    requires
        first_entry(es, name) is Some,
    ensures
        first_entry(es.push(x), name) == first_entry(es, name),
{
    assert(es.push(x).drop_last() =~= es);
}

/// After `link`, the new name names the very inode the old name names, that
/// inode and no other counts one more link, every earlier entry stays where
/// it was, and no other inode changes.
pub proof fn law_link_names_same_inode(
    fs: Seq<InodeView>,
    d: int,
    old_name: Seq<char>,
    new_name: Seq<char>,
)
    requires
        link_ok(fs, d, old_name),
        lookup(fs[d].entries, new_name) is None,
    ensures
        ({
            let t = lookup(fs[d].entries, old_name)->0 as int;
            let g = after_link(fs, d, t, new_name);
            &&& lookup(g[d].entries, new_name) == lookup(g[d].entries, old_name)
            &&& lookup(g[d].entries, old_name) == lookup(fs[d].entries, old_name)
            &&& g.len() == fs.len()
            &&& g[t].links_count == fs[t].links_count + 1
            &&& forall|i: int| 0 <= i < fs.len() && i != t ==> #[trigger] g[i].links_count == fs[i].links_count
            &&& g[d].entries.len() == fs[d].entries.len() + 1
            &&& forall|k: int| 0 <= k < fs[d].entries.len() ==> #[trigger] g[d].entries[k] == fs[d].entries[k]
            &&& forall|i: int| 0 <= i < fs.len() && i != t && i != d ==> #[trigger] g[i] == fs[i]
        }),
{
    let t = lookup(fs[d].entries, old_name)->0 as int;
    let g = after_link(fs, d, t, new_name);
    law_link_then_find(fs, d, t, new_name);
    assert(g[d].entries == fs[d].entries.push((new_name, t as u32)));
    lemma_first_entry_push(fs[d].entries, (new_name, t as u32), old_name);
    lemma_first_entry(fs[d].entries, old_name);
    let i = first_entry(fs[d].entries, old_name)->0;
    assert(g[d].entries[i] == fs[d].entries[i]);
    assert(lookup(g[d].entries, old_name) == lookup(fs[d].entries, old_name));
    assert(lookup(g[d].entries, new_name) == Some(t as u32));
    assert(lookup(fs[d].entries, old_name) == Some(t as u32));
}

/// `unlink` of a name that occurs once in a directory takes that entry out,
/// whatever the named inode's link count: the directory holds one entry
/// fewer, every other entry stays in it, and the name is no longer found.
/// The named inode loses a link, or, on its last link, its content.
pub proof fn law_unlink_removes_entry(fs: Seq<InodeView>, d: int, name: Seq<char>)
    requires
        unlink_ok(fs, d, name),
        forall|k: int|
            0 <= k < fs[d].entries.len() && Some(k) != first_entry(fs[d].entries, name)
                ==> #[trigger] fs[d].entries[k].0 != name,
    ensures
        ({
            let i = first_entry(fs[d].entries, name)->0;
            let t = fs[d].entries[i].1 as int;
            let g = after_unlink(fs, d, i);
            &&& lookup(g[d].entries, name) is None
            &&& g[d].entries.len() == fs[d].entries.len() - 1
            &&& forall|k: int|
                0 <= k < fs[d].entries.len() && k != i ==> #[trigger] g[d].entries.contains(
                    fs[d].entries[k],
                )
            &&& fs[t].links_count == 1 ==> g[t].data.len() == 0 && g[t].links_count == 1
            &&& fs[t].links_count != 1 ==> g[t].links_count == fs[t].links_count - 1 && g[t].data
                == fs[t].data
            &&& forall|j: int| 0 <= j < fs.len() && j != t && j != d ==> #[trigger] g[j] == fs[j]
        }),
{
    lemma_first_entry(fs[d].entries, name);
    let es = fs[d].entries;
    let i = first_entry(es, name)->0;
    let t = es[i].1 as int;
    let g = after_unlink(fs, d, i);
    assert forall|k: int| 0 <= k < es.len() && k != i implies es[k].0 != name by {
        assert(Some(k) != first_entry(es, name));
    }
    law_unlink_then_find(fs, d, name, i);
    let es2 = g[d].entries;
    assert(es2 == es.update(i, es.last()).drop_last());
    assert forall|k: int| 0 <= k < es.len() && k != i implies #[trigger] es2.contains(es[k]) by {
        if k == es.len() - 1 {
            assert(es2[i] == es[k]);
        } else {
            assert(es2[k] == es[k]);
        }
    }
}

/// Every name that `ls` lists is found by `find`.
pub proof fn law_listed_names_are_found(fs: Seq<InodeView>, d: int)
    requires
        dir_ok(fs, d),
    ensures
        forall|k: int|
            0 <= k < fs[d].entries.len() ==> #[trigger] lookup(fs[d].entries, fs[d].entries[k].0)
                is Some,
{
    assert forall|k: int| 0 <= k < fs[d].entries.len() implies #[trigger] lookup(
        fs[d].entries,
        fs[d].entries[k].0,
    ) is Some by {
        lemma_first_entry(fs[d].entries, fs[d].entries[k].0);
    }
}

/// Every name that `find` finds is listed by `ls`, at the position of the
/// entry it finds.
pub proof fn law_found_names_are_listed(fs: Seq<InodeView>, d: int, name: Seq<char>)
    requires
        dir_ok(fs, d),
        lookup(fs[d].entries, name) is Some,
    ensures
        ({
            let i = first_entry(fs[d].entries, name)->0;
            &&& 0 <= i < fs[d].entries.len()
            &&& fs[d].entries[i] == (name, lookup(fs[d].entries, name)->0)
        }),
{
    lemma_first_entry(fs[d].entries, name);
}

/// `create` with a name it has just made refuses and changes nothing.
pub proof fn law_create_twice(fs: Seq<InodeView>, d: int, name: Seq<char>)
    requires
        create_ok(fs, d, name),
    ensures
        !create_ok(after_create(fs, d, name), d, name),
{
    law_create_then_find(fs, d, name);
}

/// `unlink_in` of a name that `link_in` has just added, and that the
/// directory did not hold before, succeeds and gives back the inodes as they
/// were, when the linked inode counted a link before.
pub proof fn law_link_in_then_unlink_in(
    fs: Seq<InodeView>,
    d: int,
    old_name: Seq<char>,
    new_name: Seq<char>,
)
    requires
        link_ok(fs, d, old_name),
        lookup(fs[d].entries, new_name) is None,
        fs[lookup(fs[d].entries, old_name)->0 as int].links_count >= 1,
    ensures
        ({
            let t = lookup(fs[d].entries, old_name)->0 as int;
            let linked = after_link(fs, d, t, new_name);
            &&& unlink_ok(linked, d, new_name)
            &&& after_unlink(linked, d, first_entry(linked[d].entries, new_name)->0) == fs
        }),
{
    let t = lookup(fs[d].entries, old_name)->0 as int;
    law_link_then_find(fs, d, t, new_name);
    law_link_then_unlink(fs, d, t, new_name);
}

} // verus!
