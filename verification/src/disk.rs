//! The files that the engine works on, as an image in memory.
//!
//! Every file has its bytes and the bytes that are known to be durable. A sync makes the two the
//! same; a crash goes back to the durable ones. Each change is also put on a list, in order, so
//! that a host can carry it out on a real directory.

use crate::codec::{append_bytes, copy_bytes, copy_range};
use crate::text::{chars_of, parse_u64, parse_u64_spec, padded_decimal, push_padded};
use vstd::prelude::*;

verus! {

/// The name of a file.
#[derive(Debug, Clone, Copy, PartialEq, Eq, Structural)]
pub enum FileId {
    /// A segment of the write-ahead log.
    Wal(u64),
    /// A table file.
    Sst(u64),
    /// The manifest.
    Manifest,
    /// The manifest while it is being written.
    ManifestTmp,
}

/// A change of the files.
#[derive(Debug, Clone)]
pub enum DiskOp {
    /// Create the file, empty, where it does not exist.
    Create(FileId),
    /// Write bytes at an offset.
    WriteAt(FileId, usize, Vec<u8>),
    /// Make the file durable.
    Sync(FileId),
    /// Cut the file to a length.
    Truncate(FileId, usize),
    /// Remove the file.
    Remove(FileId),
    /// Give the first file the name of the second.
    Rename(FileId, FileId),
}

/// The bytes of files by their names.
pub type Files = Map<FileId, Seq<u8>>;

struct DiskFile {
    id: FileId,
    data: Vec<u8>,
    durable: Vec<u8>,
}

/// The files of a database, with the changes made to them that were not taken yet.
pub struct Disk {
    files: Vec<DiskFile>,
    ops: Vec<DiskOp>,
    base: Ghost<Image>,
}

/// A change as a mathematical value.
pub enum OpView {
    Create(FileId),
    WriteAt(FileId, nat, Seq<u8>),
    Sync(FileId),
    Truncate(FileId, nat),
    Remove(FileId),
    Rename(FileId, FileId),
}

impl View for DiskOp {
    type V = OpView;

    open spec fn view(&self) -> OpView {
        match self {
            DiskOp::Create(id) => OpView::Create(*id),
            DiskOp::WriteAt(id, off, bytes) => OpView::WriteAt(*id, *off as nat, bytes@),
            DiskOp::Sync(id) => OpView::Sync(*id),
            DiskOp::Truncate(id, len) => OpView::Truncate(*id, *len as nat),
            DiskOp::Remove(id) => OpView::Remove(*id),
            DiskOp::Rename(from, to) => OpView::Rename(*from, *to),
        }
    }
}

/// Changes as mathematical values.
pub open spec fn ops_view(s: Seq<DiskOp>) -> Seq<OpView> {
    s.map_values(|o: DiskOp| o@)
}

/// The bytes of each file and its durable bytes.
pub struct Image {
    pub live: Files,
    pub durable: Files,
}

/// Files after a change is carried out.
pub open spec fn done(m: Image, op: OpView) -> Image {
    match op {
        OpView::Create(id) => Image {
            live: m.live.insert(id, Seq::empty()),
            durable: m.durable.insert(id, Seq::empty()),
        },
        OpView::WriteAt(id, off, bytes) => Image {
            live: m.live.insert(id, written_at(m.live[id], off, bytes)),
            ..m
        },
        OpView::Sync(id) => Image { durable: m.durable.insert(id, m.live[id]), ..m },
        OpView::Truncate(id, len) => Image {
            live: m.live.insert(id, m.live[id].take(len as int)),
            ..m
        },
        OpView::Remove(id) => Image { live: m.live.remove(id), durable: m.durable.remove(id) },
        OpView::Rename(from, to) => Image {
            live: m.live.remove(from).insert(to, m.live[from]),
            durable: m.durable.remove(from).insert(to, m.live[from]),
        },
    }
}

/// Files after changes are carried out in turn.
pub open spec fn all_done(m: Image, ops: Seq<OpView>) -> Image
    decreases ops.len(),
{
    if ops.len() == 0 {
        m
    } else {
        done(all_done(m, ops.drop_last()), ops.last())
    }
}

/// Bytes after others are written over them at an offset; a gap is filled with zeros.
pub open spec fn written_at(s: Seq<u8>, off: nat, d: Seq<u8>) -> Seq<u8> {
    let padded = if s.len() < off {
        s + Seq::new((off - s.len()) as nat, |i: int| 0u8)
    } else {
        s
    };
    if padded.len() <= off + d.len() {
        padded.take(off as int) + d
    } else {
        padded.take(off as int) + d + padded.skip((off + d.len()) as int)
    }
}

impl Disk {
    spec fn names_once(&self) -> bool {
        forall|i: int, j: int|
            0 <= i < j < self.files@.len() ==> (#[trigger] self.files@[i]).id != (
            #[trigger] self.files@[j]).id
    }

    /// Tells whether each name is given once, and whether the changes lead from the files that
    /// were taken last to those that are there.
    pub closed spec fn wf(&self) -> bool {
        &&& self.names_once()
        &&& all_done(self.base@, ops_view(self.ops@)) == self.image()
    }

    /// The files as they were when the changes were taken last.
    pub closed spec fn taken(&self) -> Image {
        self.base@
    }

    /// The files as they are.
    pub open spec fn image(&self) -> Image {
        Image { live: self.live(), durable: self.durable() }
    }

    spec fn has(&self, id: FileId) -> bool {
        exists|i: int| 0 <= i < self.files@.len() && (#[trigger] self.files@[i]).id == id
    }

    spec fn place(&self, id: FileId) -> int {
        choose|i: int| 0 <= i < self.files@.len() && (#[trigger] self.files@[i]).id == id
    }

    /// The bytes of each file.
    pub closed spec fn live(&self) -> Files {
        Map::new(|id: FileId| self.has(id), |id: FileId| self.files@[self.place(id)].data@)
    }

    /// The durable bytes of each file.
    pub closed spec fn durable(&self) -> Files {
        Map::new(|id: FileId| self.has(id), |id: FileId| self.files@[self.place(id)].durable@)
    }

    /// The changes made and not taken yet.
    pub closed spec fn pending(&self) -> Seq<OpView> {
        ops_view(self.ops@)
    }

    proof fn lemma_changed(&self, before: &Disk, op: OpView)
        requires
            all_done(before.base@, ops_view(before.ops@)) == before.image(),
            self.base == before.base,
            self.pending() == before.pending().push(op),
            self.image() == done(before.image(), op),
        ensures
            all_done(self.base@, ops_view(self.ops@)) == self.image(),
    {
        assert(self.pending().drop_last() =~= before.pending());
    }

    proof fn lemma_one_more(&self, before: &Disk, op: DiskOp)
        requires
            all_done(before.base@, ops_view(before.ops@)) == before.image(),
            self.base == before.base,
            self.ops@ == before.ops@.push(op),
            self.image() == done(before.image(), op@),
        ensures
            all_done(self.base@, ops_view(self.ops@)) == self.image(),
            self.pending() == before.pending().push(op@),
    {
        assert(self.pending() =~= before.pending().push(op@));
        self.lemma_changed(before, op@);
    }

    proof fn lemma_place(&self, id: FileId, i: int)
        requires
            self.names_once(),
            0 <= i < self.files@.len(),
            self.files@[i].id == id,
        ensures
            self.has(id),
            self.place(id) == i,
            self.live().contains_key(id),
            self.durable().contains_key(id),
            self.live()[id] == self.files@[i].data@,
            self.durable()[id] == self.files@[i].durable@,
    {
        assert(self.has(id));
        let p = self.place(id);
        if p < i {
            assert(self.files@[p].id != self.files@[i].id);
        } else if i < p {
            assert(self.files@[i].id != self.files@[p].id);
        }
    }

    /// The two images have the same files.
    pub proof fn lemma_domains(&self)
        ensures
            self.live().dom() == self.durable().dom(),
    {
        assert(self.live().dom() =~= self.durable().dom());
    }

    /// An empty directory.
    pub fn new() -> (r: Disk)
        ensures
            r.wf(),
            r.live() == Files::empty(),
            r.durable() == Files::empty(),
            r.pending() == Seq::<OpView>::empty(),
            r.taken() == r.image(),
    {
        let r = Disk {
            files: Vec::new(),
            ops: Vec::new(),
            base: Ghost(Image { live: Files::empty(), durable: Files::empty() }),
        };
        assert(r.live() =~= Files::empty());
        assert(r.durable() =~= Files::empty());
        assert(r.pending() =~= Seq::<OpView>::empty());
        r
    }

    fn find(&self, id: FileId) -> (r: Option<usize>)
        requires
            self.wf(),
        ensures
            match r {
                Some(i) => i < self.files@.len() && self.files@[i as int].id == id && self.has(id),
                None => !self.has(id) && !self.live().contains_key(id),
            },
    {
        let mut i: usize = 0;
        while i < self.files.len()
            invariant
                i <= self.files@.len(),
                forall|k: int| 0 <= k < i ==> (#[trigger] self.files@[k]).id != id,
            decreases self.files.len() - i,
        {
            if self.files[i].id == id {
                return Some(i);
            }
            i += 1;
        }
        None
    }

    /// Tells whether a file exists.
    pub fn contains(&self, id: FileId) -> (r: bool)
        requires
            self.wf(),
        ensures
            r == self.live().contains_key(id),
    {
        match self.find(id) {
            Some(i) => {
                proof {
                    self.lemma_place(id, i as int);
                }
                true
            },
            None => false,
        }
    }

    /// The bytes of a file, where it exists.
    pub fn read(&self, id: FileId) -> (r: Option<&Vec<u8>>)
        requires
            self.wf(),
        ensures
            match r {
                Some(d) => self.live().contains_key(id) && d@ == self.live()[id],
                None => !self.live().contains_key(id),
            },
    {
        match self.find(id) {
            Some(i) => {
                proof {
                    self.lemma_place(id, i as int);
                }
                Some(&self.files[i].data)
            },
            None => None,
        }
    }

    proof fn lemma_same_names(&self, other: &Disk)
        requires
            self.files@.len() == other.files@.len(),
            forall|k: int|
                0 <= k < self.files@.len() ==> (#[trigger] self.files@[k]).id
                    == other.files@[k].id,
        ensures
            self.names_once() == other.names_once(),
            forall|id: FileId| self.has(id) == other.has(id),
    {
        assert forall|id: FileId| self.has(id) == other.has(id) by {
            if self.has(id) {
                let p = self.place(id);
                assert(other.files@[p].id == id);
            }
            if other.has(id) {
                let p = other.place(id);
                assert(self.files@[p].id == id);
            }
        }
        if self.names_once() {
            assert forall|i: int, j: int| 0 <= i < j < other.files@.len() implies (
            #[trigger] other.files@[i]).id != (#[trigger] other.files@[j]).id by {
                assert(self.files@[i].id != self.files@[j].id);
            }
        }
        if other.names_once() {
            assert forall|i: int, j: int| 0 <= i < j < self.files@.len() implies (
            #[trigger] self.files@[i]).id != (#[trigger] self.files@[j]).id by {
                assert(other.files@[i].id != other.files@[j].id);
            }
        }
    }

    /// One file's bytes replaced, all names as before.
    proof fn lemma_replaced(&self, before: &Disk, i: int)
        requires
            before.names_once(),
            0 <= i < before.files@.len(),
            self.files@.len() == before.files@.len(),
            self.files@[i].id == before.files@[i].id,
            forall|k: int|
                0 <= k < before.files@.len() && k != i ==> #[trigger] self.files@[k]
                    == before.files@[k],
        ensures
            self.names_once(),
            self.live() == before.live().insert(before.files@[i].id, self.files@[i].data@),
            self.durable() == before.durable().insert(
                before.files@[i].id,
                self.files@[i].durable@,
            ),
    {
        assert forall|k: int| 0 <= k < self.files@.len() implies (#[trigger] self.files@[k]).id
            == before.files@[k].id by {
            if k != i {
                assert(self.files@[k] == before.files@[k]);
            }
        }
        self.lemma_same_names(before);
        let name = before.files@[i].id;
        let l = before.live().insert(name, self.files@[i].data@);
        let d = before.durable().insert(name, self.files@[i].durable@);
        before.lemma_place(name, i);
        assert forall|id: FileId| self.live().contains_key(id) implies self.live()[id] == l[id]
            && self.durable()[id] == d[id] by {
            assert(self.has(id));
            let p = self.place(id);
            self.lemma_place(id, p);
            before.lemma_place(id, p);
            if p != i {
                assert(self.files@[p] == before.files@[p]);
                if id == name {
                    before.lemma_place(name, i);
                }
            }
        }
        assert(self.live() =~= l);
        assert(self.durable() =~= d);
    }

    /// Creates a file, empty, where it does not exist.
    pub fn create(&mut self, id: FileId)
        requires
            old(self).wf(),
        ensures
            final(self).wf(),
            final(self).live() == (if old(self).live().contains_key(id) {
                old(self).live()
            } else {
                old(self).live().insert(id, Seq::empty())
            }),
            final(self).durable() == (if old(self).live().contains_key(id) {
                old(self).durable()
            } else {
                old(self).durable().insert(id, Seq::empty())
            }),
            final(self).taken() == old(self).taken(),
            final(self).pending() == (if old(self).live().contains_key(id) {
                old(self).pending()
            } else {
                old(self).pending().push(OpView::Create(id))
            }),
    {
        match self.find(id) {
            Some(i) => {
                proof {
                    self.lemma_place(id, i as int);
                }
            },
            None => {
                let ghost before = *self;
                self.ops.push(DiskOp::Create(id));
                self.files.push(DiskFile { id, data: Vec::new(), durable: Vec::new() });
                proof {
                    let n = before.files@.len() as int;
                    assert forall|i: int, j: int| 0 <= i < j < self.files@.len() implies (
                    #[trigger] self.files@[i]).id != (#[trigger] self.files@[j]).id by {
                        assert(self.files@[i] == before.files@[i]);
                        if j < n {
                            assert(self.files@[j] == before.files@[j]);
                        }
                    }
                    let l = before.live().insert(id, Seq::empty());
                    let d = before.durable().insert(id, Seq::empty());
                    self.lemma_place(id, n);
                    assert forall|x: FileId| #[trigger] self.live().contains_key(x)
                        == l.contains_key(x) by {
                        if before.has(x) {
                            let p = before.place(x);
                            assert(self.files@[p] == before.files@[p]);
                            self.lemma_place(x, p);
                        }
                        if self.has(x) && x != id {
                            let p = self.place(x);
                            assert(p != n);
                            assert(before.files@[p].id == x);
                        }
                    }
                    assert forall|x: FileId| #[trigger] self.live().contains_key(x)
                        implies self.live()[x] == l[x] && self.durable()[x] == d[x] by {
                        if x != id {
                            let p = self.place(x);
                            assert(p != n);
                            assert(before.files@[p].id == x);
                            before.lemma_place(x, p);
                            self.lemma_place(x, p);
                        }
                    }
                    assert(self.live() =~= l);
                    assert(self.durable() =~= d);
                    self.lemma_one_more(&before, DiskOp::Create(id));
                }
            },
        }
    }

    /// Writes bytes into a file at an offset. A file that does not exist is created first.
    pub fn write_at(&mut self, id: FileId, off: usize, bytes: &[u8])
        requires
            old(self).wf(),
            off + bytes@.len() <= usize::MAX,
        ensures
            final(self).wf(),
            final(self).live() == old(self).live().insert(
                id,
                written_at(
                    if old(self).live().contains_key(id) {
                        old(self).live()[id]
                    } else {
                        Seq::empty()
                    },
                    off as nat,
                    bytes@,
                ),
            ),
            final(self).durable() == (if old(self).live().contains_key(id) {
                old(self).durable()
            } else {
                old(self).durable().insert(id, Seq::empty())
            }),
            final(self).taken() == old(self).taken(),
            final(self).pending() == (if old(self).live().contains_key(id) {
                old(self).pending()
            } else {
                old(self).pending().push(OpView::Create(id))
            }).push(OpView::WriteAt(id, off as nat, bytes@)),
    {
        self.create(id);
        let ghost created = *self;
        match self.find(id) {
            Some(i) => {
                proof {
                    self.lemma_place(id, i as int);
                }
                let ghost s = self.files@[i as int].data@;
                let data = spliced(&self.files[i].data, off, bytes);
                let op = DiskOp::WriteAt(id, off, copy_bytes(bytes));
                let ghost done_op = op;
                self.ops.push(op);
                let durable = copy_bytes(&self.files[i].durable);
                self.files.set(i, DiskFile { id, data, durable });
                proof {
                    self.lemma_replaced(&created, i as int);
                    assert(self.durable() =~= created.durable());
                    assert(self.live() =~= old(self).live().insert(
                        id,
                        written_at(s, off as nat, bytes@),
                    ));
                    assert(self.live() =~= created.live().insert(
                        id,
                        written_at(s, off as nat, bytes@),
                    ));
                    self.lemma_one_more(&created, done_op);
                }
            },
            None => {
                assert(false);
            },
        }
    }

    /// Appends bytes to a file that exists.
    pub fn append(&mut self, id: FileId, bytes: &[u8])
        requires
            old(self).wf(),
            old(self).live().contains_key(id),
        ensures
            final(self).wf(),
            final(self).live() == old(self).live().insert(id, old(self).live()[id] + bytes@),
            final(self).durable() == old(self).durable(),
            final(self).taken() == old(self).taken(),
            final(self).pending() == old(self).pending().push(
                OpView::WriteAt(id, old(self).live()[id].len(), bytes@),
            ),
    {
        let ghost before = *self;
        match self.find(id) {
            Some(i) => {
                proof {
                    self.lemma_place(id, i as int);
                }
                let len = self.files[i].data.len();
                let op = DiskOp::WriteAt(id, len, copy_bytes(bytes));
                let ghost done_op = op;
                self.ops.push(op);
                let file = &mut self.files[i];
                append_bytes(&mut file.data, bytes);
                proof {
                    self.lemma_replaced(&before, i as int);
                    assert(self.durable() =~= before.durable());
                    let s = before.live()[id];
                    assert(written_at(s, s.len(), bytes@) =~= s + bytes@);
                    self.lemma_one_more(&before, done_op);
                }
            },
            None => {
                assert(false);
            },
        }
    }

    /// Makes a file durable, where it exists.
    pub fn sync(&mut self, id: FileId)
        requires
            old(self).wf(),
        ensures
            final(self).wf(),
            final(self).live() == old(self).live(),
            final(self).durable() == (if old(self).live().contains_key(id) {
                old(self).durable().insert(id, old(self).live()[id])
            } else {
                old(self).durable()
            }),
            final(self).taken() == old(self).taken(),
            final(self).pending() == (if old(self).live().contains_key(id) {
                old(self).pending().push(OpView::Sync(id))
            } else {
                old(self).pending()
            }),
    {
        let ghost before = *self;
        match self.find(id) {
            Some(i) => {
                proof {
                    self.lemma_place(id, i as int);
                }
                let data = copy_bytes(&self.files[i].data);
                let durable = copy_bytes(&self.files[i].data);
                self.ops.push(DiskOp::Sync(id));
                self.files.set(i, DiskFile { id, data, durable });
                proof {
                    self.lemma_replaced(&before, i as int);
                    assert(self.live() =~= before.live());
                    self.lemma_one_more(&before, DiskOp::Sync(id));
                }
            },
            None => {},
        }
    }

    /// Cuts a file to a length and makes it durable, where it exists.
    pub fn truncate(&mut self, id: FileId, len: usize)
        requires
            old(self).wf(),
        ensures
            final(self).wf(),
            old(self).live().contains_key(id) ==> {
                let s = old(self).live()[id];
                let t = if len <= s.len() {
                    s.take(len as int)
                } else {
                    s
                };
                &&& final(self).live() == old(self).live().insert(id, t)
                &&& final(self).durable() == old(self).durable().insert(id, t)
            },
            !old(self).live().contains_key(id) ==> final(self).live() == old(self).live()
                && final(self).durable() == old(self).durable(),
            final(self).taken() == old(self).taken(),
            final(self).pending() == (if old(self).live().contains_key(id) {
                let n = old(self).live()[id].len();
                old(self).pending().push(
                    OpView::Truncate(
                        id,
                        if len <= n {
                            len as nat
                        } else {
                            n
                        },
                    ),
                ).push(OpView::Sync(id))
            } else {
                old(self).pending()
            }),
    {
        let ghost before = *self;
        match self.find(id) {
            Some(i) => {
                proof {
                    self.lemma_place(id, i as int);
                }
                let n = self.files[i].data.len();
                let keep = if len < n {
                    len
                } else {
                    n
                };
                let data = copy_range(&self.files[i].data, 0, keep);
                let durable = copy_range(&self.files[i].data, 0, keep);
                self.ops.push(DiskOp::Truncate(id, keep));
                self.ops.push(DiskOp::Sync(id));
                self.files.set(i, DiskFile { id, data, durable });
                proof {
                    self.lemma_replaced(&before, i as int);
                    let s = before.live()[id];
                    assert(s.subrange(0, keep as int) =~= (if len <= s.len() {
                        s.take(len as int)
                    } else {
                        s
                    }));
                    let cut = DiskOp::Truncate(id, keep);
                    let first = ops_view(before.ops@.push(cut));
                    let both = ops_view(self.ops@);
                    assert(first =~= ops_view(before.ops@).push(cut@));
                    assert(both =~= first.push(OpView::Sync(id)));
                    assert(first.drop_last() =~= ops_view(before.ops@));
                    assert(both.drop_last() =~= first);
                    assert(s.subrange(0, keep as int) =~= s.take(keep as int));
                    reveal_with_fuel(all_done, 3);
                    assert(before.live().insert(id, s.take(keep as int))[id] == s.take(
                        keep as int,
                    ));
                }
            },
            None => {},
        }
    }

    /// Removes a file, where it exists.
    pub fn remove(&mut self, id: FileId)
        requires
            old(self).wf(),
        ensures
            final(self).wf(),
            final(self).live() == old(self).live().remove(id),
            final(self).durable() == old(self).durable().remove(id),
            final(self).taken() == old(self).taken(),
            final(self).pending() == (if old(self).live().contains_key(id) {
                old(self).pending().push(OpView::Remove(id))
            } else {
                old(self).pending()
            }),
    {
        let ghost before = *self;
        match self.find(id) {
            Some(i) => {
                proof {
                    self.lemma_place(id, i as int);
                }
                self.ops.push(DiskOp::Remove(id));
                let _gone = self.files.remove(i);
                proof {
                    self.lemma_removed(&before, i as int);
                    self.lemma_one_more(&before, DiskOp::Remove(id));
                }
            },
            None => {
                assert(before.live() =~= before.live().remove(id));
                assert(before.durable() =~= before.durable().remove(id));
            },
        }
    }

    proof fn lemma_removed(&self, before: &Disk, i: int)
        requires
            before.names_once(),
            0 <= i < before.files@.len(),
            self.files@ == before.files@.remove(i),
        ensures
            self.names_once(),
            self.live() == before.live().remove(before.files@[i].id),
            self.durable() == before.durable().remove(before.files@[i].id),
    {
        let id = before.files@[i].id;
        assert forall|a: int, b: int| 0 <= a < b < self.files@.len() implies (
        #[trigger] self.files@[a]).id != (#[trigger] self.files@[b]).id by {
            let x = if a < i {
                a
            } else {
                a + 1
            };
            let y = if b < i {
                b
            } else {
                b + 1
            };
            assert(self.files@[a] == before.files@[x]);
            assert(self.files@[b] == before.files@[y]);
        }
        before.lemma_place(id, i);
        let l = before.live().remove(id);
        let d = before.durable().remove(id);
        assert forall|x: FileId| #[trigger] self.live().contains_key(x) == l.contains_key(x) by {
            if self.has(x) {
                let p = self.place(x);
                let q = if p < i {
                    p
                } else {
                    p + 1
                };
                assert(self.files@[p] == before.files@[q]);
                before.lemma_place(x, q);
                if x == id {
                    before.lemma_place(x, i);
                }
            }
            if before.has(x) && x != id {
                let q = before.place(x);
                let p = if q < i {
                    q
                } else {
                    q - 1
                };
                assert(self.files@[p] == before.files@[q]);
                self.lemma_place(x, p);
            }
        }
        assert forall|x: FileId| #[trigger] self.live().contains_key(x) implies self.live()[x]
            == l[x] && self.durable()[x] == d[x] by {
            let p = self.place(x);
            let q = if p < i {
                p
            } else {
                p + 1
            };
            assert(self.files@[p] == before.files@[q]);
            before.lemma_place(x, q);
            self.lemma_place(x, p);
        }
        assert(self.live() =~= l);
        assert(self.durable() =~= d);
    }

    /// Gives a file the name of another, which it replaces. The file is made durable by it.
    pub fn rename(&mut self, from: FileId, to: FileId)
        requires
            old(self).wf(),
            from != to,
            old(self).live().contains_key(from),
        ensures
            final(self).wf(),
            final(self).live() == old(self).live().remove(from).insert(
                to,
                old(self).live()[from],
            ),
            final(self).durable() == old(self).durable().remove(from).insert(
                to,
                old(self).live()[from],
            ),
            final(self).taken() == old(self).taken(),
            final(self).pending() == old(self).pending().push(OpView::Rename(from, to)),
    {
        let ghost start = *self;
        let data: Vec<u8> = match self.read(from) {
            Some(d) => copy_bytes(d),
            None => Vec::new(),
        };
        let n = self.ops.len();
        self.remove(from);
        self.create(to);
        let ghost created = *self;
        match self.find(to) {
            Some(i) => {
                proof {
                    self.lemma_place(to, i as int);
                }
                let durable = copy_bytes(&data);
                assert(created.pending().take(n as int) =~= start.pending());
                assert(created.pending().len() == created.ops@.len());
                self.ops.truncate(n);
                self.ops.push(DiskOp::Rename(from, to));
                self.files.set(i, DiskFile { id: to, data, durable });
                proof {
                    self.lemma_replaced(&created, i as int);
                    assert(self.live() =~= start.live().remove(from).insert(
                        to,
                        start.live()[from],
                    ));
                    assert(self.durable() =~= start.durable().remove(from).insert(
                        to,
                        start.live()[from],
                    ));
                    assert(self.ops@ =~= created.ops@.take(n as int).push(
                        DiskOp::Rename(from, to),
                    ));
                    assert(ops_view(created.ops@.take(n as int)) =~= created.pending().take(
                        n as int,
                    ));
                    assert(self.pending() =~= start.pending().push(OpView::Rename(from, to)));
                    self.lemma_changed(&start, OpView::Rename(from, to));
                }
            },
            None => {
                assert(false);
            },
        }
    }

    /// Loses everything that is not durable. The changes not taken yet are forgotten.
    pub fn simulate_crash(&mut self)
        requires
            old(self).wf(),
        ensures
            final(self).wf(),
            final(self).live() == old(self).durable(),
            final(self).durable() == old(self).durable(),
            final(self).taken() == final(self).image(),
            final(self).pending() == Seq::<OpView>::empty(),
    {
        let ghost before = *self;
        self.ops = Vec::new();
        let mut i: usize = 0;
        while i < self.files.len()
            invariant
                i <= self.files@.len(),
                self.ops@.len() == 0,
                before.names_once(),
                self.files@.len() == before.files@.len(),
                forall|k: int|
                    0 <= k < self.files@.len() ==> (#[trigger] self.files@[k]).id
                        == before.files@[k].id && self.files@[k].durable@
                        == before.files@[k].durable@,
                forall|k: int|
                    0 <= k < i ==> (#[trigger] self.files@[k]).data@ == before.files@[k].durable@,
            decreases self.files.len() - i,
        {
            let id = self.files[i].id;
            let data = copy_bytes(&self.files[i].durable);
            let durable = copy_bytes(&self.files[i].durable);
            self.files.set(i, DiskFile { id, data, durable });
            i += 1;
        }
        proof {
            self.lemma_same_names(&before);
            assert forall|id: FileId| #[trigger] self.live().contains_key(id) implies self.live()[id]
                == before.durable()[id] && self.durable()[id] == before.durable()[id] by {
                assert(self.has(id));
                let p = self.place(id);
                self.lemma_place(id, p);
                before.lemma_place(id, p);
            }
            assert(self.live() =~= before.durable());
            assert(self.durable() =~= before.durable());
            assert(self.pending() =~= Seq::<OpView>::empty());
        }
        self.base = Ghost(self.image());
        proof {
            assert(self.live() =~= before.durable());
            assert(self.durable() =~= before.durable());
        }
    }

    /// Takes the list of changes, which is empty afterwards. Carried out in turn, they lead from
    /// the files as they were when this was asked last to the files as they are.
    pub fn take_ops(&mut self) -> (r: Vec<DiskOp>)
        requires
            old(self).wf(),
        ensures
            final(self).wf(),
            ops_view(r@) == old(self).pending(),
            all_done(old(self).taken(), ops_view(r@)) == old(self).image(),
            final(self).pending() == Seq::<OpView>::empty(),
            final(self).taken() == final(self).image(),
            final(self).live() == old(self).live(),
            final(self).durable() == old(self).durable(),
    {
        let ghost before = *self;
        let mut r: Vec<DiskOp> = Vec::new();
        std::mem::swap(&mut r, &mut self.ops);
        proof {
            assert(self.files == before.files);
            assert(self.live() =~= before.live());
            assert(self.durable() =~= before.durable());
            assert(self.pending() =~= Seq::<OpView>::empty());
        }
        self.base = Ghost(self.image());
        proof {
            assert(self.live() =~= before.live());
            assert(self.durable() =~= before.durable());
        }
        r
    }

    /// The numbers of the log segments, ascending.
    pub fn wal_numbers(&self) -> (r: Vec<u64>)
        requires
            self.wf(),
        ensures
            ascending(r@),
            forall|n: u64| r@.contains(n) == self.live().contains_key(FileId::Wal(n)),
    {
        let mut r: Vec<u64> = Vec::new();
        let mut i: usize = 0;
        while i < self.files.len()
            invariant
                i <= self.files@.len(),
                ascending(r@),
                forall|n: u64| #[trigger]
                    r@.contains(n) == exists|k: int|
                        0 <= k < i && (#[trigger] self.files@[k]).id == FileId::Wal(n),
            decreases self.files.len() - i,
        {
            let ghost prev = r@;
            match self.files[i].id {
                FileId::Wal(n) => {
                    insert_ascending(&mut r, n);
                },
                _ => {},
            }
            proof {
                assert forall|n: u64| #[trigger] r@.contains(n) == exists|k: int|
                    0 <= k < i + 1 && (#[trigger] self.files@[k]).id == FileId::Wal(n) by {
                    if prev.contains(n) {
                        let k = choose|k: int|
                            0 <= k < i && (#[trigger] self.files@[k]).id == FileId::Wal(n);
                        assert(self.files@[k].id == FileId::Wal(n));
                    }
                    if self.files@[i as int].id == FileId::Wal(n) {
                        assert(r@.contains(n));
                    }
                }
            }
            i += 1;
        }
        proof {
            assert forall|n: u64| r@.contains(n) == self.live().contains_key(FileId::Wal(n)) by {
                assert(r@.contains(n) == self.has(FileId::Wal(n)));
            }
        }
        r
    }
}

/// Tells whether numbers ascend.
pub open spec fn ascending(s: Seq<u64>) -> bool {
    forall|i: int, j: int| 0 <= i < j < s.len() ==> s[i] < s[j]
}

/// Puts a number in its place among ascending ones, unless it is there.
pub fn insert_ascending(v: &mut Vec<u64>, n: u64)
    requires
        ascending(old(v)@),
    ensures
        ascending(final(v)@),
        forall|m: u64| #[trigger] final(v)@.contains(m) == (old(v)@.contains(m) || m == n),
{
    let ghost before = v@;
    let mut i: usize = 0;
    while i < v.len() && v[i] < n
        invariant
            v@ == before,
            i <= v@.len(),
            forall|k: int| 0 <= k < i ==> v@[k] < n,
        decreases v.len() - i,
    {
        i += 1;
    }
    if i < v.len() && v[i] == n {
        return ;
    }
    v.insert(i, n);
    proof {
        assert(v@ == before.insert(i as int, n));
        assert forall|m: u64| #[trigger] v@.contains(m) == (before.contains(m) || m == n) by {
            if before.contains(m) {
                let k = choose|k: int| 0 <= k < before.len() && before[k] == m;
                let q = if k < i {
                    k
                } else {
                    k + 1
                };
                assert(v@[q] == m);
            }
            if m == n {
                assert(v@[i as int] == n);
            }
            if v@.contains(m) && m != n {
                let k = choose|k: int| 0 <= k < v@.len() && v@[k] == m;
                let q = if k < i {
                    k
                } else {
                    k - 1
                };
                assert(before[q] == m);
            }
        }
    }
}

/// Bytes after others are written over them.
fn spliced(s: &[u8], off: usize, d: &[u8]) -> (r: Vec<u8>)
    requires
        off + d@.len() <= usize::MAX,
    ensures
        r@ == written_at(s@, off as nat, d@),
{
    let keep = if s.len() < off {
        s.len()
    } else {
        off
    };
    let mut r = copy_range(s, 0, keep);
    let ghost padded = if s@.len() < off {
        s@ + Seq::new((off - s@.len()) as nat, |i: int| 0u8)
    } else {
        s@
    };
    while r.len() < off
        invariant
            r@.len() <= off,
            r@ == padded.take(r@.len() as int),
            padded.len() >= off,
            forall|k: int| s@.len() <= k < off ==> padded[k] == 0u8,
            r@.len() >= s@.len() || r@.len() == off,
        decreases off - r@.len(),
    {
        let ghost n = r@.len() as int;
        r.push(0);
        assert(r@ =~= padded.take(n + 1));
    }
    append_bytes(&mut r, d);
    let end = off + d.len();
    if end < s.len() {
        append_bytes(&mut r, vstd::slice::slice_subrange(s, end, s.len()));
        assert(s@.subrange(end as int, s@.len() as int) =~= padded.skip(end as int));
    }
    assert(r@ =~= written_at(s@, off as nat, d@));
    r
}

/// The name of a log segment in a directory.
pub open spec fn segment_name(n: u64) -> Seq<char> {
    padded_decimal(n as nat, 10) + ".wal"@
}

/// The number of the log segment that a name in a directory belongs to, if any: decimal digits
/// followed by `.wal`.
pub open spec fn segment_number(name: Seq<char>) -> Option<u64> {
    if name.len() >= 4 && name.skip(name.len() - 4) == ".wal"@ {
        parse_u64_spec(name.take(name.len() - 4))
    } else {
        None
    }
}

/// The name of a table file in a directory.
pub open spec fn table_name(n: u64) -> Seq<char> {
    padded_decimal(n as nat, 6) + ".sst"@
}

/// The name of a log segment.
pub fn segment_file_name(n: u64) -> (r: String)
    ensures
        r@ == segment_name(n),
{
    let mut r = String::new();
    push_padded(&mut r, n, 10);
    r.push_str(".wal");
    assert(r@ =~= segment_name(n));
    r
}

/// The name of a table file.
pub fn table_file_name(n: u64) -> (r: String)
    ensures
        r@ == table_name(n),
{
    let mut r = String::new();
    push_padded(&mut r, n, 6);
    r.push_str(".sst");
    assert(r@ =~= table_name(n));
    r
}

/// The number of the log segment that a name belongs to, if any.
pub fn parse_segment_name(name: &str) -> (r: Option<u64>)
    ensures
        r == segment_number(name@),
{
    let cs = chars_of(name);
    let n = cs.len();
    proof {
        reveal_strlit(".wal");
    }
    if n < 4 {
        return None;
    }
    let ghost tail = name@.skip(name@.len() - 4);
    if cs[n - 4] == '.' && cs[n - 3] == 'w' && cs[n - 2] == 'a' && cs[n - 1] == 'l' {
        assert(tail =~= ".wal"@);
        let mut digits: Vec<char> = Vec::new();
        let mut i: usize = 0;
        while i < n - 4
            invariant
                n == cs@.len(),
                n >= 4,
                i <= n - 4,
                digits@ == cs@.take(i as int),
            decreases n - i,
        {
            digits.push(cs[i]);
            i += 1;
            assert(digits@ =~= cs@.take(i as int));
        }
        parse_u64(&digits)
    } else {
        proof {
            if tail == ".wal"@ {
                assert(tail[0] == cs@[n - 4]);
                assert(tail[1] == cs@[n - 3]);
                assert(tail[2] == cs@[n - 2]);
                assert(tail[3] == cs@[n - 1]);
            }
        }
        None
    }
}

/// The number of a segment can be told from its name.
pub proof fn law_segment_name_round_trip(n: u64)
    ensures
        segment_number(segment_name(n)) == Some(n),
{
    reveal_strlit(".wal");
    let s = segment_name(n);
    let d = padded_decimal(n as nat, 10);
    crate::text::lemma_padded_round_trip(n, 10);
    assert(s.skip(s.len() - 4) =~= ".wal"@);
    assert(s.take(s.len() - 4) =~= d);
}

/// Bytes that are written at an offset stand there. The bytes before and behind them stay as they
/// were, and a gap between the old end and the offset is filled with zeros.
pub proof fn law_written_bytes(s: Seq<u8>, off: nat, d: Seq<u8>, i: int)
    requires
        0 <= i < written_at(s, off, d).len(),
    ensures
        written_at(s, off, d).len() == if s.len() <= off + d.len() {
            off + d.len()
        } else {
            s.len()
        },
        written_at(s, off, d)[i] == if off <= i < off + d.len() {
            d[i - off]
        } else if i < s.len() {
            s[i]
        } else {
            0
        },
{
    let padded = if s.len() < off {
        s + Seq::new((off - s.len()) as nat, |i: int| 0u8)
    } else {
        s
    };
    assert(padded.len() >= off);
}

/// What a disk holds after a crash changes only by a sync, and by files that come, go or are
/// renamed: a write and a truncation are lost until there is one.
pub proof fn law_only_sync_keeps(m: Image, op: OpView, id: FileId)
    requires
        op is WriteAt || op is Truncate || op is Sync,
        m.durable.contains_key(id),
    ensures
        done(m, op).durable.contains_key(id),
        op is WriteAt || op is Truncate ==> done(m, op).durable[id] == m.durable[id],
        op matches OpView::Sync(x) ==> done(m, op).durable[id] == if x == id {
            m.live[id]
        } else {
            m.durable[id]
        },
        op is Sync ==> done(m, op).live == m.live,
{
}

} // verus!
