//! The files that the buffer pool reads and writes, held in memory by name.
//! The caller reads them from storage into the store, and carries out on
//! storage the changes that the pool notes.
use vstd::prelude::*;

verus! {

/// One file: its name and its bytes.
pub struct DiskFile {
    pub name: String,
    pub bytes: Vec<u8>,
}

/// A set of files with distinct names.
pub struct Disk {
    pub files: Vec<DiskFile>,
}

/// The bytes of a file after `bytes` is written at `offset`: the file grows
/// where the write ends behind it, and a gap between its end and the write is
/// filled with zeros.
pub open spec fn spliced(old: Seq<u8>, offset: int, bytes: Seq<u8>) -> Seq<u8> {
    Seq::new(
        if old.len() >= offset + bytes.len() {
            old.len()
        } else {
            (offset + bytes.len()) as nat
        },
        |i: int|
            if offset <= i < offset + bytes.len() {
                bytes[i - offset]
            } else if i < old.len() {
                old[i]
            } else {
                0u8
            },
    )
}

/// The files after `bytes` is written at `offset` of the file `name`, which
/// is created where it is missing.
pub open spec fn disk_write(
    disk: Map<Seq<char>, Seq<u8>>,
    name: Seq<char>,
    offset: int,
    bytes: Seq<u8>,
) -> Map<Seq<char>, Seq<u8>> {
    disk.insert(
        name,
        spliced(
            if disk.dom().contains(name) {
                disk[name]
            } else {
                Seq::empty()
            },
            offset,
            bytes,
        ),
    )
}

/// The files after `name` is opened: it is created empty where it is missing.
pub open spec fn disk_touch(disk: Map<Seq<char>, Seq<u8>>, name: Seq<char>) -> Map<
    Seq<char>,
    Seq<u8>,
> {
    if disk.dom().contains(name) {
        disk
    } else {
        disk.insert(name, Seq::empty())
    }
}

/// The files after `from` is renamed to `to`, replacing what `to` held.
/// Nothing changes where `from` is missing.
pub open spec fn disk_rename(disk: Map<Seq<char>, Seq<u8>>, from: Seq<char>, to: Seq<char>) -> Map<
    Seq<char>,
    Seq<u8>,
> {
    if disk.dom().contains(from) {
        disk.remove(from).insert(to, disk[from])
    } else {
        disk
    }
}

/// Every file is within the range of offsets.
pub open spec fn files_fit(disk: Map<Seq<char>, Seq<u8>>) -> bool {
    forall|name: Seq<char>| disk.dom().contains(name) ==> (#[trigger] disk[name]).len() <= usize::MAX
}

/// No two files share a name.
pub open spec fn distinct(files: Seq<DiskFile>) -> bool {
    forall|i: int, j: int|
        0 <= i < j < files.len() ==> (#[trigger] files[i]).name@ != (#[trigger] files[j]).name@
}

/// Some file has the name.
pub open spec fn named(files: Seq<DiskFile>, name: Seq<char>) -> bool {
    exists|i: int| 0 <= i < files.len() && (#[trigger] files[i]).name@ == name
}

/// The place of a file of that name.
pub open spec fn place(files: Seq<DiskFile>, name: Seq<char>) -> int {
    choose|i: int| 0 <= i < files.len() && (#[trigger] files[i]).name@ == name
}

impl View for Disk {
    type V = Map<Seq<char>, Seq<u8>>;

    open spec fn view(&self) -> Map<Seq<char>, Seq<u8>> {
        Map::new(
            |name: Seq<char>| named(self.files@, name),
            |name: Seq<char>| self.files@[place(self.files@, name)].bytes@,
        )
    }
}

impl Disk {
    pub open spec fn wf(&self) -> bool {
        distinct(self.files@)
    }

    /// Every file of a disk is within the range of offsets.
    pub proof fn lemma_files_fit(&self)
        ensures
            files_fit(self@),
    {
        assert forall|name: Seq<char>| self@.dom().contains(name) implies (
        #[trigger] self@[name]).len() <= usize::MAX by {
            let i = place(self.files@, name);
            assert(self.files@[i].bytes.len() <= usize::MAX);
        }
    }

    /// A disk without files.
    pub fn new() -> (disk: Self)
        ensures
            disk.wf(),
            disk@ == Map::<Seq<char>, Seq<u8>>::empty(),
    {
        let disk = Disk { files: Vec::new() };
        assert(disk@ =~= Map::<Seq<char>, Seq<u8>>::empty());
        disk
    }

    /// Where the file of that name stands.
    fn find(&self, name: &String) -> (r: Option<usize>)
        requires
            self.wf(),
        ensures
            match r {
                Some(i) => i < self.files@.len() && self.files@[i as int].name@ == name@
                    && named(self.files@, name@) && place(self.files@, name@) == i,
                None => !named(self.files@, name@),
            },
    {
        let mut i: usize = 0;
        while i < self.files.len()
            invariant
                self.wf(),
                0 <= i <= self.files@.len(),
                forall|j: int| 0 <= j < i ==> (#[trigger] self.files@[j]).name@ != name@,
            decreases self.files@.len() - i,
        {
            if self.files[i].name == *name {
                proof {
                    assert(self.files@[i as int].name@ == name@);
                    let p = place(self.files@, name@);
                    assert(self.files@[p].name@ == name@);
                }
                return Some(i);
            }
            i += 1;
        }
        None
    }

    /// Whether a file of that name exists.
    pub fn contains(&self, name: &String) -> (r: bool)
        requires
            self.wf(),
        ensures
            r == self@.dom().contains(name@),
    {
        self.find(name).is_some()
    }

    /// The length of the file, if it exists.
    pub fn len(&self, name: &String) -> (r: Option<usize>)
        requires
            self.wf(),
        ensures
            match r {
                Some(n) => self@.dom().contains(name@) && n == self@[name@].len(),
                None => !self@.dom().contains(name@),
            },
    {
        match self.find(name) {
            Some(i) => Some(self.files[i].bytes.len()),
            None => None,
        }
    }

    /// A copy of the whole file, if it exists.
    pub fn contents(&self, name: &String) -> (r: Option<Vec<u8>>)
        requires
            self.wf(),
        ensures
            match r {
                Some(b) => self@.dom().contains(name@) && b@ == self@[name@],
                None => !self@.dom().contains(name@),
            },
    {
        match self.find(name) {
            Some(i) => {
                let n = self.files[i].bytes.len();
                let r = copy_range(&self.files[i].bytes, 0, n);
                assert(r@ =~= self@[name@]);
                Some(r)
            },
            None => None,
        }
    }

    /// Opens the file: creates it empty where it is missing.
    pub fn touch(&mut self, name: &String)
        requires
            old(self).wf(),
        ensures
            final(self).wf(),
            final(self)@ == disk_touch(old(self)@, name@),
    {
        if self.find(name).is_none() {
            let ghost before = self.files@;
            self.files.push(DiskFile { name: name.clone(), bytes: Vec::new() });
            proof {
                let after = self.files@;
                let n = before.len() as int;
                assert(after[n].name@ == name@);
                assert forall|q: Seq<char>| named(after, q) <==> (q == name@ || named(before, q)) by {
                    if named(before, q) {
                        let i = place(before, q);
                        assert(after[i].name@ == q);
                    }
                    if named(after, q) && q != name@ {
                        let i = place(after, q);
                        assert(before[i].name@ == q);
                    }
                }
                assert forall|q: Seq<char>| named(before, q) implies after[place(after, q)].bytes@
                    == before[place(before, q)].bytes@ by {
                    let i = place(before, q);
                    assert(after[i].name@ == q);
                    let j = place(after, q);
                    assert(i == j);
                }
                assert(after[place(after, name@)].bytes@ == Seq::<u8>::empty()) by {
                    let j = place(after, name@);
                    if j != n {
                        assert(before[j].name@ == name@);
                    }
                }
                assert(self@ =~= disk_touch(old(self)@, name@));
            }
        }
    }

    /// A copy of `len` bytes at `offset` of the file: `None` where the file is
    /// missing or ends before them.
    pub fn read_at(&self, name: &String, offset: usize, len: usize) -> (r: Option<Vec<u8>>)
        requires
            self.wf(),
        ensures
            match r {
                Some(b) => self@.dom().contains(name@) && offset + len <= self@[name@].len() && b@
                    == self@[name@].subrange(offset as int, offset + len),
                None => !(self@.dom().contains(name@) && offset + len <= self@[name@].len()),
            },
    {
        match self.find(name) {
            None => None,
            Some(i) => {
                let total = self.files[i].bytes.len();
                if offset > total || len > total - offset {
                    return None;
                }
                Some(copy_range(&self.files[i].bytes, offset, offset + len))
            },
        }
    }

    /// Writes `bytes` at `offset` of the file, creating and growing it as needed.
    pub fn write_at(&mut self, name: &String, offset: usize, bytes: &Vec<u8>)
        requires
            old(self).wf(),
            offset + bytes@.len() <= usize::MAX,
        ensures
            final(self).wf(),
            final(self)@ == disk_write(old(self)@, name@, offset as int, bytes@),
    {
        self.touch(name);
        let ghost mid = self.files@;
        let ghost mv = self@;
        let i = match self.find(name) {
            Some(i) => i,
            None => { return ; },
        };
        let taken = self.files.remove(i);
        let kept = taken.name;
        let mut data = taken.bytes;
        let ghost old_bytes = data@;
        let end = offset + bytes.len();
        while data.len() < end
            invariant
                data@.len() >= old_bytes.len(),
                data@.len() <= end || data@.len() == old_bytes.len(),
                forall|j: int| 0 <= j < old_bytes.len() ==> data@[j] == old_bytes[j],
                forall|j: int| old_bytes.len() <= j < data@.len() ==> data@[j] == 0u8,
            decreases end - data@.len(),
        {
            data.push(0u8);
        }
        let mut k: usize = 0;
        while k < bytes.len()
            invariant
                0 <= k <= bytes@.len(),
                end == offset + bytes@.len(),
                data@.len() >= end,
                data@.len() == if old_bytes.len() >= end {
                    old_bytes.len()
                } else {
                    end as nat
                },
                forall|j: int|
                    0 <= j < data@.len() ==> data@[j] == if offset <= j < offset + k {
                        bytes@[j - offset]
                    } else if j < old_bytes.len() {
                        old_bytes[j]
                    } else {
                        0u8
                    },
            decreases bytes@.len() - k,
        {
            data.set(offset + k, bytes[k]);
            k += 1;
        }
        assert(data@ =~= spliced(old_bytes, offset as int, bytes@));
        let file = DiskFile { name: kept, bytes: data };
        self.files.insert(i, file);
        proof {
            let after = self.files@;
            assert(after =~= mid.update(i as int, file));
            assert(file.name@ == name@);
            assert(old_bytes == mid[i as int].bytes@);
            assert forall|j: int| 0 <= j < after.len() implies (#[trigger] after[j]).name@
                == mid[j].name@ by {}
            assert forall|q: Seq<char>| named(after, q) <==> named(mid, q) by {
                if named(mid, q) {
                    assert(after[place(mid, q)].name@ == q);
                }
                if named(after, q) {
                    assert(mid[place(after, q)].name@ == q);
                }
            }
            assert forall|q: Seq<char>| named(mid, q) implies place(after, q) == place(mid, q) by {
                let a = place(after, q);
                let m = place(mid, q);
                assert(after[m].name@ == q);
                assert(mid[a].name@ == q);
            }
            assert(mv[name@] == old_bytes);
            assert forall|q: Seq<char>| named(after, q) implies after[place(after, q)].bytes@ == (
            if q == name@ {
                file.bytes@
            } else {
                mid[place(mid, q)].bytes@
            }) by {
                let a = place(after, q);
                assert(mid[a].name@ == q);
                assert(place(mid, q) == a);
            }
            assert(final(self)@ =~= mv.insert(name@, file.bytes@));
            assert(mv.insert(name@, file.bytes@) =~= disk_write(
                old(self)@,
                name@,
                offset as int,
                bytes@,
            ));
        }
    }

    /// Removes the file. Says whether there was one.
    pub fn remove(&mut self, name: &String) -> (r: bool)
        requires
            old(self).wf(),
        ensures
            final(self).wf(),
            r == old(self)@.dom().contains(name@),
            final(self)@ == old(self)@.remove(name@),
    {
        match self.find(name) {
            None => {
                assert(self@ =~= old(self)@.remove(name@));
                false
            },
            Some(i) => {
                let ghost before = self.files@;
                self.files.remove(i);
                proof {
                    let after = self.files@;
                    assert forall|j: int| 0 <= j < after.len() implies #[trigger] after[j]
                        == before[if j < i { j } else { j + 1 }] by {}
                    assert forall|q: Seq<char>| named(after, q) <==> (q != name@ && named(
                        before,
                        q,
                    )) by {
                        if named(before, q) && q != name@ {
                            let m = place(before, q);
                            let j = if m < i { m } else { m - 1 };
                            assert(after[j].name@ == q);
                        }
                        if named(after, q) {
                            let j = place(after, q);
                            let m = if j < i { j } else { j + 1 };
                            assert(before[m].name@ == q);
                        }
                    }
                    assert forall|q: Seq<char>| named(after, q) implies after[place(
                        after,
                        q,
                    )].bytes@ == before[place(before, q)].bytes@ by {
                        let j = place(after, q);
                        let m = if j < i { j } else { j + 1 };
                        assert(before[m].name@ == q);
                        assert(place(before, q) == m);
                    }
                    assert(self@ =~= old(self)@.remove(name@));
                }
                true
            },
        }
    }

    /// Renames a file, replacing what the new name held. Says whether there
    /// was a file to rename; nothing changes where there was none.
    pub fn rename(&mut self, from: &String, to: &String) -> (r: bool)
        requires
            old(self).wf(),
        ensures
            final(self).wf(),
            r == old(self)@.dom().contains(from@),
            final(self)@ == disk_rename(old(self)@, from@, to@),
    {
        match self.contents(from) {
            None => false,
            Some(bytes) => {
                assert(bytes@.len() == bytes.len());
                self.remove(from);
                self.remove(to);
                self.write_at(to, 0, &bytes);
                proof {
                    assert(spliced(Seq::empty(), 0, bytes@) =~= bytes@);
                    assert(self@ =~= disk_rename(old(self)@, from@, to@));
                }
                true
            },
        }
    }
}

/// A copy of the bytes from `start` up to `end`.
pub fn copy_range(src: &Vec<u8>, start: usize, end: usize) -> (r: Vec<u8>)
    requires
        start <= end <= src@.len(),
    ensures
        r@ == src@.subrange(start as int, end as int),
{
    let mut r: Vec<u8> = Vec::with_capacity(end - start);
    let mut i: usize = start;
    while i < end
        invariant
            start <= i <= end <= src@.len(),
            r@ == src@.subrange(start as int, i as int),
        decreases end - i,
    {
        r.push(src[i]);
        i += 1;
        assert(r@ =~= src@.subrange(start as int, i as int));
    }
    r
}

} // verus!
