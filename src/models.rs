//! The rows of the store: directories, files and their metadata pairs.
use vstd::prelude::*;

verus! {

/// A directory: one row per normalised path.
#[derive(Debug)]
pub struct Directory {
    pub id: u64,
    pub path: String,
}

/// A file: its directory, its name in it, and a fingerprint of its contents.
#[derive(Debug)]
pub struct File {
    pub id: u64,
    pub directory_id: u64,
    pub filename: String,
    pub hash: Vec<u8>,
}

/// A file or a directory: what metadata is attached to and what lookups return.
#[derive(Debug)]
pub enum Entry {
    File(File),
    Directory(Directory),
}

/// A copy of a byte string.
pub fn copy_bytes(v: &Vec<u8>) -> (r: Vec<u8>)
    ensures
        r@ == v@,
{
    let mut r: Vec<u8> = Vec::new();
    let mut i: usize = 0;
    while i < v.len()
        invariant
            i <= v@.len(),
            r@ == v@.take(i as int),
        decreases v@.len() - i,
    {
        r.push(v[i]);
        assert(v@.take(i as int + 1) =~= v@.take(i as int).push(v@[i as int]));
        i = i + 1;
    }
    assert(v@.take(v@.len() as int) =~= v@);
    r
}

impl Clone for Directory {
    fn clone(&self) -> (r: Directory)
        ensures
            r.id == self.id,
            r.path@ == self.path@,
    {
        Directory { id: self.id, path: self.path.clone() }
    }
}

impl Clone for File {
    fn clone(&self) -> (r: File)
        ensures
            r.id == self.id,
            r.directory_id == self.directory_id,
            r.filename@ == self.filename@,
            r.hash@ == self.hash@,
    {
        File {
            id: self.id,
            directory_id: self.directory_id,
            filename: self.filename.clone(),
            hash: copy_bytes(&self.hash),
        }
    }
}

/// Which table an entry lives in, and its id there.
pub open spec fn entry_key(e: Entry) -> (bool, u64) {
    match e {
        Entry::File(f) => (true, f.id),
        Entry::Directory(d) => (false, d.id),
    }
}

/// Which table an entry lives in, and its id there.
pub fn entry_id(e: &Entry) -> (r: (bool, u64))
    ensures
        r == entry_key(*e),
{
    match e {
        Entry::File(f) => (true, f.id),
        Entry::Directory(d) => (false, d.id),
    }
}

impl Clone for Entry {
    fn clone(&self) -> (r: Entry)
        ensures
            entry_key(r) == entry_key(*self),
            (r is File) == (*self is File),
            r is Directory ==> r->Directory_0.path@ == self->Directory_0.path@,
            r is File ==> r->File_0.filename@ == self->File_0.filename@ && r->File_0.hash@
                == self->File_0.hash@ && r->File_0.directory_id == self->File_0.directory_id,
    {
        match self {
            Entry::File(f) => Entry::File(f.clone()),
            Entry::Directory(d) => Entry::Directory(d.clone()),
        }
    }
}

/// The files of a list of entries, in order.
pub open spec fn files_of(s: Seq<Entry>) -> Seq<File>
    decreases s.len(),
{
    if s.len() == 0 {
        Seq::empty()
    } else {
        files_of(s.drop_last()) + match s.last() {
            Entry::File(f) => seq![f],
            Entry::Directory(_) => Seq::empty(),
        }
    }
}

/// The directories of a list of entries, in order.
pub open spec fn directories_of(s: Seq<Entry>) -> Seq<Directory>
    decreases s.len(),
{
    if s.len() == 0 {
        Seq::empty()
    } else {
        directories_of(s.drop_last()) + match s.last() {
            Entry::Directory(d) => seq![d],
            Entry::File(_) => Seq::empty(),
        }
    }
}

impl Entry {
    /// Splits a list of entries into its files and its directories, each in order.
    pub fn iter_split(entries: Vec<Entry>) -> (r: (Vec<File>, Vec<Directory>))
        ensures
            r.0@ == files_of(entries@),
            r.1@ == directories_of(entries@),
    {
        let ghost all = entries@;
        let mut rest = entries;
        let mut f: Vec<File> = Vec::new();
        let mut d: Vec<Directory> = Vec::new();
        let ghost mut i: int = 0;
        while rest.len() > 0
            invariant
                0 <= i <= all.len(),
                rest@ == all.skip(i),
                f@ == files_of(all.take(i)),
                d@ == directories_of(all.take(i)),
            decreases rest@.len(),
        {
            let e = rest.remove(0);
            proof {
                assert(all.take(i + 1).drop_last() =~= all.take(i));
                assert(all.take(i + 1).last() == e);
                assert(rest@ =~= all.skip(i + 1));
            }
            match e {
                Entry::File(x) => {
                    f.push(x);
                    proof {
                        assert(f@ =~= files_of(all.take(i + 1)));
                        assert(d@ =~= directories_of(all.take(i + 1)));
                    }
                },
                Entry::Directory(x) => {
                    d.push(x);
                    proof {
                        assert(f@ =~= files_of(all.take(i + 1)));
                        assert(d@ =~= directories_of(all.take(i + 1)));
                    }
                },
            }
            proof {
                i = i + 1;
            }
        }
        proof {
            assert(all.take(i) =~= all);
        }
        (f, d)
    }
}

} // verus!
