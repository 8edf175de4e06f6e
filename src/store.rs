//! The metadata store: directories, files and their key/value pairs, with the hierarchy
//! kept closed under ancestors.
use vstd::prelude::*;
use crate::models::{Directory, Entry, File, entry_key, copy_bytes};
use crate::path::{Path, chain, join, filename_of, is_normalized, lemma_below_parent, lemma_parent_shorter, normalize, parent_of};
use crate::text::same_text;
use crate::lexeme::EqualityKind;
use crate::parse::{AndModel, AndQuery, Factor, FactorModel, OrModel, OrQuery, and_model, factor_model, or_model};
use crate::pattern::{regex_match, value_matches};

verus! {

/// The root directory's path.
pub open spec fn root() -> Seq<char> {
    seq!['/']
}

/// The contents of a store, as values.
pub struct StoreModel {
    /// Each directory's path, with its id.
    pub dirs: Map<Seq<char>, u64>,
    /// Each file's path, with its id, its directory's id and its fingerprint.
    pub files: Map<Seq<char>, (u64, u64, Seq<u8>)>,
    /// Each metadata pair: (whether the owner is a file, the owner's id, key) to value.
    pub kv: Map<(bool, u64, Seq<char>), Seq<char>>,
    /// The next id to hand out.
    pub next_id: u64,
}

/// Why a store operation failed.
#[derive(Debug, Clone, Copy, PartialEq, Eq, Structural)]
pub enum StoreError {
    /// The path, or one of its ancestors, is already of the other kind (a file where a
    /// directory is needed, or a directory where a file is needed).
    PathConflict,
    /// The path has no parent directory (the root given as a file).
    NoParent,
    /// The entry is not in the store.
    MissingEntry,
    /// A directory that still holds entries cannot be removed.
    NotEmpty,
    /// Too few ids are left for the rows to create.
    IdsExhausted,
}

/// Whether the entry `(is_file, id)` is in the store.
pub open spec fn owner_exists(m: StoreModel, is_file: bool, id: u64) -> bool {
    if is_file {
        exists|p: Seq<char>| #[trigger] m.files.contains_key(p) && m.files[p].0 == id
    } else {
        exists|p: Seq<char>| #[trigger] m.dirs.contains_key(p) && m.dirs[p] == id
    }
}

struct FileRow {
    file: File,
    path: String,
}

struct MetaRow {
    is_file: bool,
    owner: u64,
    key: String,
    value: String,
}

/// The store.
pub struct Store {
    dirs: Vec<Directory>,
    files: Vec<FileRow>,
    meta: Vec<MetaRow>,
    next_id: u64,
    model: Ghost<StoreModel>,
}

impl View for Store {
    type V = StoreModel;

    closed spec fn view(&self) -> StoreModel {
        self.model@
    }
}

/// The invariants that hold of the contents of every store.
pub open spec fn model_ok(m: StoreModel) -> bool {
    &&& m.dirs.contains_key(root())
    &&& m.dirs[root()] == 0
    &&& forall|p: Seq<char>| #[trigger] m.dirs.contains_key(p) ==> is_normalized(p)
    &&& forall|p: Seq<char>|
        #[trigger] m.dirs.contains_key(p) && p != root() ==> m.dirs.contains_key(parent_of(p))
    &&& forall|p: Seq<char>| #[trigger] m.dirs.contains_key(p) ==> m.dirs[p] < m.next_id
    &&& forall|p: Seq<char>, q: Seq<char>|
        #[trigger] m.dirs.contains_key(p) && #[trigger] m.dirs.contains_key(q) && m.dirs[p]
            == m.dirs[q] ==> p == q
    &&& forall|p: Seq<char>|
        #[trigger] m.files.contains_key(p) ==> is_normalized(p) && p != root()
            && m.dirs.contains_key(parent_of(p)) && m.dirs[parent_of(p)] == m.files[p].1
            && m.files[p].0 < m.next_id
    &&& forall|p: Seq<char>, q: Seq<char>|
        #[trigger] m.files.contains_key(p) && #[trigger] m.files.contains_key(q) && m.files[p].0
            == m.files[q].0 ==> p == q
    &&& forall|p: Seq<char>| !(#[trigger] m.dirs.contains_key(p) && m.files.contains_key(p))
    &&& forall|k: (bool, u64, Seq<char>)| #[trigger] m.kv.contains_key(k) ==> owner_exists(m, k.0, k.1)
}

impl Store {
    closed spec fn dirs_ok(&self) -> bool {
        let m = self.model@;
        &&& forall|i: int|
            0 <= i < self.dirs@.len() ==> m.dirs.contains_key(#[trigger] self.dirs@[i].path@)
                && m.dirs[self.dirs@[i].path@] == self.dirs@[i].id
        &&& forall|p: Seq<char>|
            #[trigger] m.dirs.contains_key(p) ==> exists|i: int|
                0 <= i < self.dirs@.len() && #[trigger] self.dirs@[i].path@ == p
        &&& forall|i: int, j: int|
            0 <= i < self.dirs@.len() && 0 <= j < self.dirs@.len() && i != j ==> (
            #[trigger] self.dirs@[i]).path@ != (#[trigger] self.dirs@[j]).path@
    }

    closed spec fn files_ok(&self) -> bool {
        let m = self.model@;
        &&& forall|i: int|
            0 <= i < self.files@.len() ==> m.files.contains_key(#[trigger] self.files@[i].path@)
                && m.files[self.files@[i].path@] == (
                self.files@[i].file.id,
                self.files@[i].file.directory_id,
                self.files@[i].file.hash@,
            ) && self.files@[i].file.filename@ == filename_of(self.files@[i].path@)
        &&& forall|p: Seq<char>|
            #[trigger] m.files.contains_key(p) ==> exists|i: int|
                0 <= i < self.files@.len() && #[trigger] self.files@[i].path@ == p
        &&& forall|i: int, j: int|
            0 <= i < self.files@.len() && 0 <= j < self.files@.len() && i != j ==> (
            #[trigger] self.files@[i]).path@ != (#[trigger] self.files@[j]).path@
    }

    closed spec fn meta_ok(&self) -> bool {
        let m = self.model@;
        &&& forall|i: int|
            0 <= i < self.meta@.len() ==> m.kv.contains_key(
                #[trigger] meta_key(self.meta@[i]),
            ) && m.kv[meta_key(self.meta@[i])] == self.meta@[i].value@
        &&& forall|k: (bool, u64, Seq<char>)|
            #[trigger] m.kv.contains_key(k) ==> exists|i: int|
                0 <= i < self.meta@.len() && #[trigger] meta_key(self.meta@[i]) == k
        &&& forall|i: int, j: int|
            0 <= i < self.meta@.len() && 0 <= j < self.meta@.len() && i != j ==> meta_key(
                #[trigger] self.meta@[i],
            ) != meta_key(#[trigger] self.meta@[j])
    }

    /// The store's rows agree with its contents, and the contents keep their invariants.
    pub closed spec fn wf(&self) -> bool {
        &&& model_ok(self.model@)
        &&& self.next_id == self.model@.next_id
        &&& self.dirs_ok()
        &&& self.files_ok()
        &&& self.meta_ok()
    }
}

spec fn meta_key(r: MetaRow) -> (bool, u64, Seq<char>) {
    (r.is_file, r.owner, r.key@)
}

/// The root directory's path, as a string.
fn root_string() -> (r: String)
    ensures
        r@ == root(),
{
    let mut r = String::new();
    crate::text::push_char(&mut r, '/');
    r
}

impl Store {
    /// A store that holds the root directory alone.
    pub fn new() -> (r: Store)
        ensures
            r.wf(),
            r@.dirs == Map::<Seq<char>, u64>::empty().insert(root(), 0),
            r@.files == Map::<Seq<char>, (u64, u64, Seq<u8>)>::empty(),
            r@.kv == Map::<(bool, u64, Seq<char>), Seq<char>>::empty(),
    {
        let mut dirs: Vec<Directory> = Vec::new();
        dirs.push(Directory { id: 0, path: root_string() });
        let ghost m = StoreModel {
            dirs: Map::<Seq<char>, u64>::empty().insert(root(), 0),
            files: Map::empty(),
            kv: Map::empty(),
            next_id: 1,
        };
        let r = Store { dirs, files: Vec::new(), meta: Vec::new(), next_id: 1, model: Ghost(m) };
        proof {
            assert forall|p: Seq<char>| #[trigger] m.dirs.contains_key(p) implies exists|i: int|
                0 <= i < r.dirs@.len() && #[trigger] r.dirs@[i].path@ == p by {
                assert(r.dirs@[0].path@ == p);
            }
        }
        r
    }

    /// The index of the directory row whose path is `p`.
    fn find_dir(&self, p: &str) -> (r: Option<usize>)
        requires
            self.wf(),
        ensures
            match r {
                Some(i) => i < self.dirs@.len() && self.dirs@[i as int].path@ == p@
                    && self@.dirs.contains_key(p@),
                None => !self@.dirs.contains_key(p@),
            },
    {
        let mut i: usize = 0;
        while i < self.dirs.len()
            invariant
                self.wf(),
                i <= self.dirs@.len(),
                forall|k: int| 0 <= k < i ==> self.dirs@[k].path@ != p@,
            decreases self.dirs@.len() - i,
        {
            if same_text(self.dirs[i].path.as_str(), p) {
                return Some(i);
            }
            i = i + 1;
        }
        None
    }

    /// The index of the file row whose path is `p`.
    fn find_file(&self, p: &str) -> (r: Option<usize>)
        requires
            self.wf(),
        ensures
            match r {
                Some(i) => i < self.files@.len() && self.files@[i as int].path@ == p@
                    && self@.files.contains_key(p@),
                None => !self@.files.contains_key(p@),
            },
    {
        let mut i: usize = 0;
        while i < self.files.len()
            invariant
                self.wf(),
                i <= self.files@.len(),
                forall|k: int| 0 <= k < i ==> self.files@[k].path@ != p@,
            decreases self.files@.len() - i,
        {
            if same_text(self.files[i].path.as_str(), p) {
                return Some(i);
            }
            i = i + 1;
        }
        None
    }

    /// Adds the directory `path`, whose parent is a directory already.
    fn insert_dir(&mut self, path: String) -> (id: u64)
        requires
            old(self).wf(),
            is_normalized(path@),
            path@ != root(),
            !old(self)@.dirs.contains_key(path@),
            !old(self)@.files.contains_key(path@),
            old(self)@.dirs.contains_key(parent_of(path@)),
            old(self)@.next_id < u64::MAX,
        ensures
            final(self).wf(),
            id == old(self)@.next_id,
            final(self)@ == (StoreModel {
                dirs: old(self)@.dirs.insert(path@, id),
                next_id: (id + 1) as u64,
                ..old(self)@
            }),
    {
        let id = self.next_id;
        let ghost old_m = self.model@;
        let ghost p = path@;
        let ghost m = StoreModel { dirs: old_m.dirs.insert(p, id), next_id: (id + 1) as u64, ..old_m };
        self.dirs.push(Directory { id, path });
        self.next_id = id + 1;
        self.model = Ghost(m);
        proof {
            assert forall|k: (bool, u64, Seq<char>)| #[trigger] m.kv.contains_key(k) implies owner_exists(
                m,
                k.0,
                k.1,
            ) by {
                assert(owner_exists(old_m, k.0, k.1));
                if !k.0 {
                    let q = choose|q: Seq<char>| #[trigger] old_m.dirs.contains_key(q) && old_m.dirs[q] == k.1;
                    assert(m.dirs.contains_key(q) && m.dirs[q] == k.1);
                } else {
                    let q = choose|q: Seq<char>| #[trigger] old_m.files.contains_key(q) && old_m.files[q].0 == k.1;
                    assert(m.files.contains_key(q) && m.files[q].0 == k.1);
                }
            }
            assert forall|q: Seq<char>| #[trigger] m.dirs.contains_key(q) implies exists|i: int|
                0 <= i < self.dirs@.len() && #[trigger] self.dirs@[i].path@ == q by {
                if q == p {
                    assert(self.dirs@[self.dirs@.len() - 1].path@ == q);
                } else {
                    let i = choose|i: int| 0 <= i < old(self).dirs@.len() && #[trigger] old(self).dirs@[i].path@ == q;
                    assert(self.dirs@[i].path@ == q);
                }
            }
            assert forall|i: int| 0 <= i < self.dirs@.len() implies m.dirs.contains_key(
                #[trigger] self.dirs@[i].path@,
            ) && m.dirs[self.dirs@[i].path@] == self.dirs@[i].id by {
                if i < old(self).dirs@.len() {
                    assert(old(self).dirs@[i] == self.dirs@[i]);
                }
            }
            assert forall|i: int, j: int|
                0 <= i < self.dirs@.len() && 0 <= j < self.dirs@.len() && i != j implies (
                #[trigger] self.dirs@[i]).path@ != (#[trigger] self.dirs@[j]).path@ by {
                if i < old(self).dirs@.len() {
                    assert(old(self).dirs@[i] == self.dirs@[i]);
                }
                if j < old(self).dirs@.len() {
                    assert(old(self).dirs@[j] == self.dirs@[j]);
                }
            }
            assert(model_ok(m));
            assert(self.dirs_ok());
            assert(self.files@ == old(self).files@);
            assert(self.meta@ == old(self).meta@);
            assert(self.model@.files == old(self).model@.files);
            assert(self.model@.kv == old(self).model@.kv);
            assert(self.files_ok());
            assert(self.meta_ok());
        }
        id
    }
}

/// Whether `p` or one of its ancestors is a file.
pub open spec fn conflicts(m: StoreModel, p: Seq<char>) -> bool {
    exists|a: Seq<char>| #[trigger] chain(p).contains(a) && m.files.contains_key(a)
}

/// What adding the directory `p` to `old` may give: the new contents and the result.
pub open spec fn add_directory_outcome(
    old: StoreModel,
    new: StoreModel,
    p: Seq<char>,
    r: Result<(Directory, bool), StoreError>,
) -> bool {
    &&& model_ok(new)
    &&& conflicts(old, p) ==> r == Err::<(Directory, bool), StoreError>(StoreError::PathConflict)
    &&& match r {
        Ok((d, created)) => {
            &&& !conflicts(old, p)
            &&& d.path@ == p
            &&& new.dirs.contains_key(p)
            &&& new.dirs[p] == d.id
            &&& created == !old.dirs.contains_key(p)
            &&& !created ==> new == old
            &&& new.dirs.dom() == old.dirs.dom().union(chain(p))
            &&& forall|q: Seq<char>| #[trigger] old.dirs.contains_key(q) ==> new.dirs[q] == old.dirs[q]
            &&& forall|q: Seq<char>|
                #[trigger] new.dirs.contains_key(q) && !old.dirs.contains_key(q) ==> old.next_id
                    <= new.dirs[q] < new.next_id
            &&& new.next_id >= old.next_id
            &&& new.files == old.files
            &&& new.kv == old.kv
        },
        Err(e) => {
            &&& new == old
            &&& e == StoreError::PathConflict ==> conflicts(old, p)
            &&& e == StoreError::IdsExhausted ==> !conflicts(old, p) && !old.dirs.contains_key(p)
                && old.next_id + p.len() + 1 > u64::MAX
            &&& e == StoreError::PathConflict || e == StoreError::IdsExhausted
        },
    }
}

/// What adding the file `p` with fingerprint `hash` to `old` may give.
pub open spec fn add_file_outcome(
    old: StoreModel,
    new: StoreModel,
    p: Seq<char>,
    hash: Seq<u8>,
    r: Result<(File, bool), StoreError>,
) -> bool {
    let par = parent_of(p);
    &&& model_ok(new)
    &&& match r {
        Ok((f, created)) => {
            &&& p != root()
            &&& !old.dirs.contains_key(p)
            &&& !conflicts(old, par)
            &&& created == !old.files.contains_key(p)
            &&& new.files.contains_key(p)
            &&& new.files[p] == (f.id, f.directory_id, f.hash@)
            &&& f.filename@ == filename_of(p)
            &&& created ==> f.hash@ == hash
            &&& !created ==> new == old
            &&& created ==> new.files == old.files.insert(p, new.files[p])
            &&& created ==> old.next_id <= f.id < new.next_id
            &&& new.dirs.dom() == old.dirs.dom().union(chain(par))
            &&& forall|q: Seq<char>| #[trigger] old.dirs.contains_key(q) ==> new.dirs[q] == old.dirs[q]
            &&& forall|q: Seq<char>|
                #[trigger] new.dirs.contains_key(q) && !old.dirs.contains_key(q) ==> old.next_id
                    <= new.dirs[q] < new.next_id
            &&& new.next_id >= old.next_id
            &&& new.kv == old.kv
        },
        Err(e) => {
            &&& new == old
            &&& e == StoreError::NoParent <==> p == root()
            &&& e == StoreError::PathConflict ==> p != root() && (old.dirs.contains_key(p) || conflicts(old, par))
            &&& e == StoreError::IdsExhausted ==> p != root() && !old.dirs.contains_key(p) && !conflicts(old, par)
                && !old.files.contains_key(p) && old.next_id + par.len() + 2 > u64::MAX
            &&& e == StoreError::NoParent || e == StoreError::PathConflict || e == StoreError::IdsExhausted
        },
    }
}

/// A directory's ancestors are directories.
pub proof fn lemma_chain_in_dirs(m: StoreModel, p: Seq<char>)
    requires
        model_ok(m),
        m.dirs.contains_key(p),
    ensures
        forall|a: Seq<char>| #[trigger] chain(p).contains(a) ==> m.dirs.contains_key(a),
    decreases p.len(),
{
    if p.len() <= 1 || parent_of(p).len() >= p.len() {
        assert(chain(p) == set![p]);
    } else {
        assert(chain(p) == chain(parent_of(p)).insert(p));
        assert(p != root());
        lemma_chain_in_dirs(m, parent_of(p));
    }
}

pub proof fn lemma_chain_contains_self(p: Seq<char>)
    ensures
        chain(p).contains(p),
{
    if p.len() > 1 && parent_of(p).len() < p.len() {
        assert(chain(p) == chain(parent_of(p)).insert(p));
    }
}

pub proof fn lemma_chain_lengths(p: Seq<char>)
    ensures
        forall|a: Seq<char>| #[trigger] chain(p).contains(a) ==> a.len() <= p.len(),
    decreases p.len(),
{
    if p.len() <= 1 || parent_of(p).len() >= p.len() {
        assert(chain(p) == set![p]);
    } else {
        assert(chain(p) == chain(parent_of(p)).insert(p));
        lemma_chain_lengths(parent_of(p));
    }
}

pub proof fn lemma_owner_frame(om: StoreModel, m: StoreModel, is_file: bool, id: u64)
    requires
        owner_exists(om, is_file, id),
        om.dirs == m.dirs,
        om.files == m.files,
    ensures
        owner_exists(m, is_file, id),
{
    if is_file {
        let p = choose|p: Seq<char>| #[trigger] om.files.contains_key(p) && om.files[p].0 == id;
        assert(m.files.contains_key(p) && m.files[p].0 == id);
    } else {
        let p = choose|p: Seq<char>| #[trigger] om.dirs.contains_key(p) && om.dirs[p] == id;
        assert(m.dirs.contains_key(p) && m.dirs[p] == id);
    }
}

/// The paths held by a list of paths.
pub open spec fn path_set(v: Seq<Path>) -> Set<Seq<char>> {
    Set::new(|x: Seq<char>| exists|k: int| 0 <= k < v.len() && (#[trigger] v[k])@ == x)
}

impl Store {
    /// Adds the directory `path` (normalised) and its missing ancestors, all or none. The
    /// result says whether the directory itself was created.
    pub fn add_directory(&mut self, path: &str) -> (r: Result<(Directory, bool), StoreError>)
        requires
            old(self).wf(),
        ensures
            final(self).wf(),
            add_directory_outcome(old(self)@, final(self)@, normalize(path@), r),
    {
        self.add_dir_path(Path::new(path), 0)
    }

    /// Adds the directory `p` and its missing ancestors, keeping `extra` ids in reserve.
    fn add_dir_path(&mut self, p: Path, extra: u64) -> (r: Result<(Directory, bool), StoreError>)
        requires
            old(self).wf(),
            is_normalized(p@),
            extra <= 1,
        ensures
            final(self).wf(),
            ({
                let p = p@;
                match r {
                    Ok((d, created)) => {
                        &&& !conflicts(old(self)@, p)
                        &&& d.path@ == p
                        &&& final(self)@.dirs.contains_key(p)
                        &&& final(self)@.dirs[p] == d.id
                        &&& created == !old(self)@.dirs.contains_key(p)
                        &&& final(self)@.dirs.dom() == old(self)@.dirs.dom().union(chain(p))
                        &&& forall|q: Seq<char>|
                            #[trigger] old(self)@.dirs.contains_key(q) ==> final(self)@.dirs[q]
                                == old(self)@.dirs[q]
                        &&& final(self)@.files == old(self)@.files
                        &&& final(self)@.kv == old(self)@.kv
                        &&& created ==> old(self)@.next_id + p.len() + 1 + extra <= u64::MAX
                        &&& !created ==> final(self)@ == old(self)@
                        &&& final(self)@.next_id <= old(self)@.next_id + p.len()
                        &&& final(self)@.next_id >= old(self)@.next_id
                        &&& forall|q: Seq<char>|
                            #[trigger] final(self)@.dirs.contains_key(q) && !old(self)@.dirs.contains_key(q)
                                ==> old(self)@.next_id <= final(self)@.dirs[q] < final(self)@.next_id
                    },
                    Err(e) => {
                        &&& final(self)@ == old(self)@
                        &&& e == StoreError::PathConflict ==> conflicts(old(self)@, p)
                        &&& e == StoreError::IdsExhausted ==> !conflicts(old(self)@, p)
                            && !old(self)@.dirs.contains_key(p) && old(self)@.next_id + p.len() + 1
                            + extra > u64::MAX
                        &&& e == StoreError::PathConflict || e == StoreError::IdsExhausted
                    },
                }
            }),
            conflicts(old(self)@, p@) ==> r == Err::<(Directory, bool), StoreError>(
                StoreError::PathConflict,
            ),
    {
        let ghost pm = p@;
        proof {
            lemma_chain_contains_self(pm);
        }
        match self.find_file(p.str()) {
            Some(_) => {
                return Err(StoreError::PathConflict);
            },
            None => {},
        }
        match self.find_dir(p.str()) {
            Some(i) => {
                proof {
                    lemma_chain_in_dirs(self@, pm);
                }
                return Ok((self.dirs[i].clone(), false));
            },
            None => {},
        }
        let mut todo: Vec<Path> = Vec::new();
        let mut cur = p.clone();
        assert(path_set(todo@) =~= Set::<Seq<char>>::empty());
        assert(chain(pm) =~= chain(cur@).union(path_set(todo@)));
        loop
            invariant_except_break
                !self@.dirs.contains_key(cur@),
                !self@.files.contains_key(cur@),
            invariant
                self.wf(),
                self@ == old(self)@,
                pm == p@,
                is_normalized(cur@),
                chain(pm) == chain(cur@).union(path_set(todo@)),
                forall|k: int|
                    0 <= k < todo@.len() ==> !self@.dirs.contains_key(#[trigger] todo@[k]@)
                        && !self@.files.contains_key(todo@[k]@) && is_normalized(todo@[k]@)
                        && todo@[k]@ != root(),
                forall|k: int|
                    0 <= k < todo@.len() - 1 ==> parent_of(#[trigger] todo@[k]@) == todo@[k + 1]@,
                forall|a: int, b: int|
                    0 <= a < b < todo@.len() ==> (#[trigger] todo@[a])@.len() > (
                    #[trigger] todo@[b])@.len(),
                todo@.len() > 0 ==> parent_of(todo@[todo@.len() - 1]@) == cur@,
                todo@.len() > 0 ==> todo@[todo@.len() - 1]@.len() > cur@.len(),
                todo@.len() > 0 ==> todo@[0]@ == pm,
                todo@.len() == 0 ==> cur@ == pm,
                todo@.len() + cur@.len() <= pm.len(),
                cur@.len() >= 1,
            ensures
                self.wf(),
                self@ == old(self)@,
                is_normalized(cur@),
                self@.dirs.contains_key(cur@),
                chain(pm) == chain(cur@).union(path_set(todo@)),
                todo@.len() > 0,
                forall|k: int|
                    0 <= k < todo@.len() ==> !self@.dirs.contains_key(#[trigger] todo@[k]@)
                        && !self@.files.contains_key(todo@[k]@) && is_normalized(todo@[k]@)
                        && todo@[k]@ != root(),
                forall|k: int|
                    0 <= k < todo@.len() - 1 ==> parent_of(#[trigger] todo@[k]@) == todo@[k + 1]@,
                forall|a: int, b: int|
                    0 <= a < b < todo@.len() ==> (#[trigger] todo@[a])@.len() > (
                    #[trigger] todo@[b])@.len(),
                parent_of(todo@[todo@.len() - 1]@) == cur@,
                todo@[0]@ == pm,
                todo@.len() + cur@.len() <= pm.len(),
            decreases cur@.len(),
        {
            proof {
                if cur@.len() <= 1 {
                    assert(cur@ =~= root());
                }
                lemma_parent_shorter(cur@);
                assert(chain(cur@) == chain(parent_of(cur@)).insert(cur@));
            }
            let mut nxt = cur.clone();
            let _ = nxt.pop();
            let ghost before = todo@;
            let ghost cv = cur@;
            todo.push(cur);
            assert(todo@[todo@.len() - 1]@ == cv);
            assert(path_set(todo@) =~= path_set(before).insert(cv)) by {
                assert forall|x: Seq<char>| path_set(todo@).contains(x) <==> (path_set(before).contains(x) || x == cv) by {
                    if path_set(todo@).contains(x) {
                        let k = choose|k: int| 0 <= k < todo@.len() && (#[trigger] todo@[k])@ == x;
                        if k < before.len() {
                            assert(before[k] == todo@[k]);
                        }
                    }
                    if path_set(before).contains(x) {
                        let k = choose|k: int| 0 <= k < before.len() && (#[trigger] before[k])@ == x;
                        assert(before[k] == todo@[k]);
                    }
                    if x == cv {
                        assert(todo@[todo@.len() - 1]@ == x);
                    }
                }
            }
            assert(chain(pm) =~= chain(nxt@).union(path_set(todo@)));
            cur = nxt;
            match self.find_dir(cur.str()) {
                Some(_) => {
                    break;
                },
                None => {},
            }
            match self.find_file(cur.str()) {
                Some(_) => {
                    proof {
                        lemma_chain_contains_self(cur@);
                        assert(chain(pm).contains(cur@));
                    }
                    return Err(StoreError::PathConflict);
                },
                None => {},
            }
        }
        proof {
            lemma_chain_in_dirs(self@, cur@);
            assert forall|a: Seq<char>| #[trigger] chain(pm).contains(a) implies !self@.files.contains_key(a) by {
                if chain(cur@).contains(a) {
                    assert(self@.dirs.contains_key(a));
                } else {
                    assert(path_set(todo@).contains(a));
                    let k = choose|k: int| 0 <= k < todo@.len() && (#[trigger] todo@[k])@ == a;
                    assert(!self@.files.contains_key(todo@[k]@));
                }
            }
        }
        let plen = p.str().unicode_len();
        if self.next_id >= u64::MAX - extra || plen as u64 >= u64::MAX - extra - self.next_id {
            return Err(StoreError::IdsExhausted);
        }
        let n = todo.len();
        let mut k = n;
        let mut pid: u64 = 0;
        while k > 0
            invariant
                self.wf(),
                0 <= k <= n,
                n == todo@.len(),
                n > 0,
                plen == pm.len(),
                n + 1 <= plen,
                old(self)@.next_id + plen + extra < u64::MAX,
                old(self).wf(),
                old(self)@.dirs.contains_key(cur@),
                self@.files == old(self)@.files,
                self@.kv == old(self)@.kv,
                self@.next_id == old(self)@.next_id + (n - k),
                forall|q: Seq<char>|
                    #[trigger] self@.dirs.contains_key(q) <==> (old(self)@.dirs.contains_key(q)
                        || exists|j: int| k <= j < n && (#[trigger] todo@[j])@ == q),
                forall|q: Seq<char>|
                    #[trigger] old(self)@.dirs.contains_key(q) ==> self@.dirs[q] == old(self)@.dirs[q],
                forall|q: Seq<char>|
                    #[trigger] self@.dirs.contains_key(q) && !old(self)@.dirs.contains_key(q) ==> old(
                        self,
                    )@.next_id <= self@.dirs[q] < self@.next_id,
                k < n ==> self@.dirs[todo@[k as int]@] == pid,
                forall|j: int|
                    0 <= j < n ==> !old(self)@.dirs.contains_key(#[trigger] todo@[j]@)
                        && !old(self)@.files.contains_key(todo@[j]@) && is_normalized(todo@[j]@)
                        && todo@[j]@ != root(),
                forall|j: int| 0 <= j < n - 1 ==> parent_of(#[trigger] todo@[j]@) == todo@[j + 1]@,
                forall|a: int, b: int|
                    0 <= a < b < n ==> (#[trigger] todo@[a])@.len() > (#[trigger] todo@[b])@.len(),
                parent_of(todo@[n - 1]@) == cur@,
            decreases k,
        {
            let name = todo[k - 1].str().to_owned();
            proof {
                let x = todo@[k - 1]@;
                assert forall|j: int| k <= j < n implies (#[trigger] todo@[j])@ != x by {
                    assert(todo@[k - 1]@.len() > todo@[j]@.len());
                }
                if k - 1 < n - 1 {
                    assert(parent_of(x) == todo@[k as int]@);
                    assert(self@.dirs.contains_key(todo@[k as int]@));
                }
            }
            let ghost before = self@;
            let id = self.insert_dir(name);
            proof {
                assert forall|q: Seq<char>|
                    #[trigger] self@.dirs.contains_key(q) <==> (old(self)@.dirs.contains_key(q)
                        || exists|j: int| k - 1 <= j < n && (#[trigger] todo@[j])@ == q) by {
                    if q == todo@[k - 1]@ {
                        assert(todo@[k - 1]@ == q);
                    }
                    if exists|j: int| k - 1 <= j < n && (#[trigger] todo@[j])@ == q {
                        let j = choose|j: int| k - 1 <= j < n && (#[trigger] todo@[j])@ == q;
                        if j >= k {
                            assert(before.dirs.contains_key(q));
                        }
                    }
                }
            }
            pid = id;
            k = k - 1;
        }
        proof {
            assert(self@.dirs.dom() =~= old(self)@.dirs.dom().union(chain(pm))) by {
                assert forall|q: Seq<char>| self@.dirs.contains_key(q) implies old(self)@.dirs.contains_key(q) || chain(pm).contains(q) by {
                    if !old(self)@.dirs.contains_key(q) {
                        let j = choose|j: int| 0 <= j < n && (#[trigger] todo@[j])@ == q;
                        assert(path_set(todo@).contains(q));
                    }
                }
                assert forall|q: Seq<char>| chain(pm).contains(q) implies self@.dirs.contains_key(q) by {
                    if !chain(cur@).contains(q) {
                        assert(path_set(todo@).contains(q));
                        let j = choose|j: int| 0 <= j < n && (#[trigger] todo@[j])@ == q;
                    }
                }
            }
        }
        Ok((Directory { id: pid, path: p.str().to_owned() }, true))
    }
}

fn copy_slice(v: &[u8]) -> (r: Vec<u8>)
    ensures
        r@ == v@,
{
    let mut r: Vec<u8> = Vec::new();
    let mut i: usize = 0;
    while i < v.len()
        invariant
            i <= v@.len(),
            r@ == v@.take(i as int),
        decreases v@.len() - i,
    {
        r.push(v[i]);
        assert(v@.take(i as int + 1) =~= v@.take(i as int).push(v@[i as int]));
        i = i + 1;
    }
    assert(v@.take(v@.len() as int) =~= v@);
    r
}

impl Store {
    /// Adds the file `path` in the directory `directory_id`, its parent.
    fn insert_file(&mut self, path: String, directory_id: u64, filename: String, hash: Vec<u8>) -> (f:
        File)
        requires
            old(self).wf(),
            is_normalized(path@),
            path@ != root(),
            !old(self)@.dirs.contains_key(path@),
            !old(self)@.files.contains_key(path@),
            old(self)@.dirs.contains_key(parent_of(path@)),
            old(self)@.dirs[parent_of(path@)] == directory_id,
            filename@ == filename_of(path@),
            old(self)@.next_id < u64::MAX,
        ensures
            final(self).wf(),
            f.id == old(self)@.next_id,
            f.directory_id == directory_id,
            f.filename@ == filename@,
            f.hash@ == hash@,
            final(self)@ == (StoreModel {
                files: old(self)@.files.insert(path@, (f.id, directory_id, hash@)),
                next_id: (f.id + 1) as u64,
                ..old(self)@
            }),
    {
        let id = self.next_id;
        let ghost old_m = self.model@;
        let ghost p = path@;
        let ghost m = StoreModel {
            files: old_m.files.insert(p, (id, directory_id, hash@)),
            next_id: (id + 1) as u64,
            ..old_m
        };
        let f = File { id, directory_id, filename: filename.clone(), hash: copy_bytes(&hash) };
        self.files.push(FileRow { file: File { id, directory_id, filename, hash }, path });
        self.next_id = id + 1;
        self.model = Ghost(m);
        proof {
            assert forall|k: (bool, u64, Seq<char>)| #[trigger] m.kv.contains_key(k) implies owner_exists(
                m,
                k.0,
                k.1,
            ) by {
                assert(owner_exists(old_m, k.0, k.1));
                if !k.0 {
                    let q = choose|q: Seq<char>| #[trigger] old_m.dirs.contains_key(q) && old_m.dirs[q] == k.1;
                    assert(m.dirs.contains_key(q) && m.dirs[q] == k.1);
                } else {
                    let q = choose|q: Seq<char>| #[trigger] old_m.files.contains_key(q) && old_m.files[q].0 == k.1;
                    assert(m.files.contains_key(q) && m.files[q].0 == k.1);
                }
            }
            assert forall|q: Seq<char>| #[trigger] m.files.contains_key(q) implies exists|i: int|
                0 <= i < self.files@.len() && #[trigger] self.files@[i].path@ == q by {
                if q == p {
                    assert(self.files@[self.files@.len() - 1].path@ == q);
                } else {
                    let i = choose|i: int| 0 <= i < old(self).files@.len() && #[trigger] old(self).files@[i].path@ == q;
                    assert(self.files@[i].path@ == q);
                }
            }
            assert forall|i: int| 0 <= i < self.files@.len() implies m.files.contains_key(
                #[trigger] self.files@[i].path@,
            ) && m.files[self.files@[i].path@] == (
                self.files@[i].file.id,
                self.files@[i].file.directory_id,
                self.files@[i].file.hash@,
            ) && self.files@[i].file.filename@ == filename_of(self.files@[i].path@) by {
                if i < old(self).files@.len() {
                    assert(old(self).files@[i] == self.files@[i]);
                }
            }
            assert forall|i: int, j: int|
                0 <= i < self.files@.len() && 0 <= j < self.files@.len() && i != j implies (
                #[trigger] self.files@[i]).path@ != (#[trigger] self.files@[j]).path@ by {
                if i < old(self).files@.len() {
                    assert(old(self).files@[i] == self.files@[i]);
                }
                if j < old(self).files@.len() {
                    assert(old(self).files@[j] == self.files@[j]);
                }
            }
            assert(model_ok(m));
            assert(self.dirs@ == old(self).dirs@);
            assert(self.meta@ == old(self).meta@);
            assert(self.model@.dirs == old(self).model@.dirs);
            assert(self.model@.kv == old(self).model@.kv);
            assert(self.dirs_ok());
            assert(self.files_ok());
            assert(self.meta_ok());
        }
        f
    }

    /// Adds the file `path` (normalised) with fingerprint `hash`, and its missing ancestor
    /// directories, all or none. The result says whether the file was created; an existing
    /// file is returned as it is.
    pub fn add_file(&mut self, path: &str, hash: &[u8]) -> (r: Result<(File, bool), StoreError>)
        requires
            old(self).wf(),
        ensures
            final(self).wf(),
            add_file_outcome(old(self)@, final(self)@, normalize(path@), hash@, r),
    {
        let p = Path::new(path);
        if p.str().unicode_len() <= 1 {
            proof {
                assert(p@ =~= root());
            }
            return Err(StoreError::NoParent);
        }
        match self.find_dir(p.str()) {
            Some(_) => {
                return Err(StoreError::PathConflict);
            },
            None => {},
        }
        match self.find_file(p.str()) {
            Some(i) => {
                let f = self.files[i].file.clone();
                proof {
                    lemma_parent_shorter(p@);
                    lemma_chain_in_dirs(self@, parent_of(p@));
                    assert(self@.dirs.dom() =~= self@.dirs.dom().union(chain(parent_of(p@))));
                }
                return Ok((f, false));
            },
            None => {},
        }
        let mut par = p.clone();
        let name = par.pop();
        proof {
            lemma_parent_shorter(p@);
        }
        let d = match self.add_dir_path(par, 1) {
            Ok((d, _)) => d,
            Err(e) => {
                return Err(e);
            },
        };
        if self.next_id == u64::MAX {
            return Err(StoreError::IdsExhausted);
        }
        proof {
            lemma_chain_lengths(parent_of(p@));
        }
        let f = self.insert_file(p.str().to_owned(), d.id, name, copy_slice(hash));
        Ok((f, true))
    }
}

/// The value of `key` on the entry `(is_file, id)`, if it has one.
pub open spec fn value_of(m: StoreModel, ek: (bool, u64), key: Seq<char>) -> Option<Seq<char>> {
    if m.kv.contains_key((ek.0, ek.1, key)) {
        Some(m.kv[(ek.0, ek.1, key)])
    } else {
        None
    }
}

/// `o` as an optional character sequence.
pub open spec fn opt_view(o: Option<String>) -> Option<Seq<char>> {
    match o {
        Some(s) => Some(s@),
        None => None,
    }
}

/// `o` as an optional character sequence.
pub open spec fn opt_str_view(o: Option<&str>) -> Option<Seq<char>> {
    match o {
        Some(s) => Some(s@),
        None => None,
    }
}

/// What setting (`Some`) or deleting (`None`) `key` on the entry `ek` of `old` may give.
pub open spec fn metadata_set_outcome(
    old: StoreModel,
    new: StoreModel,
    ek: (bool, u64),
    key: Seq<char>,
    value: Option<Seq<char>>,
    r: Result<Option<String>, StoreError>,
) -> bool {
    let k = (ek.0, ek.1, key);
    &&& model_ok(new)
    &&& match r {
        Ok(prev) => {
            &&& owner_exists(old, ek.0, ek.1)
            &&& opt_view(prev) == value_of(old, ek, key)
            &&& new.kv == match value {
                Some(v) => old.kv.insert(k, v),
                None => old.kv.remove(k),
            }
            &&& new.dirs == old.dirs
            &&& new.files == old.files
            &&& new.next_id == old.next_id
        },
        Err(err) => {
            &&& err == StoreError::MissingEntry
            &&& !owner_exists(old, ek.0, ek.1)
            &&& new == old
        },
    }
}

impl Store {
    /// Whether the entry is in the store.
    pub fn contains(&self, e: &Entry) -> (r: bool)
        requires
            self.wf(),
        ensures
            r == owner_exists(self@, entry_key(*e).0, entry_key(*e).1),
    {
        let (is_file, id) = crate::models::entry_id(e);
        if !is_file {
            {
                let mut i: usize = 0;
                while i < self.dirs.len()
                    invariant
                        self.wf(),
                        i <= self.dirs@.len(),
                        forall|k: int| 0 <= k < i ==> self.dirs@[k].id != id,
                        (is_file, id) == entry_key(*e),
                        !is_file,
                    decreases self.dirs@.len() - i,
                {
                    if self.dirs[i].id == id {
                        proof {
                                                        let p = self.dirs@[i as int].path@;
                            assert(self@.dirs.contains_key(p) && self@.dirs[p] == id);
                        }
                        return true;
                    }
                    i = i + 1;
                }
                proof {
                    assert forall|p: Seq<char>| #[trigger] self@.dirs.contains_key(p) implies self@.dirs[p] != id by {
                        let k = choose|k: int| 0 <= k < self.dirs@.len() && #[trigger] self.dirs@[k].path@ == p;
                    }
                }
                false
            }
        } else {
            {
                let mut i: usize = 0;
                while i < self.files.len()
                    invariant
                        self.wf(),
                        i <= self.files@.len(),
                        forall|k: int| 0 <= k < i ==> self.files@[k].file.id != id,
                        (is_file, id) == entry_key(*e),
                        is_file,
                    decreases self.files@.len() - i,
                {
                    if self.files[i].file.id == id {
                        proof {
                                                        let p = self.files@[i as int].path@;
                            assert(self@.files.contains_key(p) && self@.files[p].0 == id);
                        }
                        return true;
                    }
                    i = i + 1;
                }
                proof {
                    assert forall|p: Seq<char>| #[trigger] self@.files.contains_key(p) implies self@.files[p].0 != id by {
                        let k = choose|k: int| 0 <= k < self.files@.len() && #[trigger] self.files@[k].path@ == p;
                    }
                }
                false
            }
        }
    }

    /// The index of the metadata row of `(is_file, owner, key)`.
    fn find_meta(&self, is_file: bool, owner: u64, key: &str) -> (r: Option<usize>)
        requires
            self.wf(),
        ensures
            match r {
                Some(i) => i < self.meta@.len() && meta_key(self.meta@[i as int]) == (is_file, owner, key@)
                    && self@.kv.contains_key((is_file, owner, key@)),
                None => !self@.kv.contains_key((is_file, owner, key@)),
            },
    {
        let mut i: usize = 0;
        while i < self.meta.len()
            invariant
                self.wf(),
                i <= self.meta@.len(),
                forall|k: int| 0 <= k < i ==> meta_key(#[trigger] self.meta@[k]) != (is_file, owner, key@),
            decreases self.meta@.len() - i,
        {
            let row = &self.meta[i];
            if row.is_file == is_file && row.owner == owner && same_text(row.key.as_str(), key) {
                proof {
                    assert(meta_key(self.meta@[i as int]) == (is_file, owner, key@));
                }
                return Some(i);
            }
            i = i + 1;
        }
        None
    }

    /// The value of `key` on the entry.
    pub fn entry_metadata_get(&self, e: &Entry, key: &str) -> (r: Option<String>)
        requires
            self.wf(),
        ensures
            opt_view(r) == value_of(self@, entry_key(*e), key@),
    {
        let (is_file, owner) = crate::models::entry_id(e);
        match self.find_meta(is_file, owner, key) {
            Some(i) => Some(self.meta[i].value.clone()),
            None => None,
        }
    }

    /// Sets (`Some`) or deletes (`None`) the value of `key` on the entry, and returns the
    /// value it had. The entry must be in the store.
    pub fn entry_metadata_set(&mut self, e: &Entry, key: &str, value: Option<&str>) -> (r: Result<
        Option<String>,
        StoreError,
    >)
        requires
            old(self).wf(),
        ensures
            final(self).wf(),
            metadata_set_outcome(old(self)@, final(self)@, entry_key(*e), key@, opt_str_view(value), r),
    {
        if !self.contains(e) {
            return Err(StoreError::MissingEntry);
        }
        let (is_file, owner) = crate::models::entry_id(e);
        let ghost k = (is_file, owner, key@);
        let ghost old_m = self.model@;
        let found = self.find_meta(is_file, owner, key);
        match (found, value) {
            (Some(i), Some(v)) => {
                let prev = self.meta[i].value.clone();
                let ghost m = StoreModel { kv: old_m.kv.insert(k, v@), ..old_m };
                self.meta.set(i, MetaRow { is_file, owner, key: key.to_owned(), value: v.to_owned() });
                self.model = Ghost(m);
                proof {
                    self.lemma_meta_replaced(old(self), i as int, k);
                }
                Ok(Some(prev))
            },
            (Some(i), None) => {
                let prev = self.meta[i].value.clone();
                let ghost m = StoreModel { kv: old_m.kv.remove(k), ..old_m };
                let _ = self.meta.remove(i);
                self.model = Ghost(m);
                proof {
                    self.lemma_meta_removed(old(self), i as int, k);
                }
                Ok(Some(prev))
            },
            (None, Some(v)) => {
                let ghost m = StoreModel { kv: old_m.kv.insert(k, v@), ..old_m };
                self.meta.push(MetaRow { is_file, owner, key: key.to_owned(), value: v.to_owned() });
                self.model = Ghost(m);
                proof {
                    assert(self.meta@.drop_last() =~= old(self).meta@);
                    self.lemma_meta_added(old(self), k);
                }
                Ok(None)
            },
            (None, None) => {
                proof {
                    assert(old_m.kv.remove(k) =~= old_m.kv);
                }
                Ok(None)
            },
        }
    }

    proof fn lemma_meta_replaced(&self, old_s: &Store, i: int, k: (bool, u64, Seq<char>))
        requires
            old_s.wf(),
            0 <= i < old_s.meta@.len(),
            meta_key(old_s.meta@[i]) == k,
            self.meta@.len() == old_s.meta@.len(),
            self.meta@ == old_s.meta@.update(i, self.meta@[i]),
            meta_key(self.meta@[i]) == k,
            self.model@ == (StoreModel { kv: old_s.model@.kv.insert(k, self.meta@[i].value@), ..old_s.model@ }),
            self.dirs == old_s.dirs,
            self.files == old_s.files,
            self.next_id == old_s.next_id,
        ensures
            self.wf(),
    {
        let m = self.model@;
        let om = old_s.model@;
        assert forall|q: (bool, u64, Seq<char>)| #[trigger] m.kv.contains_key(q) implies owner_exists(m, q.0, q.1) by {
            if q != k {
                assert(om.kv.contains_key(q));
            } else {
                assert(om.kv.contains_key(meta_key(old_s.meta@[i])));
            }
            lemma_owner_frame(om, m, q.0, q.1);
        }
        assert forall|q: (bool, u64, Seq<char>)| #[trigger] m.kv.contains_key(q) implies exists|j: int|
            0 <= j < self.meta@.len() && #[trigger] meta_key(self.meta@[j]) == q by {
            if q == k {
                assert(meta_key(self.meta@[i]) == q);
            } else {
                let j = choose|j: int| 0 <= j < old_s.meta@.len() && #[trigger] meta_key(old_s.meta@[j]) == q;
                assert(meta_key(self.meta@[j]) == q);
            }
        }
        assert forall|j: int| 0 <= j < self.meta@.len() implies m.kv.contains_key(
            #[trigger] meta_key(self.meta@[j]),
        ) && m.kv[meta_key(self.meta@[j])] == self.meta@[j].value@ by {
            if j != i {
                assert(old_s.meta@[j] == self.meta@[j]);
            }
        }
        assert forall|a: int, b: int|
            0 <= a < self.meta@.len() && 0 <= b < self.meta@.len() && a != b implies meta_key(
            #[trigger] self.meta@[a],
        ) != meta_key(#[trigger] self.meta@[b]) by {
            if a != i {
                assert(old_s.meta@[a] == self.meta@[a]);
            }
            if b != i {
                assert(old_s.meta@[b] == self.meta@[b]);
            }
            assert(meta_key(old_s.meta@[a]) != meta_key(old_s.meta@[b]));
        }
        assert(model_ok(m));
        assert(self.dirs_ok());
        assert(self.files_ok());
        assert(self.meta_ok());
    }

    proof fn lemma_meta_removed(&self, old_s: &Store, i: int, k: (bool, u64, Seq<char>))
        requires
            old_s.wf(),
            0 <= i < old_s.meta@.len(),
            meta_key(old_s.meta@[i]) == k,
            self.meta@ == old_s.meta@.remove(i),
            self.model@ == (StoreModel { kv: old_s.model@.kv.remove(k), ..old_s.model@ }),
            self.dirs == old_s.dirs,
            self.files == old_s.files,
            self.next_id == old_s.next_id,
        ensures
            self.wf(),
    {
        let m = self.model@;
        let om = old_s.model@;
        assert forall|q: (bool, u64, Seq<char>)| #[trigger] m.kv.contains_key(q) implies owner_exists(m, q.0, q.1) by {
            if q != k {
                assert(om.kv.contains_key(q));
            } else {
                
            }
            lemma_owner_frame(om, m, q.0, q.1);
        }
        assert forall|q: (bool, u64, Seq<char>)| #[trigger] m.kv.contains_key(q) implies exists|j: int|
            0 <= j < self.meta@.len() && #[trigger] meta_key(self.meta@[j]) == q by {
            let j = choose|j: int| 0 <= j < old_s.meta@.len() && #[trigger] meta_key(old_s.meta@[j]) == q;
            if j < i {
                assert(meta_key(self.meta@[j]) == q);
            } else {
                assert(j != i);
                assert(meta_key(self.meta@[j - 1]) == q);
            }
        }
        assert forall|j: int| 0 <= j < self.meta@.len() implies m.kv.contains_key(
            #[trigger] meta_key(self.meta@[j]),
        ) && m.kv[meta_key(self.meta@[j])] == self.meta@[j].value@ by {
            let oj = if j < i { j } else { j + 1 };
            assert(old_s.meta@[oj] == self.meta@[j]);
            assert(meta_key(old_s.meta@[oj]) != meta_key(old_s.meta@[i]));
        }
        assert forall|a: int, b: int|
            0 <= a < self.meta@.len() && 0 <= b < self.meta@.len() && a != b implies meta_key(
            #[trigger] self.meta@[a],
        ) != meta_key(#[trigger] self.meta@[b]) by {
            let oa = if a < i { a } else { a + 1 };
            let ob = if b < i { b } else { b + 1 };
            assert(old_s.meta@[oa] == self.meta@[a]);
            assert(old_s.meta@[ob] == self.meta@[b]);
            assert(meta_key(old_s.meta@[oa]) != meta_key(old_s.meta@[ob]));
        }
        assert(model_ok(m));
        assert(self.dirs_ok());
        assert(self.files_ok());
        assert(self.meta_ok());
    }

    proof fn lemma_meta_added(&self, old_s: &Store, k: (bool, u64, Seq<char>))
        requires
            old_s.wf(),
            !old_s.model@.kv.contains_key(k),
            owner_exists(old_s.model@, k.0, k.1),
            self.meta@.len() == old_s.meta@.len() + 1,
            self.meta@.drop_last() == old_s.meta@,
            meta_key(self.meta@.last()) == k,
            self.model@ == (StoreModel { kv: old_s.model@.kv.insert(k, self.meta@.last().value@), ..old_s.model@ }),
            self.dirs == old_s.dirs,
            self.files == old_s.files,
            self.next_id == old_s.next_id,
        ensures
            self.wf(),
    {
        let m = self.model@;
        let om = old_s.model@;
        let n = old_s.meta@.len() as int;
        assert forall|j: int| 0 <= j < n implies self.meta@[j] == old_s.meta@[j] by {
            assert(self.meta@.drop_last()[j] == self.meta@[j]);
        }
        assert forall|q: (bool, u64, Seq<char>)| #[trigger] m.kv.contains_key(q) implies owner_exists(m, q.0, q.1) by {
            if q != k {
                assert(om.kv.contains_key(q));
            } else {
                
            }
            lemma_owner_frame(om, m, q.0, q.1);
        }
        assert forall|q: (bool, u64, Seq<char>)| #[trigger] m.kv.contains_key(q) implies exists|j: int|
            0 <= j < self.meta@.len() && #[trigger] meta_key(self.meta@[j]) == q by {
            if q == k {
                assert(meta_key(self.meta@[n]) == q);
            } else {
                let j = choose|j: int| 0 <= j < old_s.meta@.len() && #[trigger] meta_key(old_s.meta@[j]) == q;
                assert(meta_key(self.meta@[j]) == q);
            }
        }
        assert forall|j: int| 0 <= j < self.meta@.len() implies m.kv.contains_key(
            #[trigger] meta_key(self.meta@[j]),
        ) && m.kv[meta_key(self.meta@[j])] == self.meta@[j].value@ by {
            if j < n {
                assert(om.kv.contains_key(meta_key(old_s.meta@[j])));
            }
        }
        assert forall|a: int, b: int|
            0 <= a < self.meta@.len() && 0 <= b < self.meta@.len() && a != b implies meta_key(
            #[trigger] self.meta@[a],
        ) != meta_key(#[trigger] self.meta@[b]) by {
            if a < n && b < n {
                assert(meta_key(old_s.meta@[a]) != meta_key(old_s.meta@[b]));
            } else if a < n {
                assert(om.kv.contains_key(meta_key(old_s.meta@[a])));
            } else if b < n {
                assert(om.kv.contains_key(meta_key(old_s.meta@[b])));
            }
        }
        assert(model_ok(m));
        assert(self.dirs_ok());
        assert(self.files_ok());
        assert(self.meta_ok());
    }
}

/// Whether the factor holds of the entry `ek`.
pub open spec fn eval_factor(f: FactorModel, m: StoreModel, ek: (bool, u64)) -> bool
    decreases f,
{
    match f {
        FactorModel::Query(o) => eval_or(*o, m, ek),
        FactorModel::Key(k) => value_of(m, ek, k) is Some,
        FactorModel::KeyEqualsValue(k, EqualityKind::Strict, v) => value_of(m, ek, k) == Some(v),
        FactorModel::KeyEqualsValue(k, EqualityKind::Matches, v) => match value_of(m, ek, k) {
            Some(x) => regex_match(v, x) == Some(true),
            None => false,
        },
        FactorModel::KeyIn(k, vs) => match value_of(m, ek, k) {
            Some(x) => vs.contains(x),
            None => false,
        },
    }
}

/// Whether every factor of the conjunction holds of the entry `ek`.
pub open spec fn eval_and(a: AndModel, m: StoreModel, ek: (bool, u64)) -> bool
    decreases a,
{
    eval_factor(a.factor, m, ek) && match a.next {
        Some(n) => eval_and(*n, m, ek),
        None => true,
    }
}

/// Whether some conjunction of the disjunction holds of the entry `ek`.
pub open spec fn eval_or(o: OrModel, m: StoreModel, ek: (bool, u64)) -> bool
    decreases o,
{
    eval_and(o.and_query, m, ek) || match o.next {
        Some(n) => eval_or(*n, m, ek),
        None => false,
    }
}

impl Store {
    fn eval_factor_exec(&self, f: &Factor, ek: (bool, u64)) -> (r: bool)
        requires
            self.wf(),
        ensures
            r == eval_factor(factor_model(*f), self@, ek),
        decreases f,
    {
        match f {
            Factor::Query(o) => self.eval_or_exec(o, ek),
            Factor::Key(k) => self.find_meta(ek.0, ek.1, k.as_str()).is_some(),
            Factor::KeyEqualsValue((k, e, v)) => match self.find_meta(ek.0, ek.1, k.as_str()) {
                Some(i) => match e {
                    EqualityKind::Strict => same_text(self.meta[i].value.as_str(), v.as_str()),
                    EqualityKind::Matches => value_matches(v.as_str(), self.meta[i].value.as_str()),
                },
                None => false,
            },
            Factor::KeyIn((k, vs)) => match self.find_meta(ek.0, ek.1, k.as_str()) {
                Some(i) => {
                    let x = self.meta[i].value.as_str();
                    proof {
                        assert(self@.kv[meta_key(self.meta@[i as int])] == self.meta@[i as int].value@);
                    }
                    let mut j: usize = 0;
                    while j < vs.len()
                        invariant
                            j <= vs@.len(),
                            value_of(self@, ek, k@) == Some(x@),
                            factor_model(*f) == FactorModel::KeyIn(k@, crate::parse::texts_of(vs@)),
                            forall|t: int| 0 <= t < j ==> vs@[t]@ != x@,
                        decreases vs@.len() - j,
                    {
                        if same_text(vs[j].as_str(), x) {
                            proof {
                                assert(crate::parse::texts_of(vs@)[j as int] == x@);
                            }
                            return true;
                        }
                        j = j + 1;
                    }
                    proof {
                        assert forall|t: int| 0 <= t < vs@.len() implies crate::parse::texts_of(vs@)[t] != x@ by {
                            assert(vs@[t]@ != x@);
                        }
                    }
                    false
                },
                None => false,
            },
        }
    }

    fn eval_and_exec(&self, a: &AndQuery, ek: (bool, u64)) -> (r: bool)
        requires
            self.wf(),
        ensures
            r == eval_and(and_model(*a), self@, ek),
        decreases a,
    {
        if !self.eval_factor_exec(&a.factor, ek) {
            return false;
        }
        match &a.next {
            Some(n) => self.eval_and_exec(n, ek),
            None => true,
        }
    }

    fn eval_or_exec(&self, o: &OrQuery, ek: (bool, u64)) -> (r: bool)
        requires
            self.wf(),
        ensures
            r == eval_or(or_model(*o), self@, ek),
        decreases o,
    {
        if self.eval_and_exec(&o.and_query, ek) {
            return true;
        }
        match &o.next {
            Some(n) => self.eval_or_exec(n, ek),
            None => false,
        }
    }
}

/// Whether `e` is the directory `p` of the store.
pub open spec fn is_dir_entry(m: StoreModel, e: Entry, p: Seq<char>) -> bool {
    &&& e is Directory
    &&& m.dirs.contains_key(p)
    &&& e->Directory_0.id == m.dirs[p]
    &&& e->Directory_0.path@ == p
}

/// Whether `e` is the file `p` of the store.
pub open spec fn is_file_entry(m: StoreModel, e: Entry, p: Seq<char>) -> bool {
    &&& e is File
    &&& m.files.contains_key(p)
    &&& m.files[p] == (e->File_0.id, e->File_0.directory_id, e->File_0.hash@)
    &&& e->File_0.filename@ == filename_of(p)
}

/// Whether `e` is an entry of the store, at some path that `pred` admits.
pub open spec fn is_entry_where(m: StoreModel, e: Entry, pred: spec_fn(Seq<char>, (bool, u64)) -> bool) -> bool {
    exists|p: Seq<char>| (is_dir_entry(m, e, p) || is_file_entry(m, e, p)) && #[trigger] pred(p, entry_key(e))
}

/// Whether the list holds exactly the entries of the store that `pred` admits, each once.
pub open spec fn lists_exactly(m: StoreModel, r: Seq<Entry>, pred: spec_fn(Seq<char>, (bool, u64)) -> bool) -> bool {
    &&& forall|j: int| 0 <= j < r.len() ==> is_entry_where(m, #[trigger] r[j], pred)
    &&& forall|p: Seq<char>|
        #[trigger] m.dirs.contains_key(p) && pred(p, (false, m.dirs[p])) ==> exists|j: int|
            0 <= j < r.len() && is_dir_entry(m, #[trigger] r[j], p)
    &&& forall|p: Seq<char>|
        #[trigger] m.files.contains_key(p) && pred(p, (true, m.files[p].0)) ==> exists|j: int|
            0 <= j < r.len() && is_file_entry(m, #[trigger] r[j], p)
    &&& forall|a: int, b: int|
        0 <= a < r.len() && 0 <= b < r.len() && a != b ==> entry_key(#[trigger] r[a]) != entry_key(
            #[trigger] r[b],
        )
}

/// Whether `e` is the entry at the path `s`.
pub open spec fn is_entry_at(m: StoreModel, e: Entry, s: &str) -> bool {
    is_dir_entry(m, e, normalize(s@)) || is_file_entry(m, e, normalize(s@))
}

/// Whether `e` is the entry at one of the paths.
pub open spec fn is_entry_at_one_of(m: StoreModel, e: Entry, paths: Seq<&str>) -> bool {
    exists|i: int| 0 <= i < paths.len() && is_entry_at(m, e, #[trigger] paths[i])
}

/// Whether `q` lies strictly below the directory `p`.
pub open spec fn is_under(q: Seq<char>, p: Seq<char>) -> bool {
    if p == root() {
        q != root()
    } else {
        q.len() > p.len() && q.subrange(0, p.len() as int) == p && q[p.len() as int] == '/'
    }
}

impl Store {
    proof fn lemma_dir_rows_distinct(&self)
        requires
            self.wf(),
        ensures
            forall|a: int, b: int|
                0 <= a < self.dirs@.len() && 0 <= b < self.dirs@.len() && a != b ==> (
                #[trigger] self.dirs@[a]).id != (#[trigger] self.dirs@[b]).id,
            forall|a: int, b: int|
                0 <= a < self.files@.len() && 0 <= b < self.files@.len() && a != b ==> (
                #[trigger] self.files@[a]).file.id != (#[trigger] self.files@[b]).file.id,
    {
        let m = self.model@;
        assert forall|a: int, b: int|
            0 <= a < self.dirs@.len() && 0 <= b < self.dirs@.len() && a != b implies (
            #[trigger] self.dirs@[a]).id != (#[trigger] self.dirs@[b]).id by {
            let pa = self.dirs@[a].path@;
            let pb = self.dirs@[b].path@;
            assert(m.dirs.contains_key(pa) && m.dirs.contains_key(pb));
        }
        assert forall|a: int, b: int|
            0 <= a < self.files@.len() && 0 <= b < self.files@.len() && a != b implies (
            #[trigger] self.files@[a]).file.id != (#[trigger] self.files@[b]).file.id by {
            let pa = self.files@[a].path@;
            let pb = self.files@[b].path@;
            assert(m.files.contains_key(pa) && m.files.contains_key(pb));
        }
    }
}

/// Whether `q` lies strictly below the directory `p`.
fn is_under_exec(q: &str, p: &str) -> (r: bool)
    ensures
        r == is_under(q@, p@),
{
    let qv = crate::text::chars_of(q);
    let pv = crate::text::chars_of(p);
    if pv.len() == 1 && pv[0] == '/' {
        proof {
            assert(p@ =~= root());
        }
        if qv.len() == 1 && qv[0] == '/' {
            proof {
                assert(q@ =~= root());
            }
            return false;
        }
        proof {
            if q@ == root() {
                assert(qv@.len() == 1);
            }
        }
        return true;
    }
    proof {
        if p@ == root() {
            assert(pv@.len() == 1 && pv@[0] == '/');
        }
    }
    if qv.len() <= pv.len() {
        return false;
    }
    let mut i: usize = 0;
    while i < pv.len()
        invariant
            pv@ == p@,
            qv@ == q@,
            pv@.len() < qv@.len(),
            p@ != root(),
            i <= pv@.len(),
            forall|k: int| 0 <= k < i ==> qv@[k] == pv@[k],
        decreases pv@.len() - i,
    {
        if qv[i] != pv[i] {
            proof {
                assert(q@.subrange(0, p@.len() as int)[i as int] != p@[i as int]);
            }
            return false;
        }
        i = i + 1;
    }
    proof {
        assert(q@.subrange(0, p@.len() as int) =~= p@);
    }
    qv[pv.len()] == '/'
}

/// What a listing selects: the entries that a query admits, or the entries below a
/// directory.
enum Selection<'a> {
    Matching(&'a OrQuery),
    Below(&'a str),
    BelowTagged(&'a str, &'a str, Option<&'a str>),
}

/// The entries that satisfy the query `q`.
pub open spec fn matching(m: StoreModel, q: OrModel) -> spec_fn(Seq<char>, (bool, u64)) -> bool {
    |p: Seq<char>, ek: (bool, u64)| eval_or(q, m, ek)
}

/// The entries strictly below the directory `d`.
pub open spec fn below(d: Seq<char>) -> spec_fn(Seq<char>, (bool, u64)) -> bool {
    |p: Seq<char>, ek: (bool, u64)| is_under(p, d)
}

/// The entries strictly below the directory `d` that have `key` (with the value `value`,
/// when one is given).
pub open spec fn below_tagged(m: StoreModel, d: Seq<char>, key: Seq<char>, value: Option<Seq<char>>) -> spec_fn(
    Seq<char>,
    (bool, u64),
) -> bool {
    |p: Seq<char>, ek: (bool, u64)|
        is_under(p, d) && match value {
            Some(v) => value_of(m, ek, key) == Some(v),
            None => value_of(m, ek, key) is Some,
        }
}

spec fn selected(m: StoreModel, s: Selection) -> spec_fn(Seq<char>, (bool, u64)) -> bool {
    match s {
        Selection::Matching(q) => matching(m, or_model(*q)),
        Selection::Below(d) => below(d@),
        Selection::BelowTagged(d, k, v) => below_tagged(m, d@, k@, opt_str_view(v)),
    }
}

impl Store {
    fn admits(&self, sel: &Selection, path: &str, ek: (bool, u64)) -> (r: bool)
        requires
            self.wf(),
        ensures
            r == (selected(self@, *sel))(path@, ek),
    {
        match sel {
            Selection::Matching(q) => self.eval_or_exec(q, ek),
            Selection::Below(d) => is_under_exec(path, d),
            Selection::BelowTagged(d, k, v) => {
                if !is_under_exec(path, d) {
                    return false;
                }
                match self.find_meta(ek.0, ek.1, k) {
                    Some(i) => {
                        proof {
                            assert(self@.kv[meta_key(self.meta@[i as int])] == self.meta@[i as int].value@);
                        }
                        match v {
                            Some(v) => same_text(self.meta[i].value.as_str(), v),
                            None => true,
                        }
                    },
                    None => false,
                }
            },
        }
    }

    /// The entries that `sel` selects: directories first, then files, each in the order
    /// they were added.
    fn entries_where(&self, sel: &Selection) -> (r: Vec<Entry>)
        requires
            self.wf(),
        ensures
            lists_exactly(self@, r@, selected(self@, *sel)),
    {
        let ghost m = self@;
        let ghost pred = selected(self@, *sel);
        proof {
            self.lemma_dir_rows_distinct();
        }
        let mut r: Vec<Entry> = Vec::new();
        let mut i: usize = 0;
        while i < self.dirs.len()
            invariant
                self.wf(),
                m == self@,
                pred == selected(self@, *sel),
                i <= self.dirs@.len(),
                forall|a: int, b: int|
                    0 <= a < self.dirs@.len() && 0 <= b < self.dirs@.len() && a != b ==> (
                    #[trigger] self.dirs@[a]).id != (#[trigger] self.dirs@[b]).id,
                forall|j: int|
                    0 <= j < r@.len() ==> is_entry_where(m, #[trigger] r@[j], pred) && r@[j] is Directory
                        && exists|t: int| 0 <= t < i && self.dirs@[t].id == r@[j]->Directory_0.id,
                forall|t: int|
                    0 <= t < i && pred(self.dirs@[t].path@, (false, self.dirs@[t].id)) ==> exists|j: int|
                        0 <= j < r@.len() && is_dir_entry(m, #[trigger] r@[j], self.dirs@[t].path@),
                forall|a: int, b: int|
                    0 <= a < r@.len() && 0 <= b < r@.len() && a != b ==> entry_key(#[trigger] r@[a])
                        != entry_key(#[trigger] r@[b]),
            decreases self.dirs@.len() - i,
        {
            let d = &self.dirs[i];
            let ghost p = d.path@;
            proof {
                assert(m.dirs.contains_key(self.dirs@[i as int].path@));
            }
            if self.admits(sel, d.path.as_str(), (false, d.id)) {
                let e = Entry::Directory(d.clone());
                proof {
                    assert(is_dir_entry(m, e, p));
                    assert(pred(p, entry_key(e)));
                    assert forall|j: int| 0 <= j < r@.len() implies entry_key(r@[j]) != entry_key(e) by {
                        let t = choose|t: int| 0 <= t < i && self.dirs@[t].id == r@[j]->Directory_0.id;
                        assert(self.dirs@[t].id != self.dirs@[i as int].id);
                    }
                }
                let ghost before = r@;
                r.push(e);
                proof {
                    assert forall|j: int| 0 <= j < r@.len() implies is_entry_where(m, #[trigger] r@[j], pred) && r@[j] is Directory
                        && exists|t: int| 0 <= t < i + 1 && self.dirs@[t].id == r@[j]->Directory_0.id by {
                        if j < before.len() {
                            assert(before[j] == r@[j]);
                            let t = choose|t: int| 0 <= t < i && self.dirs@[t].id == before[j]->Directory_0.id;
                            assert(self.dirs@[t].id == r@[j]->Directory_0.id);
                        } else {
                            assert(self.dirs@[i as int].id == r@[j]->Directory_0.id);
                        }
                    }
                    assert forall|t: int|
                        0 <= t < i + 1 && pred(self.dirs@[t].path@, (false, self.dirs@[t].id)) implies exists|j: int|
                            0 <= j < r@.len() && is_dir_entry(m, #[trigger] r@[j], self.dirs@[t].path@) by {
                        if t < i {
                            let j = choose|j: int| 0 <= j < before.len() && is_dir_entry(m, #[trigger] before[j], self.dirs@[t].path@);
                            assert(before[j] == r@[j]);
                        } else {
                            assert(is_dir_entry(m, r@[before.len() as int], self.dirs@[t].path@));
                        }
                    }
                    assert forall|a: int, b: int|
                        0 <= a < r@.len() && 0 <= b < r@.len() && a != b implies entry_key(#[trigger] r@[a])
                            != entry_key(#[trigger] r@[b]) by {
                        if a < before.len() {
                            assert(before[a] == r@[a]);
                        }
                        if b < before.len() {
                            assert(before[b] == r@[b]);
                        }
                    }
                }
            }
            i = i + 1;
        }
        let nd = r.len();
        let mut i: usize = 0;
        while i < self.files.len()
            invariant
                self.wf(),
                m == self@,
                pred == selected(self@, *sel),
                i <= self.files@.len(),
                nd <= r@.len(),
                forall|a: int, b: int|
                    0 <= a < self.files@.len() && 0 <= b < self.files@.len() && a != b ==> (
                    #[trigger] self.files@[a]).file.id != (#[trigger] self.files@[b]).file.id,
                forall|j: int| 0 <= j < r@.len() ==> is_entry_where(m, #[trigger] r@[j], pred),
                forall|j: int| 0 <= j < nd ==> (#[trigger] r@[j]) is Directory,
                forall|j: int|
                    nd <= j < r@.len() ==> (#[trigger] r@[j]) is File && exists|t: int|
                        0 <= t < i && self.files@[t].file.id == r@[j]->File_0.id,
                forall|p: Seq<char>|
                    #[trigger] m.dirs.contains_key(p) && pred(p, (false, m.dirs[p])) ==> exists|j: int|
                        0 <= j < r@.len() && is_dir_entry(m, #[trigger] r@[j], p),
                forall|t: int|
                    0 <= t < i && pred(self.files@[t].path@, (true, self.files@[t].file.id)) ==> exists|j: int|
                        0 <= j < r@.len() && is_file_entry(m, #[trigger] r@[j], self.files@[t].path@),
                forall|a: int, b: int|
                    0 <= a < r@.len() && 0 <= b < r@.len() && a != b ==> entry_key(#[trigger] r@[a])
                        != entry_key(#[trigger] r@[b]),
            decreases self.files@.len() - i,
        {
            let f = &self.files[i];
            let ghost p = f.path@;
            proof {
                assert(m.files.contains_key(self.files@[i as int].path@));
            }
            if self.admits(sel, f.path.as_str(), (true, f.file.id)) {
                let e = Entry::File(f.file.clone());
                proof {
                    assert(is_file_entry(m, e, p));
                    assert(pred(p, entry_key(e)));
                    assert forall|j: int| 0 <= j < r@.len() implies entry_key(r@[j]) != entry_key(e) by {
                        if j >= nd {
                            let t = choose|t: int| 0 <= t < i && self.files@[t].file.id == r@[j]->File_0.id;
                            assert(self.files@[t].file.id != self.files@[i as int].file.id);
                        } else {
                            assert(r@[j] is Directory);
                        }
                    }
                }
                let ghost before = r@;
                r.push(e);
                proof {
                    assert forall|j: int| 0 <= j < r@.len() implies is_entry_where(m, #[trigger] r@[j], pred) by {
                        if j < before.len() {
                            assert(before[j] == r@[j]);
                        }
                    }
                    assert forall|j: int| 0 <= j < nd implies (#[trigger] r@[j]) is Directory by {
                        assert(before[j] == r@[j]);
                    }
                    assert forall|j: int|
                        nd <= j < r@.len() implies (#[trigger] r@[j]) is File && exists|t: int|
                            0 <= t < i + 1 && self.files@[t].file.id == r@[j]->File_0.id by {
                        if j < before.len() {
                            assert(before[j] == r@[j]);
                            let t = choose|t: int| 0 <= t < i && self.files@[t].file.id == before[j]->File_0.id;
                            assert(self.files@[t].file.id == r@[j]->File_0.id);
                        } else {
                            assert(self.files@[i as int].file.id == r@[j]->File_0.id);
                        }
                    }
                    assert forall|q: Seq<char>|
                        #[trigger] m.dirs.contains_key(q) && pred(q, (false, m.dirs[q])) implies exists|j: int|
                            0 <= j < r@.len() && is_dir_entry(m, #[trigger] r@[j], q) by {
                        let j = choose|j: int| 0 <= j < before.len() && is_dir_entry(m, #[trigger] before[j], q);
                        assert(before[j] == r@[j]);
                    }
                    assert forall|t: int|
                        0 <= t < i + 1 && pred(self.files@[t].path@, (true, self.files@[t].file.id)) implies exists|j: int|
                            0 <= j < r@.len() && is_file_entry(m, #[trigger] r@[j], self.files@[t].path@) by {
                        if t < i {
                            let j = choose|j: int| 0 <= j < before.len() && is_file_entry(m, #[trigger] before[j], self.files@[t].path@);
                            assert(before[j] == r@[j]);
                        } else {
                            assert(is_file_entry(m, r@[before.len() as int], self.files@[t].path@));
                        }
                    }
                    assert forall|a: int, b: int|
                        0 <= a < r@.len() && 0 <= b < r@.len() && a != b implies entry_key(#[trigger] r@[a])
                            != entry_key(#[trigger] r@[b]) by {
                        if a < before.len() {
                            assert(before[a] == r@[a]);
                        }
                        if b < before.len() {
                            assert(before[b] == r@[b]);
                        }
                    }
                }
            }
            i = i + 1;
        }
        proof {
            assert forall|p: Seq<char>|
                #[trigger] m.files.contains_key(p) && pred(p, (true, m.files[p].0)) implies exists|j: int|
                    0 <= j < r@.len() && is_file_entry(m, #[trigger] r@[j], p) by {
                let t = choose|t: int| 0 <= t < self.files@.len() && #[trigger] self.files@[t].path@ == p;
            }
        }
        r
    }
}

impl Store {
    /// The entries that satisfy the query: directories first, then files.
    pub fn query(&self, q: &OrQuery) -> (r: Vec<Entry>)
        requires
            self.wf(),
        ensures
            lists_exactly(self@, r@, matching(self@, or_model(*q))),
    {
        self.entries_where(&Selection::Matching(q))
    }

    /// The entries strictly below the directory `d`, at any depth: directories first,
    /// then files.
    pub fn directory_entries(&self, d: &Directory) -> (r: Vec<Entry>)
        requires
            self.wf(),
        ensures
            lists_exactly(self@, r@, below(d.path@)),
    {
        self.entries_where(&Selection::Below(d.path.as_str()))
    }

    /// The entry at `path` (normalised), if any.
    pub fn get_entry(&self, path: &str) -> (r: Option<Entry>)
        requires
            self.wf(),
        ensures
            ({
                let p = normalize(path@);
                &&& self@.dirs.contains_key(p) ==> r is Some && is_dir_entry(self@, r->0, p)
                &&& self@.files.contains_key(p) ==> r is Some && is_file_entry(self@, r->0, p)
                &&& !self@.dirs.contains_key(p) && !self@.files.contains_key(p) ==> r is None
            }),
    {
        let p = Path::new(path);
        match self.find_dir(p.str()) {
            Some(i) => {
                proof {
                    assert(!self@.files.contains_key(p@));
                }
                return Some(Entry::Directory(self.dirs[i].clone()));
            },
            None => {},
        }
        match self.find_file(p.str()) {
            Some(i) => Some(Entry::File(self.files[i].file.clone())),
            None => None,
        }
    }

    /// The entries at the given paths that exist, in the order of the paths.
    pub fn get_entries(&self, paths: &[&str]) -> (r: Vec<Entry>)
        requires
            self.wf(),
        ensures
            forall|j: int| 0 <= j < r@.len() ==> is_entry_at_one_of(self@, #[trigger] r@[j], paths@),
            forall|i: int|
                0 <= i < paths@.len() && (self@.dirs.contains_key(normalize(#[trigger] paths@[i]@))
                    || self@.files.contains_key(normalize(paths@[i]@))) ==> exists|j: int|
                    0 <= j < r@.len() && (is_dir_entry(self@, #[trigger] r@[j], normalize(paths@[i]@))
                        || is_file_entry(self@, r@[j], normalize(paths@[i]@))),
    {
        let mut r: Vec<Entry> = Vec::new();
        let mut i: usize = 0;
        while i < paths.len()
            invariant
                self.wf(),
                i <= paths@.len(),
                forall|j: int|
                    0 <= j < r@.len() ==> exists|t: int|
                        0 <= t < i && (is_dir_entry(self@, #[trigger] r@[j], normalize(paths@[t]@))
                            || is_file_entry(self@, r@[j], normalize(paths@[t]@))),
                forall|t: int|
                    0 <= t < i && (self@.dirs.contains_key(normalize(#[trigger] paths@[t]@))
                        || self@.files.contains_key(normalize(paths@[t]@))) ==> exists|j: int|
                        0 <= j < r@.len() && (is_dir_entry(self@, #[trigger] r@[j], normalize(paths@[t]@))
                            || is_file_entry(self@, r@[j], normalize(paths@[t]@))),
            decreases paths@.len() - i,
        {
            let ghost before = r@;
            match self.get_entry(paths[i]) {
                Some(e) => {
                    r.push(e);
                },
                None => {},
            }
            proof {
                assert forall|j: int|
                    0 <= j < r@.len() implies exists|t: int|
                        0 <= t < i + 1 && (is_dir_entry(self@, #[trigger] r@[j], normalize(paths@[t]@))
                            || is_file_entry(self@, r@[j], normalize(paths@[t]@))) by {
                    if j < before.len() {
                        assert(before[j] == r@[j]);
                        let t = choose|t: int| 0 <= t < i && (is_dir_entry(self@, #[trigger] before[j], normalize(paths@[t]@))
                            || is_file_entry(self@, before[j], normalize(paths@[t]@)));
                    } else {
                        assert(is_dir_entry(self@, r@[j], normalize(paths@[i as int]@)) || is_file_entry(self@, r@[j], normalize(paths@[i as int]@)));
                    }
                }
                assert forall|t: int|
                    0 <= t < i + 1 && (self@.dirs.contains_key(normalize(#[trigger] paths@[t]@))
                        || self@.files.contains_key(normalize(paths@[t]@))) implies exists|j: int|
                        0 <= j < r@.len() && (is_dir_entry(self@, #[trigger] r@[j], normalize(paths@[t]@))
                            || is_file_entry(self@, r@[j], normalize(paths@[t]@))) by {
                    if t < i {
                        let j = choose|j: int| 0 <= j < before.len() && (is_dir_entry(self@, #[trigger] before[j], normalize(paths@[t]@))
                            || is_file_entry(self@, before[j], normalize(paths@[t]@)));
                        assert(before[j] == r@[j]);
                    } else {
                        assert(is_dir_entry(self@, r@[before.len() as int], normalize(paths@[t]@)) || is_file_entry(self@, r@[before.len() as int], normalize(paths@[t]@)));
                    }
                }
            }
            i = i + 1;
        }
        proof {
            assert forall|j: int| 0 <= j < r@.len() implies is_entry_at_one_of(self@, #[trigger] r@[j], paths@) by {
                let t = choose|t: int| 0 <= t < i && (is_dir_entry(self@, #[trigger] r@[j], normalize(paths@[t]@))
                    || is_file_entry(self@, r@[j], normalize(paths@[t]@)));
                assert(0 <= t < paths@.len());
                assert(is_entry_at(self@, r@[j], paths@[t]));
            }
        }
        r
    }

    /// The key/value pairs of the entry, each once.
    pub fn entry_metadata(&self, e: &Entry) -> (r: Vec<(String, String)>)
        requires
            self.wf(),
        ensures
            forall|j: int|
                0 <= j < r@.len() ==> value_of(self@, entry_key(*e), (#[trigger] r@[j]).0@) == Some(
                    r@[j].1@,
                ),
            forall|k: Seq<char>|
                #[trigger] value_of(self@, entry_key(*e), k) is Some ==> exists|j: int|
                    0 <= j < r@.len() && (#[trigger] r@[j]).0@ == k,
            forall|a: int, b: int|
                0 <= a < r@.len() && 0 <= b < r@.len() && a != b ==> (#[trigger] r@[a]).0@ != (
                #[trigger] r@[b]).0@,
    {
        let (is_file, owner) = crate::models::entry_id(e);
        let mut r: Vec<(String, String)> = Vec::new();
        let mut i: usize = 0;
        while i < self.meta.len()
            invariant
                self.wf(),
                (is_file, owner) == entry_key(*e),
                i <= self.meta@.len(),
                forall|j: int|
                    0 <= j < r@.len() ==> value_of(self@, entry_key(*e), (#[trigger] r@[j]).0@)
                        == Some(r@[j].1@) && exists|t: int|
                        0 <= t < i && meta_key(self.meta@[t]) == (is_file, owner, r@[j].0@),
                forall|t: int|
                    0 <= t < i && (#[trigger] self.meta@[t]).is_file == is_file && self.meta@[t].owner
                        == owner ==> exists|j: int| 0 <= j < r@.len() && (#[trigger] r@[j]).0@ == self.meta@[t].key@,
                forall|a: int, b: int|
                    0 <= a < r@.len() && 0 <= b < r@.len() && a != b ==> (#[trigger] r@[a]).0@
                        != (#[trigger] r@[b]).0@,
            decreases self.meta@.len() - i,
        {
            let row = &self.meta[i];
            if row.is_file == is_file && row.owner == owner {
                let ghost before = r@;
                proof {
                    assert(self@.kv.contains_key(meta_key(self.meta@[i as int])));
                    assert forall|j: int| 0 <= j < before.len() implies before[j].0@ != row.key@ by {
                        let t = choose|t: int| 0 <= t < i && meta_key(self.meta@[t]) == (is_file, owner, before[j].0@);
                        if before[j].0@ == row.key@ {
                            assert(meta_key(self.meta@[t]) == meta_key(self.meta@[i as int]));
                        }
                    }
                }
                r.push((row.key.clone(), row.value.clone()));
                proof {
                    assert forall|j: int|
                        0 <= j < r@.len() implies value_of(self@, entry_key(*e), (#[trigger] r@[j]).0@)
                            == Some(r@[j].1@) && exists|t: int|
                            0 <= t < i + 1 && meta_key(self.meta@[t]) == (is_file, owner, r@[j].0@) by {
                        if j < before.len() {
                            assert(before[j] == r@[j]);
                            let t = choose|t: int| 0 <= t < i && meta_key(self.meta@[t]) == (is_file, owner, before[j].0@);
                        } else {
                            assert(meta_key(self.meta@[i as int]) == (is_file, owner, r@[j].0@));
                        }
                    }
                    assert forall|t: int|
                        0 <= t < i + 1 && (#[trigger] self.meta@[t]).is_file == is_file && self.meta@[t].owner
                            == owner implies exists|j: int| 0 <= j < r@.len() && (#[trigger] r@[j]).0@ == self.meta@[t].key@ by {
                        if t < i {
                            let j = choose|j: int| 0 <= j < before.len() && (#[trigger] before[j]).0@ == self.meta@[t].key@;
                            assert(before[j] == r@[j]);
                        } else {
                            assert(r@[before.len() as int].0@ == self.meta@[t].key@);
                        }
                    }
                    assert forall|a: int, b: int|
                        0 <= a < r@.len() && 0 <= b < r@.len() && a != b implies (#[trigger] r@[a]).0@
                            != (#[trigger] r@[b]).0@ by {
                        if a < before.len() {
                            assert(before[a] == r@[a]);
                        }
                        if b < before.len() {
                            assert(before[b] == r@[b]);
                        }
                    }
                }
            }
            i = i + 1;
        }
        proof {
            assert forall|k: Seq<char>|
                #[trigger] value_of(self@, entry_key(*e), k) is Some implies exists|j: int|
                    0 <= j < r@.len() && (#[trigger] r@[j]).0@ == k by {
                assert(self@.kv.contains_key((is_file, owner, k)));
                let t = choose|t: int| 0 <= t < self.meta@.len() && #[trigger] meta_key(self.meta@[t]) == (is_file, owner, k);
                assert(self.meta@[t].is_file == is_file && self.meta@[t].owner == owner);
            }
        }
        r
    }
}

/// The metadata pairs that do not belong to the entry `ek`.
pub open spec fn without_owner(kv: Map<(bool, u64, Seq<char>), Seq<char>>, ek: (bool, u64)) -> Map<
    (bool, u64, Seq<char>),
    Seq<char>,
> {
    kv.restrict(kv.dom().filter(|k: (bool, u64, Seq<char>)| (k.0, k.1) != ek))
}

/// Whether anything lies below the directory `p`.
pub open spec fn has_children(m: StoreModel, p: Seq<char>) -> bool {
    (exists|q: Seq<char>| #[trigger] m.dirs.contains_key(q) && is_under(q, p)) || (exists|q: Seq<char>|
        #[trigger] m.files.contains_key(q) && is_under(q, p))
}

impl Store {
    /// Deletes every metadata pair of the entry `ek`; returns how many there were.
    fn clear_meta(&mut self, ek: (bool, u64)) -> (n: usize)
        requires
            old(self).wf(),
        ensures
            final(self).wf(),
            final(self)@ == (StoreModel { kv: without_owner(old(self)@.kv, ek), ..old(self)@ }),
            n == 0 <==> !(exists|k: Seq<char>| #[trigger] old(self)@.kv.contains_key((ek.0, ek.1, k))),
            final(self).dirs == old(self).dirs,
            final(self).files == old(self).files,
    {
        let total = self.meta.len();
        let mut n: usize = 0;
        let mut j: usize = 0;
        while j < self.meta.len()
            invariant
                self.wf(),
                total == old(self).meta@.len(),
                j <= self.meta@.len(),
                n <= old(self).meta@.len() - self.meta@.len(),
                self@.dirs == old(self)@.dirs,
                self@.files == old(self)@.files,
                self.dirs == old(self).dirs,
                self.files == old(self).files,
                self@.next_id == old(self)@.next_id,
                forall|k: (bool, u64, Seq<char>)|
                    #[trigger] self@.kv.contains_key(k) ==> old(self)@.kv.contains_key(k) && self@.kv[k]
                        == old(self)@.kv[k],
                forall|k: (bool, u64, Seq<char>)|
                    #[trigger] old(self)@.kv.contains_key(k) && (k.0, k.1) != ek ==> self@.kv.contains_key(k),
                forall|t: int| 0 <= t < j ==> ((#[trigger] self.meta@[t]).is_file, self.meta@[t].owner) != ek,
                n == 0 <==> forall|k: (bool, u64, Seq<char>)|
                    #[trigger] old(self)@.kv.contains_key(k) && (k.0, k.1) == ek ==> self@.kv.contains_key(k),
            decreases self.meta@.len() - j,
        {
            if self.meta[j].is_file == ek.0 && self.meta[j].owner == ek.1 {
                let ghost k = meta_key(self.meta@[j as int]);
                let ghost before = *self;
                let ghost old_m = self.model@;
                proof {
                    assert(self@.kv.contains_key(k));
                }
                let _ = self.meta.remove(j);
                self.model = Ghost(StoreModel { kv: old_m.kv.remove(k), ..old_m });
                proof {
                    self.lemma_meta_removed(&before, j as int, k);
                    assert forall|t: int| 0 <= t < j implies ((#[trigger] self.meta@[t]).is_file, self.meta@[t].owner) != ek by {
                        assert(self.meta@[t] == before.meta@[t]);
                    }
                    assert(!self@.kv.contains_key(k));
                }
                n = n + 1;
            } else {
                j = j + 1;
            }
        }
        proof {
            assert forall|k: (bool, u64, Seq<char>)| #[trigger] self@.kv.contains_key(k) implies (k.0, k.1) != ek by {
                let t = choose|t: int| 0 <= t < self.meta@.len() && #[trigger] meta_key(self.meta@[t]) == k;
                assert(((self.meta@[t]).is_file, self.meta@[t].owner) != ek);
            }
            assert(self@.kv =~= without_owner(old(self)@.kv, ek));
            if n == 0 {
                assert forall|k: Seq<char>| !(#[trigger] old(self)@.kv.contains_key((ek.0, ek.1, k))) by {
                    if old(self)@.kv.contains_key((ek.0, ek.1, k)) {
                        assert(self@.kv.contains_key((ek.0, ek.1, k)));
                    }
                }
            } else {
                let k = choose|k: (bool, u64, Seq<char>)| #[trigger] old(self)@.kv.contains_key(k) && (k.0, k.1) == ek && !self@.kv.contains_key(k);
                assert(old(self)@.kv.contains_key((ek.0, ek.1, k.2)));
            }
        }
        n
    }

    /// Deletes every metadata pair of the entry; returns how many there were.
    pub fn entry_metadata_clear(&mut self, e: &Entry) -> (n: usize)
        requires
            old(self).wf(),
        ensures
            final(self).wf(),
            final(self)@ == (StoreModel { kv: without_owner(old(self)@.kv, entry_key(*e)), ..old(self)@ }),
            n == 0 <==> !(exists|k: Seq<char>| #[trigger] old(self)@.kv.contains_key((entry_key(*e).0, entry_key(*e).1, k))),
    {
        let ek = crate::models::entry_id(e);
        self.clear_meta(ek)
    }
}

impl Store {
    fn find_dir_by_id(&self, id: u64) -> (r: Option<usize>)
        requires
            self.wf(),
        ensures
            match r {
                Some(i) => i < self.dirs@.len() && self.dirs@[i as int].id == id && owner_exists(self@, false, id),
                None => !owner_exists(self@, false, id),
            },
    {
        let mut i: usize = 0;
        while i < self.dirs.len()
            invariant
                self.wf(),
                i <= self.dirs@.len(),
                forall|k: int| 0 <= k < i ==> self.dirs@[k].id != id,
            decreases self.dirs@.len() - i,
        {
            if self.dirs[i].id == id {
                proof {
                    let p = self.dirs@[i as int].path@;
                    assert(self@.dirs.contains_key(p) && self@.dirs[p] == id);
                }
                return Some(i);
            }
            i = i + 1;
        }
        proof {
            assert forall|p: Seq<char>| #[trigger] self@.dirs.contains_key(p) implies self@.dirs[p] != id by {
                let k = choose|k: int| 0 <= k < self.dirs@.len() && #[trigger] self.dirs@[k].path@ == p;
            }
        }
        None
    }

    fn find_file_by_id(&self, id: u64) -> (r: Option<usize>)
        requires
            self.wf(),
        ensures
            match r {
                Some(i) => i < self.files@.len() && self.files@[i as int].file.id == id && owner_exists(self@, true, id),
                None => !owner_exists(self@, true, id),
            },
    {
        let mut i: usize = 0;
        while i < self.files.len()
            invariant
                self.wf(),
                i <= self.files@.len(),
                forall|k: int| 0 <= k < i ==> self.files@[k].file.id != id,
            decreases self.files@.len() - i,
        {
            if self.files[i].file.id == id {
                proof {
                    let p = self.files@[i as int].path@;
                    assert(self@.files.contains_key(p) && self@.files[p].0 == id);
                }
                return Some(i);
            }
            i = i + 1;
        }
        proof {
            assert forall|p: Seq<char>| #[trigger] self@.files.contains_key(p) implies self@.files[p].0 != id by {
                let k = choose|k: int| 0 <= k < self.files@.len() && #[trigger] self.files@[k].path@ == p;
            }
        }
        None
    }

    proof fn lemma_dir_removed(&self, old_s: &Store, i: int, p: Seq<char>)
        requires
            old_s.wf(),
            0 <= i < old_s.dirs@.len(),
            old_s.dirs@[i].path@ == p,
            p != root(),
            !has_children(old_s.model@, p),
            forall|k: (bool, u64, Seq<char>)| #[trigger] old_s.model@.kv.contains_key(k) ==> (k.0, k.1) != (false, old_s.dirs@[i].id),
            self.dirs@ == old_s.dirs@.remove(i),
            self.model@ == (StoreModel { dirs: old_s.model@.dirs.remove(p), ..old_s.model@ }),
            self.files == old_s.files,
            self.meta == old_s.meta,
            self.next_id == old_s.next_id,
        ensures
            self.wf(),
    {
        let m = self.model@;
        let om = old_s.model@;
        let id = old_s.dirs@[i].id;
        assert(om.dirs.contains_key(p) && om.dirs[p] == id);
        assert forall|q: Seq<char>| #[trigger] m.dirs.contains_key(q) && q != root() implies m.dirs.contains_key(parent_of(q)) by {
            assert(om.dirs.contains_key(parent_of(q)));
            if q.len() <= 1 {
                assert(q =~= root());
            }
            if parent_of(q) == p {
                lemma_below_parent(q);
                assert(is_under(q, p));
                assert(has_children(om, p));
            }
        }
        assert forall|q: Seq<char>| #[trigger] m.files.contains_key(q) implies is_normalized(q) && q != root()
            && m.dirs.contains_key(parent_of(q)) && m.dirs[parent_of(q)] == m.files[q].1
            && m.files[q].0 < m.next_id by {
            assert(om.files.contains_key(q));
            if q.len() <= 1 {
                assert(q =~= root());
            }
            if parent_of(q) == p {
                lemma_below_parent(q);
                assert(is_under(q, p));
                assert(has_children(om, p));
            }
        }
        assert forall|k: (bool, u64, Seq<char>)| #[trigger] m.kv.contains_key(k) implies owner_exists(m, k.0, k.1) by {
            assert(owner_exists(om, k.0, k.1));
            if !k.0 {
                let q = choose|q: Seq<char>| #[trigger] om.dirs.contains_key(q) && om.dirs[q] == k.1;
                assert(m.dirs.contains_key(q) && m.dirs[q] == k.1);
            } else {
                let q = choose|q: Seq<char>| #[trigger] om.files.contains_key(q) && om.files[q].0 == k.1;
                assert(m.files.contains_key(q) && m.files[q].0 == k.1);
            }
        }
        assert forall|q: Seq<char>| #[trigger] m.dirs.contains_key(q) implies exists|j: int|
            0 <= j < self.dirs@.len() && #[trigger] self.dirs@[j].path@ == q by {
            let j = choose|j: int| 0 <= j < old_s.dirs@.len() && #[trigger] old_s.dirs@[j].path@ == q;
            assert(j != i);
            if j < i {
                assert(self.dirs@[j].path@ == q);
            } else {
                assert(self.dirs@[j - 1].path@ == q);
            }
        }
        assert forall|j: int| 0 <= j < self.dirs@.len() implies m.dirs.contains_key(
            #[trigger] self.dirs@[j].path@,
        ) && m.dirs[self.dirs@[j].path@] == self.dirs@[j].id by {
            let oj = if j < i { j } else { j + 1 };
            assert(old_s.dirs@[oj] == self.dirs@[j]);
            assert(old_s.dirs@[oj].path@ != old_s.dirs@[i].path@);
        }
        assert forall|a: int, b: int|
            0 <= a < self.dirs@.len() && 0 <= b < self.dirs@.len() && a != b implies (
            #[trigger] self.dirs@[a]).path@ != (#[trigger] self.dirs@[b]).path@ by {
            let oa = if a < i { a } else { a + 1 };
            let ob = if b < i { b } else { b + 1 };
            assert(old_s.dirs@[oa] == self.dirs@[a]);
            assert(old_s.dirs@[ob] == self.dirs@[b]);
        }
        assert(model_ok(m));
        assert(self.dirs_ok());
        assert(self.files_ok());
        assert(self.meta_ok());
    }

    proof fn lemma_file_removed(&self, old_s: &Store, i: int, p: Seq<char>)
        requires
            old_s.wf(),
            0 <= i < old_s.files@.len(),
            old_s.files@[i].path@ == p,
            forall|k: (bool, u64, Seq<char>)| #[trigger] old_s.model@.kv.contains_key(k) ==> (k.0, k.1) != (true, old_s.files@[i].file.id),
            self.files@ == old_s.files@.remove(i),
            self.model@ == (StoreModel { files: old_s.model@.files.remove(p), ..old_s.model@ }),
            self.dirs == old_s.dirs,
            self.meta == old_s.meta,
            self.next_id == old_s.next_id,
        ensures
            self.wf(),
    {
        let m = self.model@;
        let om = old_s.model@;
        let id = old_s.files@[i].file.id;
        assert(om.files.contains_key(p) && om.files[p].0 == id);
        assert forall|k: (bool, u64, Seq<char>)| #[trigger] m.kv.contains_key(k) implies owner_exists(m, k.0, k.1) by {
            assert(owner_exists(om, k.0, k.1));
            if !k.0 {
                let q = choose|q: Seq<char>| #[trigger] om.dirs.contains_key(q) && om.dirs[q] == k.1;
                assert(m.dirs.contains_key(q) && m.dirs[q] == k.1);
            } else {
                let q = choose|q: Seq<char>| #[trigger] om.files.contains_key(q) && om.files[q].0 == k.1;
                assert(m.files.contains_key(q) && m.files[q].0 == k.1);
            }
        }
        assert forall|q: Seq<char>| #[trigger] m.files.contains_key(q) implies exists|j: int|
            0 <= j < self.files@.len() && #[trigger] self.files@[j].path@ == q by {
            let j = choose|j: int| 0 <= j < old_s.files@.len() && #[trigger] old_s.files@[j].path@ == q;
            assert(j != i);
            if j < i {
                assert(self.files@[j].path@ == q);
            } else {
                assert(self.files@[j - 1].path@ == q);
            }
        }
        assert forall|j: int| 0 <= j < self.files@.len() implies m.files.contains_key(
            #[trigger] self.files@[j].path@,
        ) && m.files[self.files@[j].path@] == (
            self.files@[j].file.id,
            self.files@[j].file.directory_id,
            self.files@[j].file.hash@,
        ) && self.files@[j].file.filename@ == filename_of(self.files@[j].path@) by {
            let oj = if j < i { j } else { j + 1 };
            assert(old_s.files@[oj] == self.files@[j]);
            assert(old_s.files@[oj].path@ != old_s.files@[i].path@);
        }
        assert forall|a: int, b: int|
            0 <= a < self.files@.len() && 0 <= b < self.files@.len() && a != b implies (
            #[trigger] self.files@[a]).path@ != (#[trigger] self.files@[b]).path@ by {
            let oa = if a < i { a } else { a + 1 };
            let ob = if b < i { b } else { b + 1 };
            assert(old_s.files@[oa] == self.files@[a]);
            assert(old_s.files@[ob] == self.files@[b]);
        }
        assert(model_ok(m));
        assert(self.dirs_ok());
        assert(self.files_ok());
        assert(self.meta_ok());
    }

    /// Deletes the entry and its metadata pairs. Removing the root, or an entry that is
    /// not in the store, does nothing and returns `false`; a directory with anything
    /// below it is not removed.
    pub fn remove_entry(&mut self, e: &Entry) -> (r: Result<bool, StoreError>)
        requires
            old(self).wf(),
        ensures
            final(self).wf(),
            ({
                let ek = entry_key(*e);
                let om = old(self)@;
                match r {
                    Ok(false) => final(self)@ == om && (!owner_exists(om, ek.0, ek.1) || ek == (false, 0u64)),
                    Ok(true) => ek != (false, 0u64) && if ek.0 {
                        exists|p: Seq<char>| #[trigger] om.files.contains_key(p) && om.files[p].0 == ek.1
                            && final(self)@ == (StoreModel { files: om.files.remove(p), kv: without_owner(om.kv, ek), ..om })
                    } else {
                        exists|p: Seq<char>| #[trigger] om.dirs.contains_key(p) && om.dirs[p] == ek.1
                            && !has_children(om, p)
                            && final(self)@ == (StoreModel { dirs: om.dirs.remove(p), kv: without_owner(om.kv, ek), ..om })
                    },
                    Err(err) => err == StoreError::NotEmpty && final(self)@ == om && !ek.0 && exists|p: Seq<char>|
                        #[trigger] om.dirs.contains_key(p) && om.dirs[p] == ek.1 && has_children(om, p),
                }
            }),
    {
        let ek = crate::models::entry_id(e);
        if !ek.0 && ek.1 == 0 {
            return Ok(false);
        }
        if ek.0 {
            let i = match self.find_file_by_id(ek.1) {
                Some(i) => i,
                None => {
                    return Ok(false);
                },
            };
            let ghost p = self.files@[i as int].path@;
            let ghost mid_files = self@.files;
            proof {
                assert(self@.files.contains_key(p) && self@.files[p].0 == ek.1);
            }
            let _ = self.clear_meta(ek);
            let ghost before = *self;
            let ghost bm = self.model@;
            proof {
                assert(before.files@[i as int].path@ == p);
                assert forall|k: (bool, u64, Seq<char>)| #[trigger] bm.kv.contains_key(k) implies (k.0, k.1) != (true, before.files@[i as int].file.id) by {}
            }
            let _ = self.files.remove(i);
            self.model = Ghost(StoreModel { files: bm.files.remove(p), ..bm });
            proof {
                self.lemma_file_removed(&before, i as int, p);
                assert(self@ == (StoreModel { files: old(self)@.files.remove(p), kv: without_owner(old(self)@.kv, ek), ..old(self)@ }));
            }
            Ok(true)
        } else {
            let i = match self.find_dir_by_id(ek.1) {
                Some(i) => i,
                None => {
                    return Ok(false);
                },
            };
            let ghost p = self.dirs@[i as int].path@;
            proof {
                assert(self@.dirs.contains_key(p) && self@.dirs[p] == ek.1);
                if p == root() {
                    assert(self@.dirs[root()] == 0);
                }
            }
            let inside = self.entries_where(&Selection::Below(self.dirs[i].path.as_str()));
            if inside.len() > 0 {
                proof {
                    let q = choose|q: Seq<char>| (is_dir_entry(self@, inside@[0], q) || is_file_entry(self@, inside@[0], q)) && #[trigger] (below(p))(q, entry_key(inside@[0]));
                    assert(is_under(q, p));
                }
                return Err(StoreError::NotEmpty);
            }
            proof {
                if has_children(self@, p) {
                    if exists|q: Seq<char>| #[trigger] self@.dirs.contains_key(q) && is_under(q, p) {
                        let q = choose|q: Seq<char>| #[trigger] self@.dirs.contains_key(q) && is_under(q, p);
                        assert((below(p))(q, (false, self@.dirs[q])));
                    } else {
                        let q = choose|q: Seq<char>| #[trigger] self@.files.contains_key(q) && is_under(q, p);
                        assert((below(p))(q, (true, self@.files[q].0)));
                    }
                }
            }
            let _ = self.clear_meta(ek);
            let ghost before = *self;
            let ghost bm = self.model@;
            let _ = self.dirs.remove(i);
            self.model = Ghost(StoreModel { dirs: bm.dirs.remove(p), ..bm });
            proof {
                self.lemma_dir_removed(&before, i as int, p);
                assert(self@ == (StoreModel { dirs: old(self)@.dirs.remove(p), kv: without_owner(old(self)@.kv, ek), ..old(self)@ }));
            }
            Ok(true)
        }
    }
}

/// Adding a directory twice: once the first addition succeeded, the directory and all its
/// ancestors exist, and the second addition succeeds with the same directory, reports
/// it as not created, and changes nothing.
pub proof fn lemma_add_directory_twice(
    m0: StoreModel,
    m1: StoreModel,
    m2: StoreModel,
    p: Seq<char>,
    r1: Result<(Directory, bool), StoreError>,
    r2: Result<(Directory, bool), StoreError>,
)
    requires
        model_ok(m0),
        add_directory_outcome(m0, m1, p, r1),
        add_directory_outcome(m1, m2, p, r2),
        r1 is Ok,
    ensures
        forall|a: Seq<char>| #[trigger] chain(p).contains(a) ==> m1.dirs.contains_key(a),
        r2 is Ok,
        r2->Ok_0.1 == false,
        r2->Ok_0.0.id == r1->Ok_0.0.id,
        m2 == m1,
{
    lemma_chain_in_dirs(m1, p);
    assert(!conflicts(m1, p)) by {
        if conflicts(m1, p) {
            let a = choose|a: Seq<char>| #[trigger] chain(p).contains(a) && m1.files.contains_key(a);
            assert(m1.dirs.contains_key(a));
        }
    }
}

/// Setting a key twice leaves the second value, and the second call returns the first
/// value; deleting the key then removes it entirely.
pub proof fn lemma_metadata_upsert(
    m0: StoreModel,
    m1: StoreModel,
    m2: StoreModel,
    m3: StoreModel,
    ek: (bool, u64),
    key: Seq<char>,
    v1: Seq<char>,
    v2: Seq<char>,
    r1: Result<Option<String>, StoreError>,
    r2: Result<Option<String>, StoreError>,
    r3: Result<Option<String>, StoreError>,
)
    requires
        owner_exists(m0, ek.0, ek.1),
        metadata_set_outcome(m0, m1, ek, key, Some(v1), r1),
        metadata_set_outcome(m1, m2, ek, key, Some(v2), r2),
        metadata_set_outcome(m2, m3, ek, key, None, r3),
    ensures
        r1 is Ok && r2 is Ok && r3 is Ok,
        opt_view(r2->Ok_0) == Some(v1),
        value_of(m2, ek, key) == Some(v2),
        opt_view(r3->Ok_0) == Some(v2),
        value_of(m3, ek, key) is None,
{
    assert(owner_exists(m1, ek.0, ek.1)) by {
        lemma_owner_frame(m0, m1, ek.0, ek.1);
    }
    assert(owner_exists(m2, ek.0, ek.1)) by {
        lemma_owner_frame(m1, m2, ek.0, ek.1);
    }
}

/// The metadata pairs once `key` is set (or deleted) on each entry of `es`, in order.
pub open spec fn set_all(
    kv: Map<(bool, u64, Seq<char>), Seq<char>>,
    es: Seq<Entry>,
    key: Seq<char>,
    value: Option<Seq<char>>,
) -> Map<(bool, u64, Seq<char>), Seq<char>>
    decreases es.len(),
{
    if es.len() == 0 {
        kv
    } else {
        let before = set_all(kv, es.drop_last(), key, value);
        let ek = entry_key(es.last());
        match value {
            Some(v) => before.insert((ek.0, ek.1, key), v),
            None => before.remove((ek.0, ek.1, key)),
        }
    }
}

impl Store {
    /// The directory that holds the file, if the file is in the store.
    pub fn file_directory(&self, f: &File) -> (r: Option<Directory>)
        requires
            self.wf(),
        ensures
            match r {
                Some(d) => exists|p: Seq<char>|
                    #[trigger] self@.files.contains_key(p) && self@.files[p].0 == f.id
                        && self@.dirs.contains_key(parent_of(p)) && d.path@ == parent_of(p)
                        && d.id == self@.dirs[parent_of(p)],
                None => !owner_exists(self@, true, f.id),
            },
    {
        let i = match self.find_file_by_id(f.id) {
            Some(i) => i,
            None => {
                return None;
            },
        };
        let dir_id = self.files[i].file.directory_id;
        let ghost p = self.files@[i as int].path@;
        proof {
            assert(self@.files.contains_key(p));
        }
        match self.find_dir_by_id(dir_id) {
            Some(j) => {
                proof {
                    let q = self.dirs@[j as int].path@;
                    assert(self@.dirs.contains_key(q) && self@.dirs[q] == dir_id);
                    assert(self@.dirs.contains_key(parent_of(p)) && self@.dirs[parent_of(p)] == dir_id);
                }
                Some(self.dirs[j].clone())
            },
            None => {
                proof {
                    assert(self@.dirs.contains_key(parent_of(p)) && self@.dirs[parent_of(p)] == dir_id);
                }
                None
            },
        }
    }

    /// Adds each directory of `paths` as `add_directory` does, in order, and stops at the
    /// first failure; the additions before it stay. Returns how many directory rows were
    /// created, ancestors included: each new row took the next id.
    pub fn add_directories(&mut self, paths: &[&str]) -> (r: Result<usize, StoreError>)
        requires
            old(self).wf(),
        ensures
            final(self).wf(),
            final(self)@.files == old(self)@.files,
            final(self)@.kv == old(self)@.kv,
            final(self)@.next_id >= old(self)@.next_id,
            forall|q: Seq<char>|
                #[trigger] old(self)@.dirs.contains_key(q) ==> final(self)@.dirs.contains_key(q)
                    && final(self)@.dirs[q] == old(self)@.dirs[q],
            forall|q: Seq<char>|
                #[trigger] final(self)@.dirs.contains_key(q) && !old(self)@.dirs.contains_key(q)
                    ==> old(self)@.next_id <= final(self)@.dirs[q] < final(self)@.next_id,
            match r {
                Ok(n) => {
                    &&& n == (final(self)@.next_id - old(self)@.next_id) as usize
                    &&& forall|i: int|
                        0 <= i < paths@.len() ==> final(self)@.dirs.contains_key(
                            normalize(#[trigger] paths@[i]@),
                        )
                },
                Err(e) => exists|i: int|
                    0 <= i < paths@.len() && add_directory_outcome(
                        final(self)@,
                        final(self)@,
                        normalize(#[trigger] paths@[i]@),
                        Err(e),
                    ),
            },
    {
        let start = self.next_id;
        let mut i: usize = 0;
        while i < paths.len()
            invariant
                self.wf(),
                start == old(self)@.next_id,
                i <= paths@.len(),
                self@.files == old(self)@.files,
                self@.kv == old(self)@.kv,
                self@.next_id >= old(self)@.next_id,
                forall|q: Seq<char>|
                    #[trigger] old(self)@.dirs.contains_key(q) ==> self@.dirs.contains_key(q)
                        && self@.dirs[q] == old(self)@.dirs[q],
                forall|q: Seq<char>|
                    #[trigger] self@.dirs.contains_key(q) && !old(self)@.dirs.contains_key(q)
                        ==> old(self)@.next_id <= self@.dirs[q] < self@.next_id,
                forall|t: int| 0 <= t < i ==> self@.dirs.contains_key(normalize(#[trigger] paths@[t]@)),
            decreases paths@.len() - i,
        {
            let ghost before = self@;
            match self.add_directory(paths[i]) {
                Ok(_) => {
                    proof {
                        assert forall|t: int| 0 <= t < i + 1 implies self@.dirs.contains_key(normalize(#[trigger] paths@[t]@)) by {
                            if t < i {
                                assert(before.dirs.contains_key(normalize(paths@[t]@)));
                            }
                        }
                        assert forall|q: Seq<char>|
                            #[trigger] self@.dirs.contains_key(q) && !old(self)@.dirs.contains_key(q)
                                implies old(self)@.next_id <= self@.dirs[q] < self@.next_id by {
                            if before.dirs.contains_key(q) {
                                assert(self@.dirs[q] == before.dirs[q]);
                            }
                        }
                    }
                },
                Err(e) => {
                    proof {
                        assert(add_directory_outcome(self@, self@, normalize(paths@[i as int]@), Err(e)));
                    }
                    return Err(e);
                },
            }
            i = i + 1;
        }
        Ok((self.next_id - start) as usize)
    }

    /// Adds each file of `items` as `add_file` does, in order, and stops at the first
    /// failure; the additions before it stay. Returns how many rows (files and
    /// directories) were created: each new row took the next id.
    pub fn add_files(&mut self, items: &[(&str, &[u8])]) -> (r: Result<usize, StoreError>)
        requires
            old(self).wf(),
        ensures
            final(self).wf(),
            final(self)@.kv == old(self)@.kv,
            final(self)@.next_id >= old(self)@.next_id,
            forall|q: Seq<char>|
                #[trigger] old(self)@.dirs.contains_key(q) ==> final(self)@.dirs.contains_key(q)
                    && final(self)@.dirs[q] == old(self)@.dirs[q],
            forall|q: Seq<char>|
                #[trigger] old(self)@.files.contains_key(q) ==> final(self)@.files.contains_key(q)
                    && final(self)@.files[q] == old(self)@.files[q],
            forall|q: Seq<char>|
                #[trigger] final(self)@.files.contains_key(q) && !old(self)@.files.contains_key(q)
                    ==> old(self)@.next_id <= final(self)@.files[q].0 < final(self)@.next_id,
            match r {
                Ok(n) => {
                    &&& n == (final(self)@.next_id - old(self)@.next_id) as usize
                    &&& forall|i: int|
                        0 <= i < items@.len() ==> final(self)@.files.contains_key(
                            normalize((#[trigger] items@[i]).0@),
                        )
                },
                Err(e) => exists|i: int|
                    0 <= i < items@.len() && add_file_outcome(
                        final(self)@,
                        final(self)@,
                        normalize((#[trigger] items@[i]).0@),
                        items@[i].1@,
                        Err(e),
                    ),
            },
    {
        let start = self.next_id;
        let mut i: usize = 0;
        while i < items.len()
            invariant
                self.wf(),
                start == old(self)@.next_id,
                i <= items@.len(),
                self@.kv == old(self)@.kv,
                self@.next_id >= old(self)@.next_id,
                forall|q: Seq<char>|
                    #[trigger] old(self)@.dirs.contains_key(q) ==> self@.dirs.contains_key(q)
                        && self@.dirs[q] == old(self)@.dirs[q],
                forall|q: Seq<char>|
                    #[trigger] old(self)@.files.contains_key(q) ==> self@.files.contains_key(q)
                        && self@.files[q] == old(self)@.files[q],
                forall|q: Seq<char>|
                    #[trigger] self@.files.contains_key(q) && !old(self)@.files.contains_key(q)
                        ==> old(self)@.next_id <= self@.files[q].0 < self@.next_id,
                forall|t: int| 0 <= t < i ==> self@.files.contains_key(normalize((#[trigger] items@[t]).0@)),
            decreases items@.len() - i,
        {
            let ghost before = self@;
            let (path, hash) = items[i];
            match self.add_file(path, hash) {
                Ok((f, created)) => {
                    proof {
                        assert forall|t: int| 0 <= t < i + 1 implies self@.files.contains_key(normalize((#[trigger] items@[t]).0@)) by {
                            if t < i {
                                assert(before.files.contains_key(normalize(items@[t].0@)));
                            }
                        }
                        assert forall|q: Seq<char>|
                            #[trigger] self@.files.contains_key(q) && !old(self)@.files.contains_key(q)
                                implies old(self)@.next_id <= self@.files[q].0 < self@.next_id by {
                            if before.files.contains_key(q) {
                                assert(self@.files[q] == before.files[q]);
                            }
                        }
                        assert forall|q: Seq<char>|
                            #[trigger] old(self)@.dirs.contains_key(q) implies self@.dirs.contains_key(q)
                                && self@.dirs[q] == old(self)@.dirs[q] by {
                            assert(before.dirs.contains_key(q));
                        }
                        assert forall|q: Seq<char>|
                            #[trigger] old(self)@.files.contains_key(q) implies self@.files.contains_key(q)
                                && self@.files[q] == old(self)@.files[q] by {
                            assert(before.files.contains_key(q));
                        }
                    }
                },
                Err(e) => {
                    proof {
                        assert(add_file_outcome(self@, self@, normalize(items@[i as int].0@), items@[i as int].1@, Err(e)));
                    }
                    return Err(e);
                },
            }
            i = i + 1;
        }
        Ok((self.next_id - start) as usize)
    }

    /// Sets (`Some`) or deletes (`None`) `key` on every entry, in order, and returns the
    /// values they had; all or nothing: when an entry is not in the store nothing changes.
    pub fn entries_metadata_set(&mut self, entries: &[Entry], key: &str, value: Option<&str>) -> (r:
        Result<Vec<Option<String>>, StoreError>)
        requires
            old(self).wf(),
        ensures
            final(self).wf(),
            match r {
                Ok(prev) => {
                    &&& forall|i: int|
                        0 <= i < entries@.len() ==> owner_exists(
                            old(self)@,
                            entry_key(#[trigger] entries@[i]).0,
                            entry_key(entries@[i]).1,
                        )
                    &&& prev@.len() == entries@.len()
                    &&& final(self)@ == (StoreModel {
                        kv: set_all(old(self)@.kv, entries@, key@, opt_str_view(value)),
                        ..old(self)@
                    })
                },
                Err(e) => {
                    &&& e == StoreError::MissingEntry
                    &&& final(self)@ == old(self)@
                    &&& exists|i: int|
                        0 <= i < entries@.len() && !owner_exists(
                            old(self)@,
                            entry_key(#[trigger] entries@[i]).0,
                            entry_key(entries@[i]).1,
                        )
                },
            },
    {
        let mut i: usize = 0;
        while i < entries.len()
            invariant
                self.wf(),
                self@ == old(self)@,
                i <= entries@.len(),
                forall|t: int|
                    0 <= t < i ==> owner_exists(
                        self@,
                        entry_key(#[trigger] entries@[t]).0,
                        entry_key(entries@[t]).1,
                    ),
            decreases entries@.len() - i,
        {
            if !self.contains(&entries[i]) {
                return Err(StoreError::MissingEntry);
            }
            i = i + 1;
        }
        let mut prev: Vec<Option<String>> = Vec::new();
        let mut i: usize = 0;
        while i < entries.len()
            invariant
                self.wf(),
                i <= entries@.len(),
                prev@.len() == i,
                self@ == (StoreModel {
                    kv: set_all(old(self)@.kv, entries@.take(i as int), key@, opt_str_view(value)),
                    ..old(self)@
                }),
                forall|t: int|
                    0 <= t < entries@.len() ==> owner_exists(
                        old(self)@,
                        entry_key(#[trigger] entries@[t]).0,
                        entry_key(entries@[t]).1,
                    ),
            decreases entries@.len() - i,
        {
            let ghost before = self@;
            proof {
                lemma_owner_frame(old(self)@, self@, entry_key(entries@[i as int]).0, entry_key(entries@[i as int]).1);
            }
            match self.entry_metadata_set(&entries[i], key, value) {
                Ok(p) => {
                    prev.push(p);
                },
                Err(_) => {
                    proof {
                        assert(false);
                    }
                    return Err(StoreError::MissingEntry);
                },
            }
            proof {
                assert(entries@.take(i + 1).drop_last() =~= entries@.take(i as int));
                assert(entries@.take(i + 1).last() == entries@[i as int]);
            }
            i = i + 1;
        }
        proof {
            assert(entries@.take(entries@.len() as int) =~= entries@);
        }
        Ok(prev)
    }

    /// The value of `key` on each entry that has one, with the entry.
    pub fn entries_metadata_get(&self, entries: &[Entry], key: &str) -> (r: Vec<(Entry, String)>)
        requires
            self.wf(),
        ensures
            forall|j: int|
                0 <= j < r@.len() ==> value_of(self@, entry_key((#[trigger] r@[j]).0), key@) == Some(r@[j].1@)
                    && exists|i: int| 0 <= i < entries@.len() && entry_key(#[trigger] entries@[i]) == entry_key(r@[j].0),
            forall|i: int|
                0 <= i < entries@.len() && value_of(self@, entry_key(#[trigger] entries@[i]), key@) is Some
                    ==> exists|j: int| 0 <= j < r@.len() && entry_key((#[trigger] r@[j]).0) == entry_key(entries@[i]),
    {
        let mut r: Vec<(Entry, String)> = Vec::new();
        let mut i: usize = 0;
        while i < entries.len()
            invariant
                self.wf(),
                i <= entries@.len(),
                forall|j: int|
                    0 <= j < r@.len() ==> value_of(self@, entry_key((#[trigger] r@[j]).0), key@) == Some(r@[j].1@)
                        && exists|t: int| 0 <= t < i && entry_key(#[trigger] entries@[t]) == entry_key(r@[j].0),
                forall|t: int|
                    0 <= t < i && value_of(self@, entry_key(#[trigger] entries@[t]), key@) is Some
                        ==> exists|j: int| 0 <= j < r@.len() && entry_key((#[trigger] r@[j]).0) == entry_key(entries@[t]),
            decreases entries@.len() - i,
        {
            let ghost before = r@;
            match self.entry_metadata_get(&entries[i], key) {
                Some(v) => {
                    let e = entries[i].clone();
                    r.push((e, v));
                    proof {
                        assert forall|j: int|
                            0 <= j < r@.len() implies value_of(self@, entry_key((#[trigger] r@[j]).0), key@) == Some(r@[j].1@)
                                && exists|t: int| 0 <= t < i + 1 && entry_key(#[trigger] entries@[t]) == entry_key(r@[j].0) by {
                            if j < before.len() {
                                assert(before[j] == r@[j]);
                                let t = choose|t: int| 0 <= t < i && entry_key(#[trigger] entries@[t]) == entry_key(before[j].0);
                            } else {
                                assert(entry_key(entries@[i as int]) == entry_key(r@[j].0));
                            }
                        }
                        assert forall|t: int|
                            0 <= t < i + 1 && value_of(self@, entry_key(#[trigger] entries@[t]), key@) is Some
                                implies exists|j: int| 0 <= j < r@.len() && entry_key((#[trigger] r@[j]).0) == entry_key(entries@[t]) by {
                            if t < i {
                                let j = choose|j: int| 0 <= j < before.len() && entry_key((#[trigger] before[j]).0) == entry_key(entries@[t]);
                                assert(before[j] == r@[j]);
                            } else {
                                assert(entry_key(r@[before.len() as int].0) == entry_key(entries@[t]));
                            }
                        }
                    }
                },
                None => {},
            }
            i = i + 1;
        }
        r
    }
}

/// The metadata pairs once every pair of each entry of `es` is deleted.
pub open spec fn clear_all(kv: Map<(bool, u64, Seq<char>), Seq<char>>, es: Seq<Entry>) -> Map<
    (bool, u64, Seq<char>),
    Seq<char>,
>
    decreases es.len(),
{
    if es.len() == 0 {
        kv
    } else {
        without_owner(clear_all(kv, es.drop_last()), entry_key(es.last()))
    }
}

pub proof fn lemma_clear_all(kv: Map<(bool, u64, Seq<char>), Seq<char>>, es: Seq<Entry>, k: (bool, u64, Seq<char>))
    ensures
        clear_all(kv, es).contains_key(k) <==> (kv.contains_key(k) && forall|t: int|
            0 <= t < es.len() ==> entry_key(#[trigger] es[t]) != (k.0, k.1)),
    decreases es.len(),
{
    if es.len() > 0 {
        lemma_clear_all(kv, es.drop_last(), k);
        assert forall|t: int| 0 <= t < es.len() - 1 implies es.drop_last()[t] == es[t] by {}
        if clear_all(kv, es).contains_key(k) {
            assert forall|t: int| 0 <= t < es.len() implies entry_key(#[trigger] es[t]) != (k.0, k.1) by {
                if t < es.len() - 1 {
                    assert(es.drop_last()[t] == es[t]);
                }
            }
        }
        if kv.contains_key(k) && forall|t: int| 0 <= t < es.len() ==> entry_key(#[trigger] es[t]) != (k.0, k.1) {
            assert(entry_key(es[es.len() - 1]) != (k.0, k.1));
            assert forall|t: int| 0 <= t < es.drop_last().len() implies entry_key(#[trigger] es.drop_last()[t]) != (k.0, k.1) by {
                assert(es.drop_last()[t] == es[t]);
            }
        }
    }
}

/// The path of the entry `name` in the directory `dir`, as a string.
fn joined(dir: &str, name: &str) -> (r: String)
    ensures
        r@ == join(dir@, name@),
{
    let d = crate::text::chars_of(dir);
    let n = crate::text::chars_of(name);
    let mut out = crate::text::string_of_range(&d, 0, d.len());
    proof {
        assert(d@.subrange(0, d@.len() as int) =~= dir@);
    }
    let root = d.len() == 1 && d[0] == '/';
    proof {
        if dir@ == seq!['/'] {
            assert(d@.len() == 1 && d@[0] == '/');
        }
        if root {
            assert(dir@ =~= seq!['/']);
        }
    }
    if !root {
        crate::text::push_char(&mut out, '/');
    }
    let ghost lead = out@;
    let mut i: usize = 0;
    while i < n.len()
        invariant
            i <= n@.len(),
            out@ == lead + n@.take(i as int),
        decreases n@.len() - i,
    {
        crate::text::push_char(&mut out, n[i]);
        assert(n@.take(i + 1) =~= n@.take(i as int).push(n@[i as int]));
        i = i + 1;
    }
    proof {
        assert(n@.take(n@.len() as int) =~= name@);
        if root {
            assert(out@ =~= seq!['/'] + name@);
        } else {
            assert(out@ =~= dir@ + seq!['/'] + name@);
        }
    }
    out
}

impl Store {
    /// The entry called `filename` in the directory `d`: the entry at the normalised
    /// path of `d` joined with `filename`.
    pub fn directory_entry(&self, d: &Directory, filename: &str) -> (r: Option<Entry>)
        requires
            self.wf(),
        ensures
            ({
                let p = normalize(join(d.path@, filename@));
                &&& self@.dirs.contains_key(p) ==> r is Some && is_dir_entry(self@, r->0, p)
                &&& self@.files.contains_key(p) ==> r is Some && is_file_entry(self@, r->0, p)
                &&& !self@.dirs.contains_key(p) && !self@.files.contains_key(p) ==> r is None
            }),
    {
        let path = joined(d.path.as_str(), filename);
        self.get_entry(path.as_str())
    }

    /// Deletes every metadata pair of each entry; returns how many pairs there were.
    pub fn entries_metadata_clear(&mut self, entries: &[Entry]) -> (n: usize)
        requires
            old(self).wf(),
        ensures
            final(self).wf(),
            final(self)@ == (StoreModel { kv: clear_all(old(self)@.kv, entries@), ..old(self)@ }),
            n == 0 <==> forall|i: int, k: Seq<char>|
                0 <= i < entries@.len() ==> !#[trigger] old(self)@.kv.contains_key(
                    (entry_key(entries@[i]).0, entry_key(entries@[i]).1, k),
                ),
    {
        let mut n: usize = 0;
        let mut i: usize = 0;
        while i < entries.len()
            invariant
                self.wf(),
                i <= entries@.len(),
                self@ == (StoreModel { kv: clear_all(old(self)@.kv, entries@.take(i as int)), ..old(self)@ }),
                n == 0 <==> forall|t: int, k: Seq<char>|
                    0 <= t < i ==> !#[trigger] old(self)@.kv.contains_key(
                        (entry_key(entries@[t]).0, entry_key(entries@[t]).1, k),
                    ),
            decreases entries@.len() - i,
        {
            let ghost before = self@;
            let c = self.entry_metadata_clear(&entries[i]);
            proof {
                let ek = entry_key(entries@[i as int]);
                let pre = entries@.take(i as int);
                if n == 0 {
                    assert forall|k: Seq<char>| before.kv.contains_key((ek.0, ek.1, k)) <==> old(self)@.kv.contains_key((ek.0, ek.1, k)) by {
                        lemma_clear_all(old(self)@.kv, pre, (ek.0, ek.1, k));
                        if old(self)@.kv.contains_key((ek.0, ek.1, k)) {
                            assert forall|t: int| 0 <= t < pre.len() implies entry_key(#[trigger] pre[t]) != (ek.0, ek.1) by {
                                if entry_key(pre[t]) == (ek.0, ek.1) {
                                    assert(pre[t] == entries@[t]);
                                    assert(!old(self)@.kv.contains_key((entry_key(entries@[t]).0, entry_key(entries@[t]).1, k)));
                                }
                            }
                        }
                    }
                }
            }
            let ghost old_n = n;
            n = n.saturating_add(c);
            proof {
                let ek = entry_key(entries@[i as int]);
                assert(n == 0 <==> old_n == 0 && c == 0);
                if old_n == 0 {
                    assert((c == 0) <==> forall|k: Seq<char>| !#[trigger] old(self)@.kv.contains_key((ek.0, ek.1, k))) by {
                        if c != 0 {
                            let k = choose|k: Seq<char>| #[trigger] before.kv.contains_key((ek.0, ek.1, k));
                            assert(old(self)@.kv.contains_key((ek.0, ek.1, k)));
                        } else {
                            assert forall|k: Seq<char>| !#[trigger] old(self)@.kv.contains_key((ek.0, ek.1, k)) by {
                                if old(self)@.kv.contains_key((ek.0, ek.1, k)) {
                                    assert(before.kv.contains_key((ek.0, ek.1, k)));
                                }
                            }
                        }
                    }
                }
                if n == 0 {
                    assert forall|t: int, k: Seq<char>| 0 <= t < i + 1 implies !#[trigger] old(self)@.kv.contains_key(
                        (entry_key(entries@[t]).0, entry_key(entries@[t]).1, k),
                    ) by {
                        if t == i {
                            assert(!old(self)@.kv.contains_key((ek.0, ek.1, k)));
                        }
                    }
                } else if old_n != 0 {
                    let (t, k) = choose|t: int, k: Seq<char>| 0 <= t < i && #[trigger] old(self)@.kv.contains_key(
                        (entry_key(entries@[t]).0, entry_key(entries@[t]).1, k),
                    );
                } else {
                    let k = choose|k: Seq<char>| #[trigger] old(self)@.kv.contains_key((ek.0, ek.1, k));
                    assert(old(self)@.kv.contains_key((entry_key(entries@[i as int]).0, entry_key(entries@[i as int]).1, k)));
                }
                assert(entries@.take(i + 1).drop_last() =~= entries@.take(i as int));
                assert(entries@.take(i + 1).last() == entries@[i as int]);
            }
            i = i + 1;
        }
        proof {
            assert(entries@.take(entries@.len() as int) =~= entries@);
        }
        n
    }
}

impl Store {
    /// The entries strictly below the directory `d` that have `key`.
    pub fn directory_entries_with_key(&self, d: &Directory, key: &str) -> (r: Vec<Entry>)
        requires
            self.wf(),
        ensures
            lists_exactly(self@, r@, below_tagged(self@, d.path@, key@, None)),
    {
        self.entries_where(&Selection::BelowTagged(d.path.as_str(), key, None))
    }

    /// The entries strictly below the directory `d` whose `key` has the value `value`.
    pub fn directory_entries_with_key_and_value(&self, d: &Directory, key: &str, value: &str) -> (r:
        Vec<Entry>)
        requires
            self.wf(),
        ensures
            lists_exactly(self@, r@, below_tagged(self@, d.path@, key@, Some(value@))),
    {
        self.entries_where(&Selection::BelowTagged(d.path.as_str(), key, Some(value)))
    }

    /// The key/value pairs of each entry, in the order of the entries.
    pub fn entries_metadata(&self, entries: &[Entry]) -> (r: Vec<(Entry, Vec<(String, String)>)>)
        requires
            self.wf(),
        ensures
            r@.len() == entries@.len(),
            forall|i: int| 0 <= i < r@.len() ==> entry_key((#[trigger] r@[i]).0) == entry_key(entries@[i]),
            forall|i: int, j: int|
                0 <= i < r@.len() && 0 <= j < r@[i].1@.len() ==> value_of(
                    self@,
                    entry_key(entries@[i]),
                    (#[trigger] r@[i].1@[j]).0@,
                ) == Some(r@[i].1@[j].1@),
            forall|i: int, k: Seq<char>|
                0 <= i < r@.len() && #[trigger] value_of(self@, entry_key(entries@[i]), k) is Some
                    ==> exists|j: int| 0 <= j < r@[i].1@.len() && (#[trigger] r@[i].1@[j]).0@ == k,
    {
        let mut r: Vec<(Entry, Vec<(String, String)>)> = Vec::new();
        let mut i: usize = 0;
        while i < entries.len()
            invariant
                self.wf(),
                i <= entries@.len(),
                r@.len() == i,
                forall|t: int| 0 <= t < i ==> entry_key((#[trigger] r@[t]).0) == entry_key(entries@[t]),
                forall|t: int, j: int|
                    0 <= t < i && 0 <= j < r@[t].1@.len() ==> value_of(
                        self@,
                        entry_key(entries@[t]),
                        (#[trigger] r@[t].1@[j]).0@,
                    ) == Some(r@[t].1@[j].1@),
                forall|t: int, k: Seq<char>|
                    0 <= t < i && #[trigger] value_of(self@, entry_key(entries@[t]), k) is Some
                        ==> exists|j: int| 0 <= j < r@[t].1@.len() && (#[trigger] r@[t].1@[j]).0@ == k,
            decreases entries@.len() - i,
        {
            let pairs = self.entry_metadata(&entries[i]);
            let e = entries[i].clone();
            let ghost before = r@;
            r.push((e, pairs));
            proof {
                assert forall|t: int| 0 <= t < i + 1 implies entry_key((#[trigger] r@[t]).0) == entry_key(entries@[t]) by {
                    if t < i {
                        assert(before[t] == r@[t]);
                    }
                }
                assert forall|t: int, j: int|
                    0 <= t < i + 1 && 0 <= j < r@[t].1@.len() implies value_of(
                        self@,
                        entry_key(entries@[t]),
                        (#[trigger] r@[t].1@[j]).0@,
                    ) == Some(r@[t].1@[j].1@) by {
                    if t < i {
                        assert(before[t] == r@[t]);
                    }
                }
                assert forall|t: int, k: Seq<char>|
                    0 <= t < i + 1 && #[trigger] value_of(self@, entry_key(entries@[t]), k) is Some
                        implies exists|j: int| 0 <= j < r@[t].1@.len() && (#[trigger] r@[t].1@[j]).0@ == k by {
                    if t < i {
                        assert(before[t] == r@[t]);
                        let j = choose|j: int| 0 <= j < before[t].1@.len() && (#[trigger] before[t].1@[j]).0@ == k;
                    } else {
                        let j = choose|j: int| 0 <= j < pairs@.len() && (#[trigger] pairs@[j]).0@ == k;
                        assert(r@[t].1@[j] == pairs@[j]);
                    }
                }
            }
            i = i + 1;
        }
        r
    }

    /// Removes each entry as `remove_entry` does, in order, and stops at the first failure;
    /// the removals before it stay. Returns how many entries were removed.
    pub fn remove_entries(&mut self, entries: &[Entry]) -> (r: Result<usize, StoreError>)
        requires
            old(self).wf(),
        ensures
            final(self).wf(),
            match r {
                Ok(n) => {
                    &&& n <= entries@.len()
                    &&& forall|i: int|
                        0 <= i < entries@.len() ==> entry_key(#[trigger] entries@[i]) == (false, 0u64)
                            || !owner_exists(final(self)@, entry_key(entries@[i]).0, entry_key(entries@[i]).1)
                },
                Err(e) => e == StoreError::NotEmpty && exists|i: int|
                    0 <= i < entries@.len() && !entry_key(#[trigger] entries@[i]).0 && exists|p: Seq<char>|
                        #[trigger] final(self)@.dirs.contains_key(p) && final(self)@.dirs[p] == entry_key(entries@[i]).1
                            && has_children(final(self)@, p),
            },
    {
        let mut n: usize = 0;
        let mut i: usize = 0;
        while i < entries.len()
            invariant
                self.wf(),
                i <= entries@.len(),
                n <= i,
                forall|t: int|
                    0 <= t < i ==> entry_key(#[trigger] entries@[t]) == (false, 0u64) || !owner_exists(
                        self@,
                        entry_key(entries@[t]).0,
                        entry_key(entries@[t]).1,
                    ),
            decreases entries@.len() - i,
        {
            let ghost before = self@;
            match self.remove_entry(&entries[i]) {
                Ok(removed) => {
                    if removed {
                        n = n + 1;
                    }
                    proof {
                        assert forall|t: int|
                            0 <= t < i + 1 implies entry_key(#[trigger] entries@[t]) == (false, 0u64) || !owner_exists(
                                self@,
                                entry_key(entries@[t]).0,
                                entry_key(entries@[t]).1,
                            ) by {
                            let ek = entry_key(entries@[t]);
                            if ek != (false, 0u64) && owner_exists(self@, ek.0, ek.1) {
                                if ek.0 {
                                    let q = choose|q: Seq<char>| #[trigger] self@.files.contains_key(q) && self@.files[q].0 == ek.1;
                                    assert(before.files.contains_key(q));
                                } else {
                                    let q = choose|q: Seq<char>| #[trigger] self@.dirs.contains_key(q) && self@.dirs[q] == ek.1;
                                    assert(before.dirs.contains_key(q));
                                    if t == i {
                                        let p = choose|p: Seq<char>| #[trigger] before.dirs.contains_key(p) && before.dirs[p] == ek.1
                                            && !has_children(before, p) && self@ == (StoreModel { dirs: before.dirs.remove(p), kv: without_owner(before.kv, ek), ..before });
                                        assert(q != p);
                                    }
                                }
                            }
                        }
                    }
                },
                Err(e) => {
                    return Err(e);
                },
            }
            i = i + 1;
        }
        Ok(n)
    }
}

} // verus!
