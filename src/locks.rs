//! The lock table of the store: four reader/writer locks, one per kind of row, taken
//! all together or not at all.
//!
//! A caller states up front every resource that an operation needs and in which mode.
//! `try_acquire` grants the whole request at once or leaves the table as it was, so no
//! caller ever holds some locks while it waits for others.
use vstd::prelude::*;

verus! {

/// A resource that the lock table guards.
#[derive(Debug, Clone, Copy, PartialEq, Eq, Structural)]
pub enum Resource {
    File,
    Directory,
    FileMetadata,
    DirectoryMetadata,
}

/// How a resource is taken: shared with other readers, or alone.
#[derive(Debug, Clone, Copy, PartialEq, Eq, Structural)]
pub enum LockMode {
    Read,
    Write,
}

/// The state of one lock: how many readers hold it, and whether a writer does.
#[derive(Debug, Clone, Copy, PartialEq, Eq, Structural)]
pub struct LockState {
    pub readers: u64,
    pub writer: bool,
}

pub open spec fn index_of(r: Resource) -> int {
    match r {
        Resource::File => 0,
        Resource::Directory => 1,
        Resource::FileMetadata => 2,
        Resource::DirectoryMetadata => 3,
    }
}

fn index(r: Resource) -> (i: usize)
    ensures
        i as int == index_of(r),
{
    match r {
        Resource::File => 0,
        Resource::Directory => 1,
        Resource::FileMetadata => 2,
        Resource::DirectoryMetadata => 3,
    }
}

/// The mode in which a request asks for `res`: `Write` if any of its items writes it.
pub open spec fn wanted(req: Seq<(Resource, LockMode)>, res: Resource) -> Option<LockMode>
    decreases req.len(),
{
    if req.len() == 0 {
        None
    } else {
        let w = wanted(req.drop_last(), res);
        if req.last().0 == res {
            if req.last().1 == LockMode::Write || w == Some(LockMode::Write) {
                Some(LockMode::Write)
            } else {
                Some(LockMode::Read)
            }
        } else {
            w
        }
    }
}

/// Whether the lock in state `s` can be taken in mode `w` now.
pub open spec fn available(s: LockState, w: Option<LockMode>) -> bool {
    match w {
        None => true,
        Some(LockMode::Read) => !s.writer && s.readers < u64::MAX,
        Some(LockMode::Write) => !s.writer && s.readers == 0,
    }
}

/// The lock in state `s` once it is taken in mode `w`.
pub open spec fn taken(s: LockState, w: Option<LockMode>) -> LockState {
    match w {
        None => s,
        Some(LockMode::Read) => LockState { readers: (s.readers + 1) as u64, writer: s.writer },
        Some(LockMode::Write) => LockState { readers: s.readers, writer: true },
    }
}

/// The lock in state `s` once a hold in mode `w` is given back.
pub open spec fn released(s: LockState, w: Option<LockMode>) -> LockState {
    match w {
        None => s,
        Some(LockMode::Read) => LockState { readers: (s.readers - 1) as u64, writer: s.writer },
        Some(LockMode::Write) => LockState { readers: s.readers, writer: false },
    }
}

/// Whether a request holds in the state `s` with no conflict.
pub open spec fn grantable(s: Seq<LockState>, req: Seq<(Resource, LockMode)>) -> bool {
    forall|r: Resource| available(#[trigger] s[index_of(r)], wanted(req, r))
}

/// Whether a request is held in the state `s`, so that it can be given back.
pub open spec fn held(s: Seq<LockState>, req: Seq<(Resource, LockMode)>) -> bool {
    forall|r: Resource|
        match wanted(req, r) {
            None => true,
            Some(LockMode::Read) => (#[trigger] s[index_of(r)]).readers > 0,
            Some(LockMode::Write) => (#[trigger] s[index_of(r)]).writer,
        }
}

/// A lock state is consistent: a writer holds the lock alone.
pub open spec fn consistent(s: Seq<LockState>) -> bool {
    &&& s.len() == 4
    &&& forall|i: int| 0 <= i < 4 ==> (#[trigger] s[i]).writer ==> s[i].readers == 0
}

/// The four locks.
pub struct LockTable {
    states: Vec<LockState>,
}

impl View for LockTable {
    type V = Seq<LockState>;

    closed spec fn view(&self) -> Seq<LockState> {
        self.states@
    }
}

fn wanted_of(req: &[(Resource, LockMode)], res: Resource) -> (w: Option<LockMode>)
    ensures
        w == wanted(req@, res),
{
    let mut w: Option<LockMode> = None;
    let mut i: usize = 0;
    while i < req.len()
        invariant
            i <= req@.len(),
            w == wanted(req@.take(i as int), res),
        decreases req@.len() - i,
    {
        let (r, m) = req[i];
        proof {
            assert(req@.take(i + 1).drop_last() =~= req@.take(i as int));
            assert(req@.take(i + 1).last() == req@[i as int]);
        }
        if r == res {
            w = match (m, w) {
                (LockMode::Write, _) => Some(LockMode::Write),
                (_, Some(LockMode::Write)) => Some(LockMode::Write),
                _ => Some(LockMode::Read),
            };
        }
        i = i + 1;
    }
    proof {
        assert(req@.take(req@.len() as int) =~= req@);
    }
    w
}

fn resource_at(i: usize) -> (r: Resource)
    requires
        i < 4,
    ensures
        index_of(r) == i as int,
{
    if i == 0 {
        Resource::File
    } else if i == 1 {
        Resource::Directory
    } else if i == 2 {
        Resource::FileMetadata
    } else {
        Resource::DirectoryMetadata
    }
}

impl LockTable {
    /// A table with every lock free.
    pub fn new() -> (t: LockTable)
        ensures
            consistent(t@),
            forall|i: int| 0 <= i < 4 ==> t@[i] == (LockState { readers: 0, writer: false }),
    {
        let mut states: Vec<LockState> = Vec::new();
        let mut i: usize = 0;
        while i < 4
            invariant
                i <= 4,
                states@.len() == i,
                forall|k: int| 0 <= k < i ==> states@[k] == (LockState { readers: 0, writer: false }),
            decreases 4 - i,
        {
            states.push(LockState { readers: 0, writer: false });
            i = i + 1;
        }
        LockTable { states }
    }

    /// The state of one lock.
    pub fn state(&self, r: Resource) -> (s: LockState)
        requires
            consistent(self@),
        ensures
            s == self@[index_of(r)],
    {
        self.states[index(r)]
    }

    /// Takes every lock that the request names, in the mode it asks for, if none of them
    /// conflicts; otherwise takes none. Returns whether the request was granted.
    pub fn try_acquire(&mut self, request: &[(Resource, LockMode)]) -> (granted: bool)
        requires
            consistent(old(self)@),
        ensures
            consistent(final(self)@),
            granted == grantable(old(self)@, request@),
            granted ==> forall|r: Resource|
                #[trigger] final(self)@[index_of(r)] == taken(old(self)@[index_of(r)], wanted(request@, r)),
            !granted ==> final(self)@ == old(self)@,
    {
        let mut i: usize = 0;
        while i < 4
            invariant
                i <= 4,
                consistent(self@),
                self@ == old(self)@,
                forall|k: int| 0 <= k < i ==> available(self@[k], wanted(request@, #[trigger] resource_of(k))),
            decreases 4 - i,
        {
            let r = resource_at(i);
            let s = self.states[i];
            let ok = match wanted_of(request, r) {
                None => true,
                Some(LockMode::Read) => !s.writer && s.readers < u64::MAX,
                Some(LockMode::Write) => !s.writer && s.readers == 0,
            };
            if !ok {
                proof {
                    assert(!available(old(self)@[index_of(r)], wanted(request@, r)));
                }
                return false;
            }
            proof {
                lemma_resource_of(i as int);
            }
            i = i + 1;
        }
        proof {
            assert forall|r: Resource| available(#[trigger] old(self)@[index_of(r)], wanted(request@, r)) by {
                lemma_resource_of(index_of(r));
            }
        }
        let mut i: usize = 0;
        while i < 4
            invariant
                i <= 4,
                consistent(old(self)@),
                grantable(old(self)@, request@),
                self@.len() == 4,
                forall|k: int| 0 <= k < i ==> #[trigger] self@[k] == taken(old(self)@[k], wanted(request@, resource_of(k))),
                forall|k: int| i <= k < 4 ==> #[trigger] self@[k] == old(self)@[k],
            decreases 4 - i,
        {
            let r = resource_at(i);
            let s = self.states[i];
            proof {
                lemma_resource_of(i as int);
                assert(available(old(self)@[index_of(r)], wanted(request@, r)));
            }
            let n = match wanted_of(request, r) {
                None => s,
                Some(LockMode::Read) => LockState { readers: s.readers + 1, writer: s.writer },
                Some(LockMode::Write) => LockState { readers: s.readers, writer: true },
            };
            self.states.set(i, n);
            i = i + 1;
        }
        proof {
            assert forall|r: Resource|
                #[trigger] self@[index_of(r)] == taken(old(self)@[index_of(r)], wanted(request@, r)) by {
                lemma_resource_of(index_of(r));
            }
            assert forall|k: int| 0 <= k < 4 implies (#[trigger] self@[k]).writer ==> self@[k].readers == 0 by {
                lemma_resource_of(k);
                assert(available(old(self)@[index_of(resource_of(k))], wanted(request@, resource_of(k))));
            }
        }
        true
    }

    /// Gives back every lock that a granted request took.
    pub fn release(&mut self, request: &[(Resource, LockMode)])
        requires
            consistent(old(self)@),
            held(old(self)@, request@),
        ensures
            consistent(final(self)@),
            forall|r: Resource|
                #[trigger] final(self)@[index_of(r)] == released(old(self)@[index_of(r)], wanted(request@, r)),
    {
        let mut i: usize = 0;
        while i < 4
            invariant
                i <= 4,
                consistent(old(self)@),
                held(old(self)@, request@),
                self@.len() == 4,
                forall|k: int| 0 <= k < i ==> #[trigger] self@[k] == released(old(self)@[k], wanted(request@, resource_of(k))),
                forall|k: int| i <= k < 4 ==> #[trigger] self@[k] == old(self)@[k],
            decreases 4 - i,
        {
            let r = resource_at(i);
            let s = self.states[i];
            proof {
                lemma_resource_of(i as int);
                assert(match wanted(request@, r) {
                    None => true,
                    Some(LockMode::Read) => old(self)@[index_of(r)].readers > 0,
                    Some(LockMode::Write) => old(self)@[index_of(r)].writer,
                });
            }
            let n = match wanted_of(request, r) {
                None => s,
                Some(LockMode::Read) => LockState { readers: s.readers - 1, writer: s.writer },
                Some(LockMode::Write) => LockState { readers: s.readers, writer: false },
            };
            self.states.set(i, n);
            i = i + 1;
        }
        proof {
            assert forall|r: Resource|
                #[trigger] self@[index_of(r)] == released(old(self)@[index_of(r)], wanted(request@, r)) by {
                lemma_resource_of(index_of(r));
            }
            assert forall|k: int| 0 <= k < 4 implies (#[trigger] self@[k]).writer ==> self@[k].readers == 0 by {
                lemma_resource_of(k);
            }
        }
    }
}

/// The resource whose lock is at index `i`.
pub open spec fn resource_of(i: int) -> Resource {
    if i == 0 {
        Resource::File
    } else if i == 1 {
        Resource::Directory
    } else if i == 2 {
        Resource::FileMetadata
    } else {
        Resource::DirectoryMetadata
    }
}

pub proof fn lemma_resource_of(i: int)
    ensures
        0 <= i < 4 ==> index_of(resource_of(i)) == i,
        forall|r: Resource| resource_of(#[trigger] index_of(r)) == r,
{
    assert forall|r: Resource| resource_of(#[trigger] index_of(r)) == r by {
        match r {
            Resource::File => {},
            Resource::Directory => {},
            Resource::FileMetadata => {},
            Resource::DirectoryMetadata => {},
        }
    }
}

/// While a writer holds the lock of `res`, no request that reads or writes `res` is
/// granted; once the writer gives it back, the lock holds no writer.
pub proof fn lemma_writer_excludes(s: Seq<LockState>, req: Seq<(Resource, LockMode)>, res: Resource)
    requires
        consistent(s),
        s[index_of(res)].writer,
        wanted(req, res) is Some,
    ensures
        !grantable(s, req),
        !released(s[index_of(res)], Some(LockMode::Write)).writer,
{
    assert(!available(s[index_of(res)], wanted(req, res)));
}

/// Requests on disjoint sets of resources do not wait for each other: once one is
/// granted, the other is granted whenever it was grantable before.
pub proof fn lemma_disjoint_requests(
    s: Seq<LockState>,
    s2: Seq<LockState>,
    a: Seq<(Resource, LockMode)>,
    b: Seq<(Resource, LockMode)>,
)
    requires
        consistent(s),
        grantable(s, b),
        forall|r: Resource| #[trigger] wanted(a, r) is None || wanted(b, r) is None,
        forall|r: Resource| #[trigger] s2[index_of(r)] == taken(s[index_of(r)], wanted(a, r)),
    ensures
        grantable(s2, b),
{
    assert forall|r: Resource| available(#[trigger] s2[index_of(r)], wanted(b, r)) by {
        assert(s2[index_of(r)] == taken(s[index_of(r)], wanted(a, r)));
        assert(available(s[index_of(r)], wanted(b, r)));
        if wanted(b, r) is Some {
            assert(wanted(a, r) is None);
        }
    }
}

} // verus!
