//! Normalised hierarchical paths: a leading `/`, and no trailing `/` but for the root.
use vstd::prelude::*;
use vstd::string::StrSliceExecFns;
use crate::text::{chars_of, push_char, string_of_range};

verus! {

/// `s` without its trailing slashes.
pub open spec fn trim_end_slashes(s: Seq<char>) -> Seq<char>
    decreases s.len(),
{
    if s.len() > 0 && s.last() == '/' {
        trim_end_slashes(s.drop_last())
    } else {
        s
    }
}

/// `s` without its leading pairs of slashes.
pub open spec fn trim_leading_pairs(s: Seq<char>) -> Seq<char>
    decreases s.len(),
{
    if s.len() >= 2 && s[0] == '/' && s[1] == '/' {
        trim_leading_pairs(s.subrange(2, s.len() as int))
    } else {
        s
    }
}

/// The normal form of a raw path: trailing slashes dropped, a leading `//` collapsed,
/// and a leading `/` forced.
pub open spec fn normalize(s: Seq<char>) -> Seq<char> {
    let t = trim_leading_pairs(trim_end_slashes(s));
    if t.len() > 0 && t[0] == '/' {
        t
    } else {
        seq!['/'] + t
    }
}

/// A path in normal form.
pub open spec fn is_normalized(p: Seq<char>) -> bool {
    &&& p.len() > 0
    &&& p[0] == '/'
    &&& p.len() > 1 ==> p.last() != '/'
}

/// A normalised path without empty segments.
pub open spec fn well_formed(p: Seq<char>) -> bool {
    &&& is_normalized(p)
    &&& forall|i: int| 0 <= i < p.len() - 1 ==> !(#[trigger] p[i] == '/' && p[i + 1] == '/')
}

/// The index of the last `/` of `s`, or -1.
pub open spec fn last_slash(s: Seq<char>) -> int
    decreases s.len(),
{
    if s.len() == 0 {
        -1
    } else if s.last() == '/' {
        s.len() - 1
    } else {
        last_slash(s.drop_last())
    }
}

/// The final segment of `s`.
pub open spec fn filename_of(s: Seq<char>) -> Seq<char> {
    s.subrange(last_slash(s) + 1, s.len() as int)
}

/// `s` with its final segment removed; the root when nothing is left.
pub open spec fn parent_of(s: Seq<char>) -> Seq<char> {
    let r = trim_end_slashes(s.subrange(0, last_slash(s) + 1));
    if r.len() > 0 {
        r
    } else {
        seq!['/']
    }
}

/// The path of the entry `name` in the directory `parent`.
pub open spec fn join(parent: Seq<char>, name: Seq<char>) -> Seq<char> {
    if parent == seq!['/'] {
        seq!['/'] + name
    } else {
        parent + seq!['/'] + name
    }
}

pub proof fn lemma_trim_end_slashes(s: Seq<char>)
    ensures
        trim_end_slashes(s).len() <= s.len(),
        trim_end_slashes(s) == s.take(trim_end_slashes(s).len() as int),
        trim_end_slashes(s).len() > 0 ==> trim_end_slashes(s).last() != '/',
        forall|i: int|
            trim_end_slashes(s).len() <= i < s.len() ==> s[i] == '/',
    decreases s.len(),
{
    if s.len() > 0 && s.last() == '/' {
        lemma_trim_end_slashes(s.drop_last());
        let t = trim_end_slashes(s.drop_last());
        assert(s.drop_last().take(t.len() as int) =~= s.take(t.len() as int));
        assert forall|i: int| t.len() <= i < s.len() implies s[i] == '/' by {
            if i < s.len() - 1 {
                assert(s.drop_last()[i] == s[i]);
            }
        }
    } else {
        assert(s.take(s.len() as int) =~= s);
    }
}

pub proof fn lemma_trim_leading_pairs(s: Seq<char>)
    ensures
        trim_leading_pairs(s).len() <= s.len(),
        trim_leading_pairs(s) == s.subrange(
            s.len() - trim_leading_pairs(s).len(),
            s.len() as int,
        ),
    decreases s.len(),
{
    if s.len() >= 2 && s[0] == '/' && s[1] == '/' {
        let u = s.subrange(2, s.len() as int);
        lemma_trim_leading_pairs(u);
        let t = trim_leading_pairs(u);
        assert(u.subrange(u.len() - t.len(), u.len() as int) =~= s.subrange(
            s.len() - t.len(),
            s.len() as int,
        ));
    } else {
        assert(s.subrange(0, s.len() as int) =~= s);
    }
}

pub proof fn lemma_last_slash(s: Seq<char>)
    ensures
        -1 <= last_slash(s) < s.len(),
        last_slash(s) >= 0 ==> s[last_slash(s)] == '/',
        forall|i: int| last_slash(s) < i < s.len() ==> s[i] != '/',
    decreases s.len(),
{
    if s.len() > 0 && s.last() != '/' {
        lemma_last_slash(s.drop_last());
        let k = last_slash(s.drop_last());
        assert forall|i: int| k < i < s.len() implies s[i] != '/' by {
            if i < s.len() - 1 {
                assert(s.drop_last()[i] == s[i]);
            }
        }
    }
}

/// A normalised path.
#[derive(Debug)]
pub struct Path {
    pat: String,
}

impl View for Path {
    type V = Seq<char>;

    closed spec fn view(&self) -> Seq<char> {
        self.pat@
    }
}

impl PartialEq for Path {
    fn eq(&self, other: &Path) -> (r: bool) {
        self.pat == other.pat
    }
}

impl vstd::std_specs::cmp::PartialEqSpecImpl for Path {
    open spec fn obeys_eq_spec() -> bool {
        true
    }

    open spec fn eq_spec(&self, other: &Path) -> bool {
        self@ == other@
    }
}

impl Eq for Path {

}

impl Clone for Path {
    fn clone(&self) -> (r: Path)
        ensures
            r@ == self@,
    {
        proof {
            use_type_invariant(self);
        }
        Path { pat: self.pat.clone() }
    }
}

/// The length of `v.take(n)` once its trailing slashes are dropped.
fn trim_end_len(v: &Vec<char>, n: usize) -> (k: usize)
    requires
        n <= v@.len(),
    ensures
        k <= n,
        v@.take(k as int) == trim_end_slashes(v@.take(n as int)),
{
    let mut k = n;
    while k > 0 && v[k - 1] == '/'
        invariant
            k <= n <= v@.len(),
            trim_end_slashes(v@.take(k as int)) == trim_end_slashes(v@.take(n as int)),
        decreases k,
    {
        assert(v@.take(k as int).drop_last() =~= v@.take(k - 1));
        k = k - 1;
    }
    k
}

/// The start of `v[lo..hi]` once its leading pairs of slashes are dropped.
fn skip_leading_pairs(v: &Vec<char>, lo: usize, hi: usize) -> (j: usize)
    requires
        lo <= hi <= v@.len(),
    ensures
        lo <= j <= hi,
        v@.subrange(j as int, hi as int) == trim_leading_pairs(v@.subrange(lo as int, hi as int)),
{
    let mut j = lo;
    while j < hi && hi - j >= 2 && v[j] == '/' && v[j + 1] == '/'
        invariant
            lo <= j <= hi <= v@.len(),
            trim_leading_pairs(v@.subrange(j as int, hi as int)) == trim_leading_pairs(
                v@.subrange(lo as int, hi as int),
            ),
        decreases hi - j,
    {
        assert(v@.subrange(j as int, hi as int).subrange(2, hi - j) =~= v@.subrange(
            j + 2,
            hi as int,
        ));
        j = j + 2;
    }
    j
}

/// One past the last `/` of `v`, or 0 when it holds none.
fn filename_start(v: &Vec<char>) -> (k: usize)
    ensures
        k as int == last_slash(v@) + 1,
{
    let mut k = v.len();
    proof {
        assert(v@.take(v@.len() as int) =~= v@);
    }
    while k > 0 && v[k - 1] != '/'
        invariant
            k <= v@.len(),
            last_slash(v@.take(k as int)) == last_slash(v@),
        decreases k,
    {
        assert(v@.take(k as int).drop_last() =~= v@.take(k - 1));
        k = k - 1;
    }
    proof {
        assert(v@.take(v@.len() as int) =~= v@);
    }
    k
}

pub proof fn lemma_parent_normalized(p: Seq<char>)
    requires
        is_normalized(p),
    ensures
        is_normalized(parent_of(p)),
{
    lemma_last_slash(p);
    let pre = p.subrange(0, last_slash(p) + 1);
    lemma_trim_end_slashes(pre);
    let r = trim_end_slashes(pre);
    if r.len() > 0 {
        assert(r[0] == pre[0]);
    }
}

impl Path {
    #[verifier::type_invariant]
    closed spec fn inv(&self) -> bool {
        is_normalized(self.pat@)
    }

    /// The normal form of `s`: trailing slashes dropped, a leading `//` collapsed and a
    /// leading `/` forced. No input is rejected; the empty string gives the root.
    pub fn new(s: &str) -> (r: Path)
        ensures
            r@ == normalize(s@),
            is_normalized(r@),
    {
        let v = chars_of(s);
        let e = trim_end_len(&v, v.len());
        let b = skip_leading_pairs(&v, 0, e);
        proof {
            assert(v@.take(v@.len() as int) =~= v@);
            assert(v@.take(e as int) =~= v@.subrange(0, e as int));
            lemma_trim_end_slashes(v@);
            lemma_trim_leading_pairs(v@.subrange(0, e as int));
        }
        let pat = if b < e && v[b] == '/' {
            string_of_range(&v, b, e)
        } else {
            let mut s0 = String::new();
            push_char(&mut s0, '/');
            let rest = string_of_range(&v, b, e);
            let mut i: usize = b;
            while i < e
                invariant
                    b <= i <= e <= v@.len(),
                    s0@ == seq!['/'] + v@.subrange(b as int, i as int),
                decreases e - i,
            {
                push_char(&mut s0, v[i]);
                assert(v@.subrange(b as int, i + 1) =~= v@.subrange(b as int, i as int).push(v@[i as int]));
                assert((seq!['/'] + v@.subrange(b as int, i as int)).push(v@[i as int]) =~= seq!['/'] + v@.subrange(b as int, i + 1));
                i = i + 1;
            }
            s0
        };
        proof {
            let t = v@.subrange(b as int, e as int);
            if t.len() > 1 {
                assert(t.last() == v@[e - 1]);
                assert(v@.take(e as int).last() == v@[e - 1]);
            }
            if t.len() > 0 {
                assert((seq!['/'] + t).last() == t.last());
            }
        }
        Path { pat }
    }

    /// The path as a string.
    pub fn str(&self) -> (r: &str)
        ensures
            r@ == self@,
    {
        self.pat.as_str()
    }

    /// The final segment: empty for the root.
    pub fn filename(&self) -> (r: &str)
        ensures
            r@ == filename_of(self@),
    {
        let s = self.pat.as_str();
        let v = chars_of(s);
        let k = filename_start(&v);
        proof {
            lemma_last_slash(v@);
        }
        s.substring_char(k, v.len())
    }

    /// `s` with its final segment and the slashes before it removed; the root when
    /// nothing is left.
    pub fn parent_str(s: &str) -> (r: &str)
        ensures
            r@ == parent_of(s@),
    {
        let v = chars_of(s);
        let k = filename_start(&v);
        proof {
            lemma_last_slash(v@);
        }
        let e = trim_end_len(&v, k);
        if e > 0 {
            proof {
                assert(v@.take(k as int) =~= s@.subrange(0, last_slash(s@) + 1));
                assert(v@.take(e as int) =~= s@.subrange(0, e as int));
            }
            s.substring_char(0, e)
        } else {
            proof {
                reveal_strlit("/");
                assert(v@.take(k as int) =~= s@.subrange(0, last_slash(s@) + 1));
            }
            "/"
        }
    }

    /// The parent directory's path; the root's parent is the root.
    pub fn parent(&self) -> (r: &str)
        ensures
            r@ == parent_of(self@),
            is_normalized(r@),
    {
        proof {
            use_type_invariant(self);
            lemma_parent_normalized(self@);
        }
        Path::parent_str(self.pat.as_str())
    }

    /// Removes the final segment and returns it; the path becomes its parent.
    pub fn pop(&mut self) -> (r: String)
        ensures
            r@ == filename_of(old(self)@),
            final(self)@ == parent_of(old(self)@),
    {
        let f = self.filename().to_owned();
        let p = self.parent().to_owned();
        *self = Path { pat: p };
        f
    }
}

/// The final segment and the parent of a path without empty segments give the path
/// back.
pub proof fn lemma_parent_filename_rebuild(p: Seq<char>)
    requires
        well_formed(p),
    ensures
        join(parent_of(p), filename_of(p)) == p,
{
    lemma_last_slash(p);
    let k = last_slash(p);
    assert(p[0] == '/');
    assert(k >= 0);
    let pre = p.subrange(0, k + 1);
    lemma_trim_end_slashes(pre);
    let r = trim_end_slashes(pre);
    if k == 0 {
        assert(pre =~= seq!['/']);
        assert(trim_end_slashes(pre.drop_last()) == pre.drop_last());
        assert(r.len() == 0);
        assert(parent_of(p) == seq!['/']);
        assert(join(parent_of(p), filename_of(p)) =~= p);
    } else {
        assert(p[k - 1] != '/') by {
            if p[k - 1] == '/' {
                assert(p[k - 1] == '/' && p[(k - 1) + 1] == '/');
            }
        }
        assert(pre.drop_last() =~= p.subrange(0, k));
        assert(trim_end_slashes(p.subrange(0, k)) == p.subrange(0, k));
        assert(r == p.subrange(0, k));
        if r == seq!['/'] {
            assert(r[0] == p[0]);
            assert(k == 1);
            assert(p[0] == '/');
            assert(false);
        }
        assert(join(parent_of(p), filename_of(p)) =~= p);
    }
}

/// The parent of a normalised path other than the root is shorter than it, and normalised.
pub proof fn lemma_parent_shorter(p: Seq<char>)
    requires
        is_normalized(p),
        p.len() > 1,
    ensures
        parent_of(p).len() < p.len(),
        is_normalized(parent_of(p)),
{
    lemma_parent_normalized(p);
    lemma_last_slash(p);
    let k = last_slash(p);
    assert(p[0] == '/');
    assert(k < p.len() - 1);
    let pre = p.subrange(0, k + 1);
    lemma_trim_end_slashes(pre);
}

/// Every path other than the root lies below its parent.
pub proof fn lemma_below_parent(q: Seq<char>)
    requires
        is_normalized(q),
        q.len() > 1,
    ensures
        parent_of(q) == seq!['/'] || (q.len() > parent_of(q).len() && q.subrange(
            0,
            parent_of(q).len() as int,
        ) == parent_of(q) && q[parent_of(q).len() as int] == '/'),
{
    lemma_last_slash(q);
    let k = last_slash(q);
    assert(q[0] == '/');
    let pre = q.subrange(0, k + 1);
    lemma_trim_end_slashes(pre);
    let r = trim_end_slashes(pre);
    if r.len() > 0 {
        assert(r == pre.take(r.len() as int));
        assert(q.subrange(0, r.len() as int) =~= r);
        assert(pre[r.len() as int] == '/');
    }
}

/// The path and its ancestors up to the root.
pub open spec fn chain(p: Seq<char>) -> Set<Seq<char>>
    decreases p.len(),
{
    if p.len() <= 1 || parent_of(p).len() >= p.len() {
        set![p]
    } else {
        chain(parent_of(p)).insert(p)
    }
}

/// Trailing slashes do not change a path.
pub proof fn lemma_trailing_slash_ignored(s: Seq<char>)
    ensures
        normalize(s.push('/')) == normalize(s),
{
    assert(s.push('/').drop_last() =~= s);
}

} // verus!
