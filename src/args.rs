//! Command-line tokens of a query and the escaped single-line command that they are
//! shown in.
use vstd::prelude::*;
use vstd::string::StrSliceExecFns;
use crate::text::{chars_of, push_char};

verus! {

/// Whether `a` holds a space: such a token stands for a parenthesised sub-query.
pub open spec fn has_space(a: Seq<char>) -> bool {
    exists|i: int| 0 <= i < a.len() && a[i] == ' '
}

/// How one character of a token is shown in the command line.
pub open spec fn escape_char(c: char, quoted: bool) -> Seq<char> {
    if c == '\n' {
        seq!['\\', 'n']
    } else if quoted && c == '"' {
        seq!['\\', '"']
    } else {
        seq![c]
    }
}

/// How the characters of a token are shown in the command line.
pub open spec fn escaped(a: Seq<char>, quoted: bool) -> Seq<char>
    decreases a.len(),
{
    if a.len() == 0 {
        Seq::empty()
    } else {
        escaped(a.drop_last(), quoted) + escape_char(a.last(), quoted)
    }
}

/// How a token is shown in the command line: quoted when it holds a space.
pub open spec fn rendered(a: Seq<char>) -> Seq<char> {
    if has_space(a) {
        seq!['"'] + escaped(a, true) + seq!['"']
    } else {
        escaped(a, false)
    }
}

/// The command line of a list of tokens: each token shown, and followed by a space.
pub open spec fn cmdline_of(args: Seq<Seq<char>>) -> Seq<char>
    decreases args.len(),
{
    if args.len() == 0 {
        Seq::empty()
    } else {
        cmdline_of(args.drop_last()) + rendered(args.last()) + seq![' ']
    }
}

/// Where the `j`-th character of token `i` is shown in the command line; `j` may be the
/// token's length, for the place after its last character.
pub open spec fn char_offset(args: Seq<Seq<char>>, i: int, j: int) -> int {
    let q = has_space(args[i]);
    cmdline_of(args.take(i)).len() + (if q {
        1int
    } else {
        0int
    }) + escaped(args[i].take(j), q).len()
}

/// The tokens of a query, and where each of their characters stands in the command line.
pub struct Args {
    args: Vec<String>,
    offsets: Vec<usize>,
    ends: Vec<usize>,
    positions: Vec<Vec<usize>>,
    cmdline: String,
}

/// Whether `v` holds a space.
pub(crate) fn holds_space(v: &Vec<char>) -> (r: bool)
    ensures
        r == has_space(v@),
{
    let mut i: usize = 0;
    while i < v.len()
        invariant
            i <= v@.len(),
            forall|k: int| 0 <= k < i ==> v@[k] != ' ',
        decreases v@.len() - i,
    {
        if v[i] == ' ' {
            return true;
        }
        i = i + 1;
    }
    false
}

impl Args {
    /// The tokens, as character sequences.
    pub closed spec fn texts(&self) -> Seq<Seq<char>> {
        self.args@.map_values(|s: String| s@)
    }

    /// The position tables agree with the tokens and the command line.
    #[verifier::type_invariant]
    closed spec fn wf(&self) -> bool {
        let t = self.texts();
        &&& self.cmdline@ == cmdline_of(t)
        &&& self.offsets@.len() == t.len()
        &&& self.ends@.len() == t.len()
        &&& self.positions@.len() == t.len()
        &&& forall|i: int|
            0 <= i < t.len() ==> #[trigger] self.offsets@[i] == cmdline_of(t.take(i)).len()
        &&& forall|i: int|
            0 <= i < t.len() ==> #[trigger] self.ends@[i] == cmdline_of(t.take(i)).len()
                + rendered(t[i]).len()
        &&& forall|i: int|
            0 <= i < t.len() ==> (#[trigger] self.positions@[i])@.len() == t[i].len() + 1
        &&& forall|i: int, j: int|
            0 <= i < t.len() && 0 <= j <= t[i].len() ==> (#[trigger] self.positions@[i]@[j])
                == char_offset(t, i, j)
    }

    /// Reconstructs the command line of `a` and records where each character stands in it.
    pub fn new(a: &[&str]) -> (r: Args)
        ensures
            r.texts() == a@.map_values(|s: &str| s@),
    {
        let ghost all = a@.map_values(|s: &str| s@);
        let mut args: Vec<String> = Vec::new();
        let mut offsets: Vec<usize> = Vec::new();
        let mut ends: Vec<usize> = Vec::new();
        let mut positions: Vec<Vec<usize>> = Vec::new();
        let mut cmdline = String::new();
        let mut k: usize = 0;
        while k < a.len()
            invariant
                k <= a@.len(),
                all == a@.map_values(|s: &str| s@),
                args@.map_values(|s: String| s@) == all.take(k as int),
                cmdline@ == cmdline_of(all.take(k as int)),
                offsets@.len() == k,
                ends@.len() == k,
                positions@.len() == k,
                forall|i: int| 0 <= i < k ==> #[trigger] offsets@[i] == cmdline_of(all.take(i)).len(),
                forall|i: int|
                    0 <= i < k ==> #[trigger] ends@[i] == cmdline_of(all.take(i)).len() + rendered(
                        all[i],
                    ).len(),
                forall|i: int| 0 <= i < k ==> (#[trigger] positions@[i])@.len() == all[i].len() + 1,
                forall|i: int, j: int|
                    0 <= i < k && 0 <= j <= all[i].len() ==> (#[trigger] positions@[i]@[j])
                        == char_offset(all, i, j),
            decreases a@.len() - k,
        {
            let arg: &str = a[k];
            let v = chars_of(arg);
            let q = holds_space(&v);
            let ghost before = cmdline@;
            let off = cmdline.as_str().unicode_len();
            if q {
                push_char(&mut cmdline, '"');
            }
            let ghost lead: Seq<char> = if q {
                seq!['"']
            } else {
                Seq::<char>::empty()
            };
            assert(all[k as int] == v@);
            assert(all.take(k as int + 1).drop_last() =~= all.take(k as int));
            assert(all.take(k as int + 1).last() == v@);
            assert(all.take(k as int + 1).take(k as int) =~= all.take(k as int));
            let mut pos: Vec<usize> = Vec::new();
            let mut j: usize = 0;
            assert(v@.take(0) =~= Seq::<char>::empty());
            assert(cmdline@ =~= before + lead + escaped(v@.take(0), q));
            while j < v.len()
                invariant
                    j <= v@.len(),
                    all == a@.map_values(|s: &str| s@),
                    k < a@.len(),
                    all[k as int] == v@,
                    q == has_space(v@),
                    lead == (if q {
                        seq!['"']
                    } else {
                        Seq::<char>::empty()
                    }),
                    before == cmdline_of(all.take(k as int)),
                    off == before.len(),
                    cmdline@ == before + lead + escaped(v@.take(j as int), q),
                    pos@.len() == j,
                    forall|x: int| 0 <= x < j ==> #[trigger] pos@[x] == char_offset(all, k as int, x),
                decreases v@.len() - j,
            {
                let here = cmdline.as_str().unicode_len();
                pos.push(here);
                let c = v[j];
                if c == '\n' {
                    push_char(&mut cmdline, '\\');
                    push_char(&mut cmdline, 'n');
                } else if q && c == '"' {
                    push_char(&mut cmdline, '\\');
                    push_char(&mut cmdline, '"');
                } else {
                    push_char(&mut cmdline, c);
                }
                assert(v@.take(j as int + 1).drop_last() =~= v@.take(j as int));
                assert(v@.take(j as int + 1).last() == c);
                assert(cmdline@ =~= before + lead + escaped(v@.take(j as int + 1), q));
                j = j + 1;
            }
            let here = cmdline.as_str().unicode_len();
            pos.push(here);
            assert(v@.take(v@.len() as int) =~= v@);
            if q {
                push_char(&mut cmdline, '"');
            }
            let fin = cmdline.as_str().unicode_len();
            assert(cmdline@ =~= before + rendered(v@));
            push_char(&mut cmdline, ' ');
            assert(cmdline@ =~= cmdline_of(all.take(k as int + 1)));
            args.push(arg.to_owned());
            offsets.push(off);
            ends.push(fin);
            positions.push(pos);
            assert(args@.map_values(|s: String| s@) =~= all.take(k as int + 1));
            k = k + 1;
        }
        assert(all.take(a@.len() as int) =~= all);
        Args { args, offsets, ends, positions, cmdline }
    }

    /// The escaped single-line command.
    pub fn cmdline(&self) -> (r: &str)
        ensures
            r@ == cmdline_of(self.texts()),
    {
        proof {
            use_type_invariant(self);
        }
        self.cmdline.as_str()
    }

    /// How many tokens there are.
    pub fn len(&self) -> (r: usize)
        ensures
            r == self.texts().len(),
    {
        self.args.len()
    }

    /// Token `i`.
    pub fn arg(&self, i: usize) -> (r: &str)
        requires
            i < self.texts().len(),
        ensures
            r@ == self.texts()[i as int],
    {
        self.args[i].as_str()
    }

    /// Where token `i` starts in the command line (at its opening quote, if quoted).
    pub fn offset(&self, i: usize) -> (r: usize)
        requires
            i < self.texts().len(),
        ensures
            r == cmdline_of(self.texts().take(i as int)).len(),
    {
        proof {
            use_type_invariant(self);
        }
        self.offsets[i]
    }

    /// Where token `i` ends in the command line (after its closing quote, if quoted).
    pub fn end(&self, i: usize) -> (r: usize)
        requires
            i < self.texts().len(),
        ensures
            r == cmdline_of(self.texts().take(i as int)).len() + rendered(self.texts()[i as int]).len(),
    {
        proof {
            use_type_invariant(self);
        }
        self.ends[i]
    }

    /// Where character `j` of token `i` stands in the command line.
    pub fn position(&self, i: usize, j: usize) -> (r: usize)
        requires
            i < self.texts().len(),
            j <= self.texts()[i as int].len(),
        ensures
            r == char_offset(self.texts(), i as int, j as int),
    {
        proof {
            use_type_invariant(self);
        }
        self.positions[i][j]
    }
}

} // verus!
