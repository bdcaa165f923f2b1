//! No space left on device: the sizes of the directories that a terminal
//! session walks through.

use crate::text::{chars_of, lines, parse_usize, spells, split_lines, split_words, unsigned_of, views, words};
use vstd::prelude::*;

verus! {

/// Why a terminal session has no answer.
#[derive(Clone, Copy, Debug, PartialEq, Eq)]
pub enum Error {
    /// A line is neither a command nor a line of a listing.
    InvalidCommand,
    /// The first word of a line of a listing is neither `dir` nor a size.
    InvalidSize,
    /// The sizes add up to more than the result type holds.
    Overflow,
    /// No directory is large enough.
    NoDirectory,
}

/// A line of a terminal session.
#[derive(Debug, PartialEq, Eq)]
pub enum Cmd {
    Cd(Vec<char>),
    CdUp,
    Ls,
    DirInfo(Vec<char>),
    FileInfo(Vec<char>, usize),
}

/// The mathematical model of a line of a terminal session.
pub enum CmdView {
    Cd(Seq<char>),
    CdUp,
    Ls,
    DirInfo(Seq<char>),
    FileInfo(Seq<char>, nat),
}

impl View for Cmd {
    type V = CmdView;

    open spec fn view(&self) -> CmdView {
        match self {
            Cmd::Cd(name) => CmdView::Cd(name@),
            Cmd::CdUp => CmdView::CdUp,
            Cmd::Ls => CmdView::Ls,
            Cmd::DirInfo(name) => CmdView::DirInfo(name@),
            Cmd::FileInfo(name, size) => CmdView::FileInfo(name@, *size as nat),
        }
    }
}

/// The views of a sequence of lines.
pub open spec fn cmd_views(cmds: Seq<Cmd>) -> Seq<CmdView> {
    cmds.map_values(|c: Cmd| c@)
}

/// What a line of a terminal session says.
pub open spec fn cmd_of(line: Seq<char>) -> Result<CmdView, Error> {
    let w = words(line);
    if w.len() == 3 && w[0] == "$"@ && w[1] == "cd"@ && w[2] == ".."@ {
        Ok(CmdView::CdUp)
    } else if w.len() == 3 && w[0] == "$"@ && w[1] == "cd"@ {
        Ok(CmdView::Cd(w[2]))
    } else if w.len() == 2 && w[0] == "$"@ && w[1] == "ls"@ {
        Ok(CmdView::Ls)
    } else if w.len() == 2 && w[0] == "dir"@ {
        Ok(CmdView::DirInfo(w[1]))
    } else if w.len() == 2 {
        match unsigned_of(w[0], usize::MAX as nat) {
            Some(size) => Ok(CmdView::FileInfo(w[1], size)),
            None => Err(Error::InvalidSize),
        }
    } else {
        Err(Error::InvalidCommand)
    }
}

/// What the first `n` of `rows` say, or the error of the first line that
/// says nothing.
pub open spec fn cmds_of(rows: Seq<Seq<char>>, n: nat) -> Result<Seq<CmdView>, Error>
    decreases n,
{
    if n == 0 {
        Ok(Seq::empty())
    } else {
        match cmds_of(rows, (n - 1) as nat) {
            Err(e) => Err(e),
            Ok(cs) => match cmd_of(rows[n - 1]) {
                Err(e) => Err(e),
                Ok(c) => Ok(cs.push(c)),
            },
        }
    }
}

/// The names of `path` with a `/` between each two.
pub open spec fn join(path: Seq<Seq<char>>) -> Seq<char>
    decreases path.len(),
{
    if path.len() == 0 {
        Seq::empty()
    } else if path.len() == 1 {
        path[0]
    } else {
        join(path.drop_last()) + seq!['/'] + path.last()
    }
}

/// The recorded sizes `s` after `size` was recorded for `key`: in place of
/// the size recorded for `key` before, or else after all others.
pub open spec fn put(s: Seq<(Seq<char>, nat)>, key: Seq<char>, size: nat) -> Seq<(Seq<char>, nat)>
    decreases s.len(),
{
    if s.len() == 0 {
        seq![(key, size)]
    } else if s[0].0 == key {
        s.update(0, (key, size))
    } else {
        seq![s[0]] + put(s.drop_first(), key, size)
    }
}

/// What walking through a directory yields.
pub struct Walk {
    /// The size of what was listed in the directory and below it.
    pub size: nat,
    /// The place of the first line that was not read.
    pub next: nat,
    /// The sizes recorded for the directories that were left.
    pub sizes: Seq<(Seq<char>, nat)>,
}

/// Walks through the directory `path` from line `i` on, until the session
/// leaves the directory or ends. Entering a directory walks through it, and
/// leaving it records its size under its joined path.
pub open spec fn walk(
    cmds: Seq<CmdView>,
    i: nat,
    path: Seq<Seq<char>>,
    sizes: Seq<(Seq<char>, nat)>,
) -> Walk
    decreases cmds.len() - i,
{
    if i >= cmds.len() {
        Walk { size: 0, next: i, sizes }
    } else {
        match cmds[i as int] {
            CmdView::CdUp => Walk { size: 0, next: i + 1, sizes },
            CmdView::Ls => walk(cmds, i + 1, path, sizes),
            CmdView::DirInfo(_) => walk(cmds, i + 1, path, sizes),
            CmdView::FileInfo(_, s) => {
                let rest = walk(cmds, i + 1, path, sizes);
                Walk { size: s + rest.size, next: rest.next, sizes: rest.sizes }
            },
            CmdView::Cd(name) => {
                let inner = walk(cmds, i + 1, path.push(name), sizes);
                let back = if i < inner.next <= cmds.len() {
                    inner.next
                } else {
                    cmds.len()
                };
                let rest = walk(
                    cmds,
                    back,
                    path,
                    put(inner.sizes, join(path.push(name)), inner.size),
                );
                Walk { size: inner.size + rest.size, next: rest.next, sizes: rest.sizes }
            },
        }
    }
}

/// The sum of the first `n` recorded sizes that are at most `limit`.
pub open spec fn small_total(s: Seq<(Seq<char>, nat)>, limit: nat, n: nat) -> nat
    decreases n,
{
    if n == 0 {
        0
    } else if s[n - 1].1 <= limit {
        small_total(s, limit, (n - 1) as nat) + s[n - 1].1
    } else {
        small_total(s, limit, (n - 1) as nat)
    }
}

/// `v` is the least recorded size that is at least `required`.
pub open spec fn is_least_from(s: Seq<(Seq<char>, nat)>, required: nat, v: nat) -> bool {
    &&& exists|k: int| 0 <= k < s.len() && #[trigger] s[k].1 == v
    &&& v >= required
    &&& forall|k: int| 0 <= k < s.len() && (#[trigger] s[k]).1 >= required ==> v <= s[k].1
}

/// The walk through the whole session that the lines `all` record, from
/// outside any directory.
pub open spec fn session(all: Seq<Seq<char>>) -> Result<Walk, Error> {
    match cmds_of(all, all.len()) {
        Err(e) => Err(e),
        Ok(cmds) => {
            let w = walk(cmds, 0, Seq::empty(), Seq::empty());
            if w.size > usize::MAX {
                Err(Error::Overflow)
            } else {
                Ok(w)
            }
        },
    }
}

/// The space that has to be freed when `used` of 70000000 is taken and
/// 30000000 are needed.
pub open spec fn shortfall(used: nat) -> nat {
    if used >= 40000000 {
        (used - 40000000) as nat
    } else {
        0
    }
}

/// A walk reads at least one line, unless none is left.
pub proof fn lemma_walk_advances(
    cmds: Seq<CmdView>,
    i: nat,
    path: Seq<Seq<char>>,
    sizes: Seq<(Seq<char>, nat)>,
)
    ensures
        i < cmds.len() ==> i < walk(cmds, i, path, sizes).next <= cmds.len(),
        i >= cmds.len() ==> walk(cmds, i, path, sizes).next == i,
    decreases cmds.len() - i,
{
    if i < cmds.len() {
        match cmds[i as int] {
            CmdView::CdUp => {},
            CmdView::Ls => {
                lemma_walk_advances(cmds, i + 1, path, sizes);
            },
            CmdView::DirInfo(_) => {
                lemma_walk_advances(cmds, i + 1, path, sizes);
            },
            CmdView::FileInfo(_, s) => {
                lemma_walk_advances(cmds, i + 1, path, sizes);
            },
            CmdView::Cd(name) => {
                lemma_walk_advances(cmds, i + 1, path.push(name), sizes);
                let inner = walk(cmds, i + 1, path.push(name), sizes);
                lemma_walk_advances(
                    cmds,
                    inner.next,
                    path,
                    put(inner.sizes, join(path.push(name)), inner.size),
                );
            },
        }
    }
}

/// Where the first `k` keys differ from `key` and the next one is `key`,
/// `put` replaces the size at place `k`.
pub proof fn lemma_put_found(s: Seq<(Seq<char>, nat)>, key: Seq<char>, size: nat, k: int)
    requires
        0 <= k < s.len(),
        forall|j: int| 0 <= j < k ==> (#[trigger] s[j]).0 != key,
        s[k].0 == key,
    ensures
        put(s, key, size) == s.update(k, (key, size)),
    decreases k,
{
    if k > 0 {
        let t = s.drop_first();
        assert forall|j: int| 0 <= j < k - 1 implies (#[trigger] t[j]).0 != key by {
            assert(t[j] == s[j + 1]);
        }
        lemma_put_found(t, key, size, k - 1);
        assert(seq![s[0]] + t.update(k - 1, (key, size)) =~= s.update(k, (key, size)));
    }
}

/// Where no key is `key`, `put` adds the size after all others.
pub proof fn lemma_put_absent(s: Seq<(Seq<char>, nat)>, key: Seq<char>, size: nat)
    requires
        forall|j: int| 0 <= j < s.len() ==> (#[trigger] s[j]).0 != key,
    ensures
        put(s, key, size) == s.push((key, size)),
    decreases s.len(),
{
    if s.len() > 0 {
        let t = s.drop_first();
        assert forall|j: int| 0 <= j < t.len() implies (#[trigger] t[j]).0 != key by {
            assert(t[j] == s[j + 1]);
        }
        lemma_put_absent(t, key, size);
        assert(seq![s[0]] + t.push((key, size)) =~= s.push((key, size)));
    } else {
        assert(seq![(key, size)] =~= s.push((key, size)));
    }
}

/// An error among the first lines is the error of all lines.
pub proof fn lemma_cmds_error(rows: Seq<Seq<char>>, k: nat, n: nat)
    requires
        k <= n,
        cmds_of(rows, k) is Err,
    ensures
        cmds_of(rows, n) == cmds_of(rows, k),
    decreases n,
{
    if k < n {
        lemma_cmds_error(rows, k, (n - 1) as nat);
    }
}

/// The sum over the first sizes is no more than the sum over all.
pub proof fn lemma_small_total_grows(s: Seq<(Seq<char>, nat)>, limit: nat, k: nat, n: nat)
    requires
        k <= n,
    ensures
        small_total(s, limit, k) <= small_total(s, limit, n),
    decreases n,
{
    if k < n {
        lemma_small_total_grows(s, limit, k, (n - 1) as nat);
    }
}

impl Cmd {
    /// Reads a line of a terminal session.
    pub fn parse(s: &str) -> (r: Result<Self, Error>)
        ensures
            match r {
                Ok(c) => cmd_of(s@) == Ok::<CmdView, Error>(c@),
                Err(e) => cmd_of(s@) == Err::<CmdView, Error>(e),
            },
    {
        Cmd::from_chars(&chars_of(s))
    }

    /// Reads a line of a terminal session.
    pub fn from_chars(line: &Vec<char>) -> (r: Result<Self, Error>)
        ensures
            match r {
                Ok(c) => cmd_of(line@) == Ok::<CmdView, Error>(c@),
                Err(e) => cmd_of(line@) == Err::<CmdView, Error>(e),
            },
    {
        let mut w = split_words(line);
        assert(w@.len() == words(line@).len());
        assert(forall|k: int| 0 <= k < w.len() ==> (#[trigger] w[k])@ == words(line@)[k]);
        if w.len() == 3 && spells(&w[0], "$") && spells(&w[1], "cd") {
            if spells(&w[2], "..") {
                Ok(Cmd::CdUp)
            } else {
                match w.pop() {
                    Some(name) => Ok(Cmd::Cd(name)),
                    None => Err(Error::InvalidCommand),
                }
            }
        } else if w.len() == 2 {
            if spells(&w[0], "$") && spells(&w[1], "ls") {
                Ok(Cmd::Ls)
            } else if spells(&w[0], "dir") {
                match w.pop() {
                    Some(name) => Ok(Cmd::DirInfo(name)),
                    None => Err(Error::InvalidCommand),
                }
            } else {
                match parse_usize(&w[0]) {
                    Some(size) => match w.pop() {
                        Some(name) => Ok(Cmd::FileInfo(name, size)),
                        None => Err(Error::InvalidCommand),
                    },
                    None => Err(Error::InvalidSize),
                }
            }
        } else {
            Err(Error::InvalidCommand)
        }
    }
}

/// The sizes recorded for directories, each under its joined path.
pub struct Sizes {
    entries: Vec<(Vec<char>, usize)>,
}

impl View for Sizes {
    type V = Seq<(Seq<char>, nat)>;

    closed spec fn view(&self) -> Seq<(Seq<char>, nat)> {
        self.entries@.map_values(|e: (Vec<char>, usize)| (e.0@, e.1 as nat))
    }
}

fn same(a: &Vec<char>, b: &Vec<char>) -> (r: bool)
    ensures
        r == (a@ == b@),
{
    if a.len() != b.len() {
        return false;
    }
    let mut i: usize = 0;
    while i < a.len()
        invariant
            i <= a.len() == b.len(),
            forall|j: int| 0 <= j < i ==> a[j] == b[j],
        decreases a.len() - i,
    {
        if a[i] != b[i] {
            return false;
        }
        i += 1;
    }
    assert(a@ =~= b@);
    true
}

impl Sizes {
    /// No sizes.
    pub fn new() -> (r: Self)
        ensures
            r@ == Seq::<(Seq<char>, nat)>::empty(),
    {
        let r = Sizes { entries: Vec::new() };
        assert(r@ =~= Seq::<(Seq<char>, nat)>::empty());
        r
    }

    /// Records `size` for `key`, in place of the size recorded for it before.
    pub fn insert(&mut self, key: Vec<char>, size: usize)
        ensures
            final(self)@ == put(old(self)@, key@, size as nat),
    {
        let n = self.entries.len();
        let mut i: usize = 0;
        while i < n
            invariant
                i <= n == self.entries.len(),
                *self == *old(self),
                forall|j: int| 0 <= j < i ==> (#[trigger] self@[j]).0 != key@,
            decreases n - i,
        {
            assert(self@[i as int].0 == self.entries[i as int].0@);
            if same(&self.entries[i].0, &key) {
                proof {
                    lemma_put_found(self@, key@, size as nat, i as int);
                }
                self.entries[i] = (key, size);
                assert(self@ =~= old(self)@.update(i as int, (key@, size as nat)));
                return ;
            }
            i += 1;
        }
        proof {
            lemma_put_absent(self@, key@, size as nat);
        }
        self.entries.push((key, size));
        assert(self@ =~= old(self)@.push((key@, size as nat)));
    }

    /// The sum of the recorded sizes that are at most `limit`, or `None` if
    /// it is more than a `usize` holds.
    pub fn small_sum(&self, limit: usize) -> (r: Option<usize>)
        ensures
            match r {
                Some(v) => v == small_total(self@, limit as nat, self@.len()),
                None => small_total(self@, limit as nat, self@.len()) > usize::MAX,
            },
    {
        let n = self.entries.len();
        let mut sum: usize = 0;
        let mut i: usize = 0;
        while i < n
            invariant
                i <= n == self.entries.len(),
                n == self@.len(),
                sum == small_total(self@, limit as nat, i as nat),
            decreases n - i,
        {
            let size = self.entries[i].1;
            assert(self@[i as int].1 == size);
            if size <= limit {
                match sum.checked_add(size) {
                    Some(s) => {
                        sum = s;
                    },
                    None => {
                        proof {
                            lemma_small_total_grows(
                                self@,
                                limit as nat,
                                (i + 1) as nat,
                                self@.len(),
                            );
                        }
                        return None;
                    },
                }
            }
            i += 1;
        }
        Some(sum)
    }

    /// The least recorded size that is at least `required`, if there is one.
    pub fn least_from(&self, required: usize) -> (r: Option<usize>)
        ensures
            match r {
                Some(v) => is_least_from(self@, required as nat, v as nat),
                None => forall|k: int| 0 <= k < self@.len() ==> (#[trigger] self@[k]).1 < required,
            },
    {
        let n = self.entries.len();
        let mut best: Option<usize> = None;
        let mut i: usize = 0;
        while i < n
            invariant
                i <= n == self.entries.len(),
                n == self@.len(),
                match best {
                    Some(v) => {
                        &&& exists|k: int| 0 <= k < i && #[trigger] self@[k].1 == v
                        &&& v >= required
                        &&& forall|k: int|
                            0 <= k < i && (#[trigger] self@[k]).1 >= required ==> v <= self@[k].1
                    },
                    None => forall|k: int| 0 <= k < i ==> (#[trigger] self@[k]).1 < required,
                },
            decreases n - i,
        {
            let size = self.entries[i].1;
            assert(self@[i as int].1 == size);
            if size >= required {
                let better = match best {
                    Some(v) => size < v,
                    None => true,
                };
                if better {
                    best = Some(size);
                }
            }
            i += 1;
        }
        best
    }
}

/// The names of `path` with a `/` between each two.
pub fn join_path(path: &Vec<Vec<char>>) -> (r: Vec<char>)
    ensures
        r@ == join(views(path@)),
{
    let mut out: Vec<char> = Vec::new();
    let mut i: usize = 0;
    while i < path.len()
        invariant
            i <= path.len(),
            out@ == join(views(path@).take(i as int)),
        decreases path.len() - i,
    {
        let ghost before = out@;
        let ghost upto = views(path@).take(i + 1);
        assert(upto.drop_last() =~= views(path@).take(i as int));
        assert(upto.last() == path[i as int]@);
        if i > 0 {
            out.push('/');
        }
        let name = &path[i];
        let mut j: usize = 0;
        while j < name.len()
            invariant
                j <= name.len(),
                out@ == before + (if i > 0 { seq!['/'] } else { Seq::<char>::empty() }) + name@.take(j as int),
            decreases name.len() - j,
        {
            out.push(name[j]);
            assert(name@.take(j + 1) =~= name@.take(j as int).push(name[j as int]));
            j += 1;
        }
        assert(name@.take(name@.len() as int) =~= name@);
        assert(out@ =~= join(upto));
        i += 1;
    }
    assert(views(path@).take(path@.len() as int) =~= views(path@));
    out
}

/// Walks through the directory `path` from line `pos` on, recording the
/// sizes of the directories that the session leaves, and returns the size of
/// what was listed in the directory and below it.
pub fn traverse(
    cmds: &Vec<Cmd>,
    pos: &mut usize,
    path: &mut Vec<Vec<char>>,
    sizes: &mut Sizes,
) -> (r: Result<usize, Error>)
    requires
        *old(pos) <= cmds.len(),
    ensures
        ({
            let w = walk(
                cmd_views(cmds@),
                *old(pos) as nat,
                views(old(path)@),
                old(sizes)@,
            );
            match r {
                Ok(size) => {
                    &&& size == w.size
                    &&& *final(pos) == w.next
                    &&& *final(pos) <= cmds.len()
                    &&& final(sizes)@ == w.sizes
                    &&& views(final(path)@) == views(old(path)@)
                },
                Err(e) => e == Error::Overflow && w.size > usize::MAX,
            }
        }),
    decreases cmds.len() - *old(pos),
{
    let ghost all = cmd_views(cmds@);
    let ghost here = views(path@);
    let ghost goal = walk(all, *pos as nat, here, sizes@);
    let mut size: usize = 0;
    loop
        invariant
            *old(pos) <= *pos <= cmds.len(),
            all == cmd_views(cmds@),
            here == views(path@),
            here == views(old(path)@),
            goal == walk(cmd_views(cmds@), *old(pos) as nat, views(old(path)@), old(sizes)@),
            goal.size == size + walk(all, *pos as nat, here, sizes@).size,
            goal.next == walk(all, *pos as nat, here, sizes@).next,
            goal.sizes == walk(all, *pos as nat, here, sizes@).sizes,
        decreases cmds.len() - *pos,
    {
        if *pos >= cmds.len() {
            return Ok(size);
        }
        let i = *pos;
        assert(all[i as int] == cmds[i as int]@);
        *pos = i + 1;
        match &cmds[i] {
            Cmd::CdUp => {
                return Ok(size);
            },
            Cmd::Ls => {},
            Cmd::DirInfo(_) => {},
            Cmd::FileInfo(_, s) => {
                match size.checked_add(*s) {
                    Some(sum) => {
                        size = sum;
                    },
                    None => {
                        return Err(Error::Overflow);
                    },
                }
            },
            Cmd::Cd(name) => {
                path.push(name.clone());
                proof {
                    assert(views(path@) =~= here.push(name@));
                    lemma_walk_advances(all, (i + 1) as nat, here.push(name@), sizes@);
                }
                let inner = match traverse(cmds, pos, path, sizes) {
                    Ok(inner) => inner,
                    Err(e) => {
                        return Err(e);
                    },
                };
                let key = join_path(path);
                sizes.insert(key, inner);
                let ghost deeper = path@;
                assert(views(deeper).len() == here.len() + 1);
                path.pop();
                assert(views(path@) =~= views(deeper).drop_last());
                assert(views(path@) =~= here);
                match size.checked_add(inner) {
                    Some(sum) => {
                        size = sum;
                    },
                    None => {
                        return Err(Error::Overflow);
                    },
                }
            },
        }
    }
}

/// Reads the lines of a terminal session.
pub fn parse_session(rows: &Vec<Vec<char>>) -> (r: Result<Vec<Cmd>, Error>)
    ensures
        match r {
            Ok(cmds) => cmds_of(views(rows@), rows@.len()) == Ok::<Seq<CmdView>, Error>(
                cmd_views(cmds@),
            ),
            Err(e) => cmds_of(views(rows@), rows@.len()) == Err::<Seq<CmdView>, Error>(e),
        },
{
    let ghost all = views(rows@);
    let mut out: Vec<Cmd> = Vec::new();
    let mut i: usize = 0;
    assert(cmd_views(out@) =~= Seq::<CmdView>::empty());
    while i < rows.len()
        invariant
            i <= rows.len(),
            all == views(rows@),
            cmds_of(all, i as nat) == Ok::<Seq<CmdView>, Error>(cmd_views(out@)),
        decreases rows.len() - i,
    {
        assert(all[i as int] == rows[i as int]@);
        match Cmd::from_chars(&rows[i]) {
            Err(e) => {
                proof {
                    lemma_cmds_error(all, (i + 1) as nat, all.len());
                }
                return Err(e);
            },
            Ok(c) => {
                let ghost before = out@;
                out.push(c);
                assert(cmd_views(out@) =~= cmd_views(before).push(c@));
            },
        }
        i += 1;
    }
    Ok(out)
}

/// Walks through the whole session that `input` records and returns the
/// size of all that was listed, with the sizes of the directories.
pub fn run_session(input: &str) -> (r: Result<(usize, Sizes), Error>)
    ensures
        match r {
            Ok((size, sizes)) => session(lines(input@)) matches Ok(w) && w.size == size && w.sizes
                == sizes@,
            Err(e) => session(lines(input@)) matches Err(f) && e == f,
        },
{
    let text = chars_of(input);
    let rows = split_lines(&text);
    let cmds = match parse_session(&rows) {
        Ok(cmds) => cmds,
        Err(e) => {
            return Err(e);
        },
    };
    let mut pos: usize = 0;
    let mut path: Vec<Vec<char>> = Vec::new();
    let mut sizes = Sizes::new();
    assert(views(path@) =~= Seq::<Seq<char>>::empty());
    match traverse(&cmds, &mut pos, &mut path, &mut sizes) {
        Ok(size) => Ok((size, sizes)),
        Err(e) => Err(e),
    }
}

/// The sum of the sizes of the directories of at most 100000.
pub fn compute1(input: &str) -> (r: Result<usize, Error>)
    ensures
        match session(lines(input@)) {
            Err(e) => r == Err::<usize, Error>(e),
            Ok(w) => {
                let total = small_total(w.sizes, 100000, w.sizes.len());
                if total > usize::MAX {
                    r == Err::<usize, Error>(Error::Overflow)
                } else {
                    r == Ok::<usize, Error>(total as usize)
                }
            },
        },
{
    match run_session(input) {
        Err(e) => Err(e),
        Ok((_, sizes)) => match sizes.small_sum(100000) {
            Some(total) => Ok(total),
            None => Err(Error::Overflow),
        },
    }
}

/// The size of the smallest directory whose removal leaves 30000000 of
/// 70000000 unused.
pub fn compute2(input: &str) -> (r: Result<usize, Error>)
    ensures
        match session(lines(input@)) {
            Err(e) => r == Err::<usize, Error>(e),
            Ok(w) => match r {
                Ok(v) => is_least_from(w.sizes, shortfall(w.size), v as nat),
                Err(e) => e == Error::NoDirectory && forall|k: int|
                    0 <= k < w.sizes.len() ==> (#[trigger] w.sizes[k]).1 < shortfall(w.size),
            },
        },
{
    match run_session(input) {
        Err(e) => Err(e),
        Ok((used, sizes)) => {
            let required = if used >= 40000000 {
                used - 40000000
            } else {
                0
            };
            match sizes.least_from(required) {
                Some(v) => Ok(v),
                None => Err(Error::NoDirectory),
            }
        },
    }
}

} // verus!
