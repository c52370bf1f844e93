//! Walk decisions and core types.
//!
//! The walk itself probes the filesystem, which the library leaves to its
//! caller: [`Walker`] decides, from what each probe saw, what to do next and
//! which hits to report, while the caller performs the probes.

use vstd::prelude::*;
use vstd::string::StringExecFns;

use crate::boundary::{resolve_default, root_path, root_slice, default_boundary};
use crate::bytes::{bytes_eq, contains_byte, extend_bytes, slice_to_vec, last_index_of, lemma_last_index_of, lemma_last_index_of_prefix, SLASH};

verus! {

/// What to look for and how to report it.
#[derive(Debug, Clone)]
pub struct Query<'a> {
    pub path: &'a [u8],
    pub all: bool,
    pub echo: bool,
    pub kind_filter: Option<KindFilter>,
    pub follow: bool,
    pub null_terminate: bool,
    pub relative: bool,
}

impl<'a> Query<'a> {
    /// A query for `path` with the default settings: first hit only, paths
    /// reported, any kind of entry, symlinks followed, newline-terminated,
    /// absolute output.
    pub fn new(path: &'a [u8]) -> (q: Self)
        ensures
            q.path@ == path@,
            !q.all,
            !q.echo,
            q.kind_filter is None,
            q.follow,
            !q.null_terminate,
            !q.relative,
    {
        Query {
            path,
            all: false,
            echo: false,
            kind_filter: None,
            follow: true,
            null_terminate: false,
            relative: false,
        }
    }
}

/// Restricts matches to one kind of entry.
#[derive(Debug, Copy, Clone, PartialEq, Eq, Structural)]
pub enum KindFilter {
    Files,
    Dirs,
}

/// Where the walk stops (inclusive).
#[derive(Debug, Copy, Clone, PartialEq, Eq, Structural)]
pub enum Boundary {
    Home,
    Git,
    Root,
}

/// One reported match.
#[derive(Debug, PartialEq, Eq)]
pub enum Hit {
    Path(Vec<u8>),
    Contents(Vec<u8>),
}

/// Why a lookup produced no hits.
#[derive(Debug)]
pub enum LupError {
    NoMatch,
    NotInGitRepo,
    UsageError(String),
    Io(std::io::Error),
}

/// The standard library's I/O error, carried through unchanged by
/// [`LupError::Io`].
#[verifier::external_type_specification]
#[verifier::external_body]
pub struct ExIoError(std::io::Error);

impl From<std::io::Error> for LupError {
    fn from(e: std::io::Error) -> (r: Self) {
        LupError::Io(e)
    }
}

impl vstd::std_specs::convert::FromSpecImpl<std::io::Error> for LupError {
    open spec fn obeys_from_spec() -> bool {
        true
    }

    open spec fn from_spec(v: std::io::Error) -> Self {
        LupError::Io(v)
    }
}

/// The process exit code that reports an error.
pub open spec fn exit_code_spec(e: LupError) -> u8 {
    match e {
        LupError::NoMatch => 1,
        LupError::UsageError(_) => 2,
        LupError::NotInGitRepo => 3,
        LupError::Io(_) => 4,
    }
}

impl LupError {
    /// Exit code: 1 no match, 2 usage error, 3 `-g` outside a git
    /// repository, 4 I/O error.
    pub fn exit_code(&self) -> (r: u8)
        ensures
            r == exit_code_spec(*self),
    {
        match self {
            LupError::NoMatch => 1,
            LupError::UsageError(_) => 2,
            LupError::NotInGitRepo => 3,
            LupError::Io(_) => 4,
        }
    }
}

/// `dir + "/" + component`, without doubling a `/` that `dir` already ends with.
pub open spec fn join_path(dir: Seq<u8>, component: Seq<u8>) -> Seq<u8> {
    if dir.len() > 0 && dir.last() != SLASH {
        dir.push(SLASH) + component
    } else {
        dir + component
    }
}

/// The parent of `p`: `p` without its last `/component`; `None` for `/`, for
/// the empty path and for a path without `/`.
pub open spec fn parent_path(p: Seq<u8>) -> Option<Seq<u8>> {
    let i = last_index_of(p, SLASH);
    if p.len() == 0 || p == root_path() || i < 0 {
        None
    } else if i == 0 {
        Some(p.subrange(0, 1))
    } else {
        Some(p.subrange(0, i))
    }
}

/// `dst = dst + "/" + component`, with leading-slash dedup so we don't produce `//x`.
pub fn push_component(dst: &mut Vec<u8>, component: &[u8])
    ensures
        final(dst)@ == join_path(old(dst)@, component@),
{
    if dst.len() > 0 && dst[dst.len() - 1] != SLASH {
        dst.push(SLASH);
    }
    extend_bytes(dst, component);
}

/// Remove the last `/component` from `dst`. Returns false if `dst` was already `/` or empty.
pub fn pop_component(dst: &mut Vec<u8>) -> (r: bool)
    ensures
        r == parent_path(old(dst)@) is Some,
        r ==> final(dst)@ == parent_path(old(dst)@).unwrap(),
        !r ==> final(dst)@ == old(dst)@,
{
    let len = dst.len();
    if len == 0 {
        return false;
    }
    if len == 1 && dst[0] == SLASH {
        assert(dst@ =~= root_path());
        return false;
    }
    assert(dst@ != root_path()) by {
        if dst@ == root_path() {
            assert(dst@[0] == SLASH);
        }
    }
    let ghost p = dst@;
    let mut i: usize = len;
    while i > 0 && dst[i - 1] != SLASH
        invariant
            i <= len,
            len == dst@.len(),
            dst@ == p,
            forall|j: int| i <= j < len ==> p[j] != SLASH,
        decreases i,
    {
        i = i - 1;
    }
    proof {
        lemma_last_index_of_prefix(p, SLASH, i as int);
        if i > 0 {
            assert(p.subrange(0, i as int).last() == SLASH);
        } else {
            assert(p.subrange(0, 0).len() == 0);
        }
    }
    if i == 0 {
        return false;
    }
    let pos = i - 1;
    if pos == 0 {
        dst.truncate(1);
    } else {
        dst.truncate(pos);
    }
    true
}

/// Popping a component undoes pushing one: for a non-empty `dir` that does
/// not end in `/` (unless it is `/` itself) and a non-empty `component`
/// without `/`, the parent of `dir/component` is `dir`.
pub proof fn lemma_pop_undoes_push(dir: Seq<u8>, component: Seq<u8>)
    requires
        dir.len() > 0,
        dir.last() == SLASH ==> dir == root_path(),
        component.len() > 0,
        !component.contains(SLASH),
    ensures
        parent_path(join_path(dir, component)) == Some(dir),
{
    let j = join_path(dir, component);
    let base = if dir.last() != SLASH { dir.push(SLASH) } else { dir };
    assert(j =~= base + component);
    assert forall|k: int| base.len() <= k < j.len() implies j[k] != SLASH by {
        assert(j[k] == component[k - base.len()]);
    }
    lemma_last_index_of_prefix(j, SLASH, base.len() as int);
    assert(j.subrange(0, base.len() as int) =~= base);
    assert(base.last() == SLASH);
    assert(last_index_of(base, SLASH) == base.len() - 1);
    assert(j != root_path()) by {
        assert(j.len() > 1);
    }
    if dir.last() != SLASH {
        assert(j.subrange(0, base.len() - 1) =~= dir);
    } else {
        assert(dir =~= root_path()) by {
            assert(dir == root_path());
        }
        assert(j.subrange(0, 1) =~= dir);
    }
}

/// A parent is strictly shorter than its child, so every walk upward ends.
pub proof fn lemma_parent_shorter(p: Seq<u8>)
    requires
        parent_path(p) is Some,
    ensures
        parent_path(p).unwrap().len() < p.len(),
        0 < parent_path(p).unwrap().len(),
{
    lemma_last_index_of(p, SLASH);
    if last_index_of(p, SLASH) == 0 {
        assert(p.len() > 1) by {
            if p.len() == 1 {
                assert(p =~= root_path());
            }
        }
    }
}

/// The `k`-th ancestor of `p`: `p` itself for `k == 0`, then parent after
/// parent; `None` once the root has been passed.
pub open spec fn ancestor(p: Seq<u8>, k: nat) -> Option<Seq<u8>>
    decreases k,
{
    if k == 0 {
        Some(p)
    } else {
        match ancestor(p, (k - 1) as nat) {
            Some(a) => parent_path(a),
            None => None,
        }
    }
}

/// The kind of entry that a probe found.
#[derive(Debug, Copy, Clone, PartialEq, Eq, Structural)]
pub enum EntryKind {
    File,
    Dir,
    Other,
}

/// A probe's finding (`None`: nothing there) passes the kind filter.
pub open spec fn probe_matches_spec(filter: Option<KindFilter>, found: Option<EntryKind>) -> bool {
    match found {
        None => false,
        Some(kind) => match filter {
            None => true,
            Some(KindFilter::Files) => kind == EntryKind::File,
            Some(KindFilter::Dirs) => kind == EntryKind::Dir,
        },
    }
}

/// Whether a probe's finding counts as a match under `filter`.
pub fn probe_matches(filter: Option<KindFilter>, found: Option<EntryKind>) -> (r: bool)
    ensures
        r == probe_matches_spec(filter, found),
        found is None ==> !r,
        filter is None ==> r == found is Some,
        filter == Some(KindFilter::Files) ==> r == (found == Some(EntryKind::File)),
        filter == Some(KindFilter::Dirs) ==> r == (found == Some(EntryKind::Dir)),
{
    match found {
        None => false,
        Some(kind) => match filter {
            None => true,
            Some(KindFilter::Files) => kind == EntryKind::File,
            Some(KindFilter::Dirs) => kind == EntryKind::Dir,
        },
    }
}

/// How the caller probes the query in each directory.
#[derive(Debug, Copy, Clone, PartialEq, Eq, Structural)]
pub struct ProbeMode {
    /// Symbolic links are followed; otherwise the link itself is the candidate.
    pub follow: bool,
    /// Existence alone decides a match: no kind filter applies, links are
    /// followed, and the entry's kind need not be found.
    pub existence_only: bool,
}

/// The probe that `query` asks for: links followed as `follow` says (`-L`
/// by default, `-P` to match the link itself), and an existence check only
/// when links are followed and no kind filter applies.
pub fn probe_mode(query: &Query) -> (m: ProbeMode)
    ensures
        m.follow == query.follow,
        m.existence_only == (query.follow && query.kind_filter is None),
{
    ProbeMode { follow: query.follow, existence_only: query.follow && query.kind_filter.is_none() }
}

/// What the caller of a [`Walker`] does next.
#[derive(Debug, Copy, Clone, PartialEq, Eq, Structural)]
pub enum WalkStep {
    /// Probe the query in the current directory and report with `probed`.
    Probe,
    /// Read the matched file and hand its bytes to `contents_read`.
    ReadContents,
    /// Open the parent directory and report with `ascended`.
    Ascend,
    /// The walk is over: call `finish`.
    Finish,
}

/// The positions of `true` in `seen`, in increasing order.
pub open spec fn match_depths(seen: Seq<bool>) -> Seq<int>
    decreases seen.len(),
{
    if seen.len() == 0 {
        Seq::empty()
    } else if seen.last() {
        match_depths(seen.drop_last()).push(seen.len() - 1)
    } else {
        match_depths(seen.drop_last())
    }
}

/// The boundary that a walk from `pwd` stops at, or `None` for `-g` outside a
/// git repository.
pub open spec fn boundary_spec(
    boundary: Boundary,
    pwd: Seq<u8>,
    home: Option<Seq<u8>>,
    git_root: Option<Seq<u8>>,
) -> Option<Seq<u8>> {
    match boundary {
        Boundary::Home => match home {
            Some(h) => Some(default_boundary(pwd, h)),
            None => Some(root_path()),
        },
        Boundary::Root => Some(root_path()),
        Boundary::Git => git_root,
    }
}

/// The bytes of an optional slice.
pub open spec fn opt_bytes(o: Option<&[u8]>) -> Option<Seq<u8>> {
    match o {
        Some(b) => Some(b@),
        None => None,
    }
}

/// The message of the usage error for a query holding a NUL byte.
pub open spec fn nul_query_message() -> Seq<char> {
    "query contains NUL byte"@
}

/// The decisions of one upward walk from the working directory.
///
/// The caller probes `query` in the directory the walk is at and reports what
/// it found; the walker records hits and says whether to read the matched
/// file, go up one level, or stop. The walk stops after the first hit unless
/// `all` is set, after probing the boundary directory, or at the top.
pub struct Walker {
    query: Vec<u8>,
    all: bool,
    echo: bool,
    kind_filter: Option<KindFilter>,
    boundary: Vec<u8>,
    current: Vec<u8>,
    hits: Vec<Hit>,
    next: WalkStep,
    pwd: Ghost<Seq<u8>>,
    depth: Ghost<nat>,
    seen: Ghost<Seq<bool>>,
}

impl Walker {
    /// The directory the walk started from.
    pub closed spec fn pwd(&self) -> Seq<u8> {
        self.pwd@
    }

    /// The directory the walk stops at, inclusive.
    pub closed spec fn boundary_path(&self) -> Seq<u8> {
        self.boundary@
    }

    /// The query, relative to each directory probed.
    pub closed spec fn query_path(&self) -> Seq<u8> {
        self.query@
    }

    pub closed spec fn all(&self) -> bool {
        self.all
    }

    pub closed spec fn echo(&self) -> bool {
        self.echo
    }

    pub closed spec fn kind_filter(&self) -> Option<KindFilter> {
        self.kind_filter
    }

    /// The directory the walk is at.
    pub closed spec fn current_dir(&self) -> Seq<u8> {
        self.current@
    }

    /// How many levels above the start the walk is.
    pub closed spec fn depth(&self) -> nat {
        self.depth@
    }

    /// For each directory probed so far, closest first, whether it matched.
    pub closed spec fn seen(&self) -> Seq<bool> {
        self.seen@
    }

    /// The hits recorded so far, closest first.
    pub closed spec fn hits(&self) -> Seq<Hit> {
        self.hits@
    }

    /// What the caller is to do next.
    pub closed spec fn next_step(&self) -> WalkStep {
        self.next
    }

    /// The matches whose hit has been recorded: all of them, but for one
    /// whose contents are still to be read.
    pub open spec fn recorded(&self) -> Seq<bool> {
        if self.next_step() == WalkStep::ReadContents {
            self.seen().drop_last()
        } else {
            self.seen()
        }
    }

    /// `h` is the hit reported for a match in directory `dir`.
    pub open spec fn is_hit_for(&self, h: Hit, dir: Seq<u8>) -> bool {
        if self.echo() {
            h is Contents
        } else {
            h matches Hit::Path(p) && p@ == join_path(dir, self.query_path())
        }
    }

    /// The walk's invariant.
    pub open spec fn wf(&self) -> bool {
        &&& ancestor(self.pwd(), self.depth()) == Some(self.current_dir())
        &&& forall|j: nat|
            j < self.depth() ==> #[trigger] ancestor(self.pwd(), j) is Some && ancestor(
                self.pwd(),
                j,
            ).unwrap() != self.boundary_path()
        &&& if self.next_step() == WalkStep::Probe {
            self.seen().len() == self.depth()
        } else {
            self.seen().len() == self.depth() + 1
        }
        &&& self.hits().len() == match_depths(self.recorded()).len()
        &&& forall|i: int|
            0 <= i < self.hits().len() ==> self.is_hit_for(
                #[trigger] self.hits()[i],
                ancestor(self.pwd(), match_depths(self.recorded())[i] as nat).unwrap(),
            )
        &&& self.next_step() == WalkStep::ReadContents ==> self.echo() && self.seen().last()
        &&& !self.all() ==> match_depths(self.seen()).len() <= 1
        &&& !self.all() && match_depths(self.seen()).len() == 1 ==> (self.next_step()
            == WalkStep::ReadContents || self.next_step() == WalkStep::Finish)
        &&& !self.all() && match_depths(self.seen()).len() == 1 ==> self.seen().last()
        &&& self.next_step() == WalkStep::Ascend ==> self.current_dir() != self.boundary_path()
        &&& self.next_step() == WalkStep::Finish ==> {
            ||| self.seen().last() && !self.all()
            ||| self.current_dir() == self.boundary_path()
            ||| parent_path(self.current_dir()) is None
        }
    }

    /// Starts a walk for `query` from `pwd`, with the boundary that `boundary`
    /// selects: HOME or `/` by the default rule (`/` when HOME is unknown),
    /// `/`, or the git root that the caller found (`NotInGitRepo` when it
    /// found none). A query holding a NUL byte is a usage error.
    pub fn start(
        query: &Query,
        boundary: Boundary,
        pwd: &[u8],
        home: Option<&[u8]>,
        git_root: Option<&[u8]>,
    ) -> (r: Result<Walker, LupError>)
        ensures
            r matches Ok(w) ==> {
                &&& w.wf()
                &&& w.next_step() == WalkStep::Probe
                &&& w.pwd() == pwd@
                &&& w.current_dir() == pwd@
                &&& w.depth() == 0
                &&& w.seen() == Seq::<bool>::empty()
                &&& w.hits() == Seq::<Hit>::empty()
                &&& w.query_path() == query.path@
                &&& w.all() == query.all
                &&& w.echo() == query.echo
                &&& w.kind_filter() == query.kind_filter
                &&& Some(w.boundary_path()) == boundary_spec(
                    boundary,
                    pwd@,
                    opt_bytes(home),
                    opt_bytes(git_root),
                )
            },
            r is Ok <==> boundary_spec(
                boundary,
                pwd@,
                opt_bytes(home),
                opt_bytes(git_root),
            ) is Some && !query.path@.contains(0u8),
            r matches Err(e) ==> if boundary == Boundary::Git && git_root is None {
                e is NotInGitRepo
            } else {
                e matches LupError::UsageError(m) && m@ == nul_query_message()
            },
    {
        let boundary_bytes: Vec<u8> = match boundary {
            Boundary::Home => match home {
                Some(h) => slice_to_vec(resolve_default(pwd, h)),
                None => slice_to_vec(root_slice()),
            },
            Boundary::Root => slice_to_vec(root_slice()),
            Boundary::Git => match git_root {
                Some(g) => slice_to_vec(g),
                None => return Err(LupError::NotInGitRepo),
            },
        };
        if contains_byte(query.path, 0u8) {
            return Err(LupError::UsageError(String::from_str("query contains NUL byte")));
        }
        let w = Walker {
            query: slice_to_vec(query.path),
            all: query.all,
            echo: query.echo,
            kind_filter: query.kind_filter,
            boundary: boundary_bytes,
            current: slice_to_vec(pwd),
            hits: Vec::new(),
            next: WalkStep::Probe,
            pwd: Ghost(pwd@),
            depth: Ghost(0),
            seen: Ghost(Seq::empty()),
        };
        assert(w.recorded() =~= Seq::<bool>::empty());
        Ok(w)
    }

    /// After a probe, the step that follows a match at the current directory
    /// (when `matched`) or its absence: stop after the first hit unless
    /// `all`, stop at the boundary, go up otherwise.
    pub open spec fn step_after(&self, matched: bool) -> WalkStep {
        if matched && !self.all() {
            WalkStep::Finish
        } else if self.current_dir() == self.boundary_path() {
            WalkStep::Finish
        } else {
            WalkStep::Ascend
        }
    }

    /// Reports what the probe in the current directory found (`None`:
    /// nothing). A match is recorded as a hit, or, with `echo`, first read.
    pub fn probed(&mut self, found: Option<EntryKind>) -> (r: WalkStep)
        requires
            old(self).wf(),
            old(self).next_step() == WalkStep::Probe,
        ensures
            final(self).wf(),
            r == final(self).next_step(),
            ({
                let m = probe_matches_spec(old(self).kind_filter(), found);
                &&& final(self).seen() == old(self).seen().push(m)
                &&& if m && old(self).echo() {
                    &&& r == WalkStep::ReadContents
                    &&& final(self).hits() == old(self).hits()
                } else {
                    &&& r == old(self).step_after(m)
                    &&& m ==> {
                        &&& final(self).hits().len() == old(self).hits().len() + 1
                        &&& final(self).hits().drop_last() == old(self).hits()
                        &&& final(self).hits().last() matches Hit::Path(p)
                        &&& p@ == join_path(old(self).current_dir(), old(self).query_path())
                    }
                    &&& !m ==> final(self).hits() == old(self).hits()
                }
            }),
            final(self).current_dir() == old(self).current_dir(),
            final(self).depth() == old(self).depth(),
            final(self).unchanged_but_progress(*old(self)),
    {
        let m = probe_matches(self.kind_filter, found);
        let ghost old_self = *self;
        self.seen = Ghost(self.seen@.push(m));
        proof {
            assert(self.seen@.drop_last() =~= old_self.seen@);
        }
        if m && self.echo {
            self.next = WalkStep::ReadContents;
            return WalkStep::ReadContents;
        }
        if m {
            let mut p = slice_to_vec(self.current.as_slice());
            push_component(&mut p, self.query.as_slice());
            self.hits.push(Hit::Path(p));
        }
        let r = if m && !self.all {
            WalkStep::Finish
        } else if bytes_eq(self.current.as_slice(), self.boundary.as_slice()) {
            WalkStep::Finish
        } else {
            WalkStep::Ascend
        };
        self.next = r;
        proof {
            assert(self.recorded() == self.seen());
            if m {
                assert(self.hits@.drop_last() =~= old_self.hits@);
                assert forall|i: int| 0 <= i < self.hits().len() implies self.is_hit_for(
                    #[trigger] self.hits()[i],
                    ancestor(self.pwd(), match_depths(self.recorded())[i] as nat).unwrap(),
                ) by {
                    if i < old_self.hits().len() {
                        assert(self.hits()[i] == old_self.hits()[i]);
                    }
                }
            } else {
                assert forall|i: int| 0 <= i < self.hits().len() implies self.is_hit_for(
                    #[trigger] self.hits()[i],
                    ancestor(self.pwd(), match_depths(self.recorded())[i] as nat).unwrap(),
                ) by {
                    assert(self.hits()[i] == old_self.hits()[i]);
                }
            }
        }
        r
    }

    /// The fields that no step changes stay as they were.
    pub open spec fn unchanged_but_progress(&self, before: Walker) -> bool {
        &&& self.pwd() == before.pwd()
        &&& self.boundary_path() == before.boundary_path()
        &&& self.query_path() == before.query_path()
        &&& self.all() == before.all()
        &&& self.echo() == before.echo()
        &&& self.kind_filter() == before.kind_filter()
    }

    /// Hands over the contents of the file matched in the current directory.
    pub fn contents_read(&mut self, contents: Vec<u8>) -> (r: WalkStep)
        requires
            old(self).wf(),
            old(self).next_step() == WalkStep::ReadContents,
        ensures
            final(self).wf(),
            r == final(self).next_step(),
            r == old(self).step_after(true),
            final(self).seen() == old(self).seen(),
            final(self).current_dir() == old(self).current_dir(),
            final(self).depth() == old(self).depth(),
            final(self).hits() == old(self).hits().push(Hit::Contents(contents)),
            final(self).unchanged_but_progress(*old(self)),
    {
        let ghost old_self = *self;
        self.hits.push(Hit::Contents(contents));
        let r = if !self.all {
            WalkStep::Finish
        } else if bytes_eq(self.current.as_slice(), self.boundary.as_slice()) {
            WalkStep::Finish
        } else {
            WalkStep::Ascend
        };
        self.next = r;
        proof {
            assert(self.seen@.drop_last().push(true) =~= self.seen@);
            assert(self.recorded() == self.seen());
            assert forall|i: int| 0 <= i < self.hits().len() implies self.is_hit_for(
                #[trigger] self.hits()[i],
                ancestor(self.pwd(), match_depths(self.recorded())[i] as nat).unwrap(),
            ) by {
                if i < old_self.hits().len() {
                    assert(self.hits()[i] == old_self.hits()[i]);
                }
            }
        }
        r
    }

    /// Reports that the parent directory has been opened: the walk moves up
    /// one level, or stops when the current directory has no parent.
    pub fn ascended(&mut self) -> (r: WalkStep)
        requires
            old(self).wf(),
            old(self).next_step() == WalkStep::Ascend,
        ensures
            final(self).wf(),
            r == final(self).next_step(),
            final(self).seen() == old(self).seen(),
            final(self).hits() == old(self).hits(),
            parent_path(old(self).current_dir()) is Some ==> {
                &&& r == WalkStep::Probe
                &&& final(self).current_dir() == parent_path(old(self).current_dir()).unwrap()
                &&& final(self).depth() == old(self).depth() + 1
            },
            parent_path(old(self).current_dir()) is None ==> {
                &&& r == WalkStep::Finish
                &&& final(self).current_dir() == old(self).current_dir()
                &&& final(self).depth() == old(self).depth()
            },
            final(self).unchanged_but_progress(*old(self)),
    {
        let ghost old_self = *self;
        if pop_component(&mut self.current) {
            self.depth = Ghost(self.depth@ + 1);
            self.next = WalkStep::Probe;
            proof {
                assert forall|j: nat| j < self.depth() implies #[trigger] ancestor(
                    self.pwd(),
                    j,
                ) is Some && ancestor(self.pwd(), j).unwrap() != self.boundary_path() by {
                    if j < old_self.depth() {
                    } else {
                        assert(j == old_self.depth());
                    }
                }
                assert forall|i: int| 0 <= i < self.hits().len() implies self.is_hit_for(
                    #[trigger] self.hits()[i],
                    ancestor(self.pwd(), match_depths(self.recorded())[i] as nat).unwrap(),
                ) by {
                    assert(old_self.is_hit_for(
                        old_self.hits()[i],
                        ancestor(old_self.pwd(), match_depths(old_self.recorded())[i] as nat).unwrap(),
                    ));
                }
            }
            WalkStep::Probe
        } else {
            self.next = WalkStep::Finish;
            proof {
                assert forall|i: int| 0 <= i < self.hits().len() implies self.is_hit_for(
                    #[trigger] self.hits()[i],
                    ancestor(self.pwd(), match_depths(self.recorded())[i] as nat).unwrap(),
                ) by {
                    assert(old_self.is_hit_for(
                        old_self.hits()[i],
                        ancestor(old_self.pwd(), match_depths(old_self.recorded())[i] as nat).unwrap(),
                    ));
                }
            }
            WalkStep::Finish
        }
    }

    /// The outcome of a finished walk: the hits, closest first, or `NoMatch`
    /// when there are none.
    pub fn finish(self) -> (r: Result<Vec<Hit>, LupError>)
        requires
            self.wf(),
            self.next_step() == WalkStep::Finish,
        ensures
            self.hits().len() == 0 ==> (r matches Err(e) && e is NoMatch),
            self.hits().len() > 0 ==> (r matches Ok(h) && h@ == self.hits()),
    {
        if self.hits.len() == 0 {
            Err(LupError::NoMatch)
        } else {
            Ok(self.hits)
        }
    }

    /// The directory where the first hit was found, once a walk for the
    /// first hit only has finished; `None` without a hit.
    pub fn hit_dir(&self) -> (r: Option<&[u8]>)
        requires
            self.wf(),
            self.next_step() == WalkStep::Finish,
            !self.all(),
        ensures
            r is Some <==> self.hits().len() > 0,
            r matches Some(d) ==> d@ == self.current_dir() && Some(d@) == ancestor(
                self.pwd(),
                match_depths(self.seen())[0] as nat,
            ),
    {
        proof {
            lemma_finished_hits(*self);
        }
        if self.hits.len() > 0 {
            Some(self.current.as_slice())
        } else {
            None
        }
    }

    /// The directory the walk is at.
    pub fn current(&self) -> (r: &[u8])
        ensures
            r@ == self.current_dir(),
    {
        self.current.as_slice()
    }

    /// What the caller is to do next.
    pub fn step(&self) -> (r: WalkStep)
        ensures
            r == self.next_step(),
    {
        self.next
    }
}

/// Ancestors exist up to any existing one, and each is strictly shorter
/// than the ones below it.
pub proof fn lemma_ancestor_chain(p: Seq<u8>, k: nat)
    requires
        ancestor(p, k) is Some,
    ensures
        forall|j: nat| j <= k ==> #[trigger] ancestor(p, j) is Some,
        forall|j: nat|
            j < k ==> ancestor(p, k).unwrap().len() < (#[trigger] ancestor(p, j)).unwrap().len(),
        k > 0 ==> ancestor(p, k).unwrap().len() + k <= p.len(),
    decreases k,
{
    if k > 0 {
        let k1 = (k - 1) as nat;
        assert(ancestor(p, k1) is Some);
        lemma_ancestor_chain(p, k1);
        lemma_parent_shorter(ancestor(p, k1).unwrap());
        assert forall|j: nat| j <= k implies #[trigger] ancestor(p, j) is Some by {
            if j < k {
                assert(j <= k1);
            }
        }
        assert forall|j: nat| j < k implies ancestor(p, k).unwrap().len() < (
        #[trigger] ancestor(p, j)).unwrap().len() by {
            if j < k1 {
                assert(ancestor(p, k1).unwrap().len() < ancestor(p, j).unwrap().len());
            }
        }
    }
}

/// The positions that `match_depths` lists are exactly the positions of
/// `true`, in strictly increasing order.
pub proof fn lemma_match_depths(seen: Seq<bool>)
    ensures
        forall|i: int|
            0 <= i < match_depths(seen).len() ==> 0 <= #[trigger] match_depths(seen)[i] < seen.len()
                && seen[match_depths(seen)[i]],
        forall|i: int, j: int|
            0 <= i < j < match_depths(seen).len() ==> match_depths(seen)[i] < match_depths(
                seen,
            )[j],
        forall|k: int|
            0 <= k < seen.len() && #[trigger] seen[k] ==> exists|i: int|
                0 <= i < match_depths(seen).len() && match_depths(seen)[i] == k,
    decreases seen.len(),
{
    if seen.len() > 0 {
        let s0 = seen.drop_last();
        lemma_match_depths(s0);
        let m = match_depths(seen);
        let m0 = match_depths(s0);
        assert forall|i: int| 0 <= i < m.len() implies 0 <= #[trigger] m[i] < seen.len()
            && seen[m[i]] by {
            if i < m0.len() {
                assert(m[i] == m0[i]);
                assert(seen[m0[i]] == s0[m0[i]]);
            }
        }
        assert forall|k: int| 0 <= k < seen.len() && #[trigger] seen[k] implies exists|i: int|
            0 <= i < m.len() && m[i] == k by {
            if k < seen.len() - 1 {
                assert(s0[k]);
                let i = choose|i: int| 0 <= i < m0.len() && m0[i] == k;
                assert(m[i] == k);
            } else {
                assert(m[m.len() - 1] == k);
            }
        }
    }
}

/// The walk never goes above its boundary: when the boundary is the `b`-th
/// ancestor of the starting directory, the walk is never more than `b` levels up.
pub proof fn lemma_walk_within_boundary(w: Walker, b: nat)
    requires
        w.wf(),
        ancestor(w.pwd(), b) == Some(w.boundary_path()),
    ensures
        w.depth() <= b,
{
    if w.depth() > b {
        assert(ancestor(w.pwd(), b) is Some && ancestor(w.pwd(), b).unwrap()
            != w.boundary_path());
    }
}

/// Every walk ends: it probes at most as many directories as the starting
/// path has bytes.
pub proof fn lemma_walk_bounded(w: Walker)
    requires
        w.wf(),
    ensures
        w.depth() == 0 || w.depth() < w.pwd().len(),
{
    lemma_ancestor_chain(w.pwd(), w.depth());
    if w.depth() > 0 {
        lemma_parent_shorter(ancestor(w.pwd(), (w.depth() - 1) as nat).unwrap());
    }
}

/// The boundary is inclusive: a walk that no hit cut short has probed every
/// directory from the start up to and including the boundary.
pub proof fn lemma_boundary_inclusive(w: Walker, b: nat)
    requires
        w.wf(),
        w.next_step() == WalkStep::Finish,
        ancestor(w.pwd(), b) == Some(w.boundary_path()),
        w.all() || match_depths(w.seen()).len() == 0,
    ensures
        w.seen().len() == b + 1,
{
    lemma_walk_within_boundary(w, b);
    lemma_ancestor_chain(w.pwd(), b);
    lemma_match_depths(w.seen());
    if !w.all() && w.seen().last() {
        assert(w.seen()[w.seen().len() - 1]);
    }
    if w.depth() < b {
        if w.current_dir() == w.boundary_path() {
            assert(ancestor(w.pwd(), b).unwrap().len() < ancestor(w.pwd(), w.depth()).unwrap().len());
        } else {
            assert(parent_path(w.current_dir()) is None);
            assert(ancestor(w.pwd(), w.depth() + 1) is None);
            assert(ancestor(w.pwd(), w.depth() + 1) is Some);
        }
    }
}

/// A finished walk reports, closest first, one hit for each probed
/// directory where the query matched, and for only the first of them
/// unless `all` is set.
pub proof fn lemma_finished_hits(w: Walker)
    requires
        w.wf(),
        w.next_step() == WalkStep::Finish,
    ensures
        w.hits().len() == match_depths(w.seen()).len(),
        forall|i: int|
            0 <= i < w.hits().len() ==> w.is_hit_for(
                #[trigger] w.hits()[i],
                ancestor(w.pwd(), match_depths(w.seen())[i] as nat).unwrap(),
            ),
        forall|i: int, j: int|
            0 <= i < j < w.hits().len() ==> match_depths(w.seen())[i] < match_depths(w.seen())[j],
        forall|k: int|
            0 <= k < w.seen().len() && #[trigger] w.seen()[k] ==> exists|i: int|
                0 <= i < w.hits().len() && match_depths(w.seen())[i] == k,
        !w.all() ==> w.hits().len() <= 1,
        !w.all() && w.hits().len() == 1 ==> match_depths(w.seen())[0] == w.seen().len() - 1,
{
    lemma_match_depths(w.seen());
    if !w.all() && w.hits().len() == 1 {
        let s = w.seen();
        let m = match_depths(s);
        if m[0] != s.len() - 1 {
            if s.last() {
                assert(s[s.len() - 1]);
                let i = choose|i: int| 0 <= i < m.len() && m[i] == s.len() - 1;
                assert(i == 0);
            }
        }
    }
}

/// A path component: non-empty and free of `/`.
pub open spec fn is_component(c: Seq<u8>) -> bool {
    c.len() > 0 && !c.contains(SLASH)
}

/// Every entry of `cs` is a path component.
pub open spec fn all_components(cs: Seq<Seq<u8>>) -> bool {
    forall|i: int| 0 <= i < cs.len() ==> is_component(#[trigger] cs[i])
}

/// The normalized absolute path with components `cs`: `/` for none,
/// `/c1/c2/...` otherwise.
pub open spec fn path_of(cs: Seq<Seq<u8>>) -> Seq<u8>
    decreases cs.len(),
{
    if cs.len() == 0 {
        root_path()
    } else {
        join_path(path_of(cs.drop_last()), cs.last())
    }
}

/// A normalized path is non-empty and ends in `/` only when it is `/`.
pub proof fn lemma_path_of_shape(cs: Seq<Seq<u8>>)
    requires
        all_components(cs),
    ensures
        path_of(cs).len() > 0,
        path_of(cs)[0] == SLASH,
        path_of(cs).last() == SLASH ==> path_of(cs) == root_path(),
        cs.len() > 0 ==> path_of(cs) != root_path(),
    decreases cs.len(),
{
    if cs.len() > 0 {
        let prev = cs.drop_last();
        assert(all_components(prev)) by {
            assert forall|i: int| 0 <= i < prev.len() implies is_component(#[trigger] prev[i]) by {
                assert(prev[i] == cs[i]);
            }
        }
        lemma_path_of_shape(prev);
        let c = cs.last();
        assert(is_component(cs[cs.len() - 1]));
        let p = path_of(cs);
        let base = if path_of(prev).last() != SLASH { path_of(prev).push(SLASH) } else { path_of(prev) };
        assert(p =~= base + c);
        assert(p.last() == c.last());
        assert(c.contains(c.last()) ==> c.last() != SLASH) by {
            if c.last() == SLASH {
                assert(c.contains(SLASH)) by { assert(c[c.len() - 1] == SLASH); }
            }
        }
        assert(c.contains(c[c.len() - 1]));
        assert(p[0] == base[0]);
        assert(p.len() > 1);
    }
}

/// Walking up a normalized path visits the paths of its leading components:
/// its `k`-th ancestor has the first `n - k` of its `n` components, and there
/// is none above `/`.
pub proof fn lemma_ancestor_of_path(cs: Seq<Seq<u8>>, k: nat)
    requires
        all_components(cs),
    ensures
        k <= cs.len() ==> ancestor(path_of(cs), k) == Some(path_of(cs.take(cs.len() - k))),
        k > cs.len() ==> ancestor(path_of(cs), k) is None,
    decreases k,
{
    if k > 0 {
        let k1 = (k - 1) as nat;
        lemma_ancestor_of_path(cs, k1);
        if k1 <= cs.len() {
            let a = cs.take(cs.len() - k1);
            assert(all_components(a)) by {
                assert forall|i: int| 0 <= i < a.len() implies is_component(#[trigger] a[i]) by {
                    assert(a[i] == cs[i]);
                }
            }
            if a.len() > 0 {
                let prev = a.drop_last();
                assert(all_components(prev)) by {
                    assert forall|i: int| 0 <= i < prev.len() implies is_component(#[trigger] prev[i]) by {
                        assert(prev[i] == cs[i]);
                    }
                }
                lemma_path_of_shape(prev);
                assert(is_component(a[a.len() - 1]));
                lemma_pop_undoes_push(path_of(prev), a.last());
                assert(prev =~= cs.take(cs.len() - k));
            } else {
                assert(a =~= Seq::<Seq<u8>>::empty());
                assert(path_of(a) == root_path());
            }
        }
    } else {
        assert(cs.take(cs.len() as int) =~= cs);
    }
}

/// A walk that stopped early was stopped for a reason that a second walk of
/// the same query from the same start, seeing the same answers, meets too.
proof fn lemma_stop_agrees(w1: Walker, w2: Walker)
    requires
        w1.wf(),
        w2.wf(),
        w1.next_step() == WalkStep::Finish,
        w1.pwd() == w2.pwd(),
        w1.boundary_path() == w2.boundary_path(),
        w1.all() == w2.all(),
        forall|j: int|
            0 <= j < w1.seen().len() && j < w2.seen().len() ==> w1.seen()[j] == w2.seen()[j],
    ensures
        w1.seen().len() >= w2.seen().len(),
{
    if w1.seen().len() < w2.seen().len() {
        let t = w1.depth();
        assert(t < w2.depth());
        lemma_ancestor_chain(w2.pwd(), w2.depth());
        assert(ancestor(w2.pwd(), t) is Some && ancestor(w2.pwd(), t).unwrap() != w2.boundary_path());
        assert(ancestor(w2.pwd(), t + 1) is Some);
        assert(parent_path(w1.current_dir()) is Some);
        assert(w1.seen().last() && !w1.all());
        assert(w2.seen()[t as int]);
        lemma_match_depths(w2.seen());
        let m = match_depths(w2.seen());
        let i = choose|i: int| 0 <= i < m.len() && m[i] == t;
        assert(w2.seen()[w2.seen().len() - 1]);
        let i2 = choose|i2: int| 0 <= i2 < m.len() && m[i2] == w2.seen().len() - 1;
        assert(m.len() == 1);
        assert(i == 0 && i2 == 0);
    }
}

/// Two walks of the same path query from the same start to the same
/// boundary, whose probes got the same answers, end the same way: they
/// probe the same directories and report the same hits. What lies above
/// the directory where they stopped has no bearing on the result.
pub proof fn lemma_walk_determined(w1: Walker, w2: Walker)
    requires
        w1.wf(),
        w2.wf(),
        w1.next_step() == WalkStep::Finish,
        w2.next_step() == WalkStep::Finish,
        w1.pwd() == w2.pwd(),
        w1.boundary_path() == w2.boundary_path(),
        w1.query_path() == w2.query_path(),
        w1.all() == w2.all(),
        !w1.echo(),
        !w2.echo(),
        forall|j: int|
            0 <= j < w1.seen().len() && j < w2.seen().len() ==> w1.seen()[j] == w2.seen()[j],
    ensures
        w1.seen() == w2.seen(),
        w1.depth() == w2.depth(),
        w1.current_dir() == w2.current_dir(),
        w1.hits().len() == w2.hits().len(),
        forall|i: int|
            0 <= i < w1.hits().len() ==> (#[trigger] w1.hits()[i] matches Hit::Path(p1) && w2.hits()[i]
                matches Hit::Path(p2) && p1@ == p2@),
{
    lemma_stop_agrees(w1, w2);
    lemma_stop_agrees(w2, w1);
    assert(w1.seen() =~= w2.seen());
    lemma_finished_hits(w1);
    lemma_finished_hits(w2);
    assert forall|i: int| 0 <= i < w1.hits().len() implies (#[trigger] w1.hits()[i] matches Hit::Path(
        p1,
    ) && w2.hits()[i] matches Hit::Path(p2) && p1@ == p2@) by {
        assert(w1.is_hit_for(w1.hits()[i], ancestor(w1.pwd(), match_depths(w1.seen())[i] as nat).unwrap()));
        assert(w2.is_hit_for(w2.hits()[i], ancestor(w2.pwd(), match_depths(w2.seen())[i] as nat).unwrap()));
    }
}

/// The kind filter: without one, anything that exists matches; under `-f`
/// exactly regular files match, under `-d` exactly directories; nothing
/// matches where nothing exists.
pub proof fn lemma_probe_filter(k: EntryKind, filter: Option<KindFilter>)
    ensures
        !probe_matches_spec(filter, None),
        probe_matches_spec(None, Some(k)),
        probe_matches_spec(Some(KindFilter::Files), Some(k)) == (k == EntryKind::File),
        probe_matches_spec(Some(KindFilter::Dirs), Some(k)) == (k == EntryKind::Dir),
{
}

} // verus!
