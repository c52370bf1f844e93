//! The bytes written for a lookup's hits.

use vstd::prelude::*;

use crate::bytes::{bytes_eq, extend_bytes, last_index_of, lemma_last_index_of, SLASH};
use crate::boundary::root_path;
use crate::bytes::lemma_last_index_of_prefix;
use crate::walk::{
    all_components, ancestor, is_component, join_path, lemma_ancestor_chain, lemma_ancestor_of_path,
    lemma_match_depths, lemma_path_of_shape, match_depths, path_of, Hit, Query, Walker,
};

verus! {

/// The byte `.`.
pub const DOT: u8 = 46;

/// The path component `..`.
pub const DOTDOT: [u8; 2] = [DOT, DOT];

/// The state of a left-to-right scan of `p`: the finished non-empty
/// components, and the component being read.
pub open spec fn split_state(p: Seq<u8>) -> (Seq<Seq<u8>>, Seq<u8>)
    decreases p.len(),
{
    if p.len() == 0 {
        (Seq::empty(), Seq::empty())
    } else {
        let (done, cur) = split_state(p.drop_last());
        if p.last() == SLASH {
            (if cur.len() > 0 { done.push(cur) } else { done }, Seq::empty())
        } else {
            (done, cur.push(p.last()))
        }
    }
}

/// The non-empty `/`-separated components of `p`, in order.
pub open spec fn components(p: Seq<u8>) -> Seq<Seq<u8>> {
    let (done, cur) = split_state(p);
    if cur.len() > 0 {
        done.push(cur)
    } else {
        done
    }
}

/// How many leading components `a` and `b` have in common.
pub open spec fn common_prefix_len(a: Seq<Seq<u8>>, b: Seq<Seq<u8>>) -> nat
    decreases a.len(),
{
    if a.len() == 0 || b.len() == 0 || a[0] != b[0] {
        0
    } else {
        1 + common_prefix_len(a.drop_first(), b.drop_first())
    }
}

/// `parts` joined with `/` between consecutive ones.
pub open spec fn join_slash(parts: Seq<Seq<u8>>) -> Seq<u8>
    decreases parts.len(),
{
    if parts.len() == 0 {
        Seq::empty()
    } else {
        let j = join_slash(parts.drop_last());
        if j.len() > 0 {
            j.push(SLASH) + parts.last()
        } else {
            parts.last()
        }
    }
}

/// `n` copies of `..`.
pub open spec fn dotdots(n: nat) -> Seq<Seq<u8>> {
    Seq::new(n, |i: int| seq![DOT, DOT])
}

/// Where the directory part of a path ends: at its last `/`, or 0 without one.
pub open spec fn dir_end(abs_path: Seq<u8>) -> int {
    let i = last_index_of(abs_path, SLASH);
    if i < 0 {
        0
    } else {
        i
    }
}

/// `abs_path` as seen from `pwd`: `..` for each component of `pwd` past the
/// common ones, then the rest of the hit's directory, then its last
/// component; `.` when all of that is empty.
pub open spec fn relative_path(abs_path: Seq<u8>, pwd: Seq<u8>) -> Seq<u8> {
    let end = dir_end(abs_path);
    let dir_parts = components(abs_path.subrange(0, end));
    let file = abs_path.subrange(end + 1, abs_path.len() as int);
    let pwd_parts = components(pwd);
    let common = common_prefix_len(dir_parts, pwd_parts);
    let parts = dotdots((pwd_parts.len() - common) as nat) + dir_parts.skip(common as int);
    let j = join_slash(parts);
    let with_file = if j.len() > 0 {
        j.push(SLASH) + file
    } else {
        file
    };
    if with_file.len() == 0 {
        seq![DOT]
    } else {
        with_file
    }
}

/// The bytes written for one hit.
pub open spec fn render_hit(h: Hit, relative: bool, null_terminate: bool, pwd: Seq<u8>) -> Seq<u8> {
    let term: u8 = if null_terminate { 0 } else { 10 };
    match h {
        Hit::Path(p) => if relative {
            relative_path(p@, pwd).push(term)
        } else {
            p@.push(term)
        },
        Hit::Contents(c) => if null_terminate {
            c@.push(0)
        } else {
            c@
        },
    }
}

/// The bytes written for `hits`, in order.
pub open spec fn render_hits(hits: Seq<Hit>, relative: bool, null_terminate: bool, pwd: Seq<u8>) -> Seq<u8>
    decreases hits.len(),
{
    if hits.len() == 0 {
        Seq::empty()
    } else {
        render_hits(hits.drop_last(), relative, null_terminate, pwd) + render_hit(
            hits.last(),
            relative,
            null_terminate,
            pwd,
        )
    }
}

/// Every path hit is non-empty.
pub open spec fn paths_nonempty(hits: Seq<Hit>) -> bool {
    forall|i: int| 0 <= i < hits.len() ==> (#[trigger] hits[i] matches Hit::Path(p) ==> p@.len() > 0)
}

/// Writes `hits` to `out`: each path followed by `\n`, or by NUL with
/// `null_terminate`, relative to `pwd` with `relative`; each file's contents
/// verbatim, followed by NUL only with `null_terminate`.
pub fn write_hits(out: &mut Vec<u8>, hits: &[Hit], query: &Query, pwd: &[u8]) -> (r: Result<(), std::io::Error>)
    requires
        query.relative ==> paths_nonempty(hits@),
    ensures
        r is Ok,
        final(out)@ == old(out)@ + render_hits(hits@, query.relative, query.null_terminate, pwd@),
        hits@.len() == 1 && !query.relative ==> (hits@[0] matches Hit::Path(p) ==> final(out)@ == old(out)@
            + p@.push(if query.null_terminate { 0u8 } else { 10u8 })),
{
    let term: u8 = if query.null_terminate { 0 } else { 10 };
    let mut i: usize = 0;
    while i < hits.len()
        invariant
            i <= hits@.len(),
            term == (if query.null_terminate { 0u8 } else { 10u8 }),
            query.relative ==> paths_nonempty(hits@),
            out@ == old(out)@ + render_hits(hits@.subrange(0, i as int), query.relative, query.null_terminate, pwd@),
        decreases hits@.len() - i,
    {
        let ghost before = out@;
        match &hits[i] {
            Hit::Path(p) => {
                if query.relative {
                    assert(hits@[i as int] matches Hit::Path(q) ==> q@.len() > 0);
                    let rel = relativize(p.as_slice(), pwd);
                    extend_bytes(out, rel.as_slice());
                } else {
                    extend_bytes(out, p.as_slice());
                }
                out.push(term);
            },
            Hit::Contents(c) => {
                extend_bytes(out, c.as_slice());
                if query.null_terminate {
                    out.push(0);
                }
            },
        }
        proof {
            let s = hits@.subrange(0, i + 1);
            assert(s.drop_last() =~= hits@.subrange(0, i as int));
            assert(s.last() == hits@[i as int]);
            assert(out@ =~= before + render_hit(hits@[i as int], query.relative, query.null_terminate, pwd@));
        }
        i = i + 1;
    }
    assert(hits@.subrange(0, hits@.len() as int) =~= hits@);
    proof {
        if hits@.len() == 1 {
            assert(hits@.drop_last() =~= Seq::<Hit>::empty());
            assert(hits@.last() == hits@[0]);
            assert(render_hits(Seq::<Hit>::empty(), query.relative, query.null_terminate, pwd@) == Seq::<u8>::empty());
            assert(render_hits(hits@, query.relative, query.null_terminate, pwd@) == render_hits(
                hits@.drop_last(),
                query.relative,
                query.null_terminate,
                pwd@,
            ) + render_hit(hits@.last(), query.relative, query.null_terminate, pwd@));
            assert(render_hits(hits@, query.relative, query.null_terminate, pwd@) =~= render_hit(
                hits@[0],
                query.relative,
                query.null_terminate,
                pwd@,
            ));
        }
    }
    Ok(())
}

/// The component `..` as a slice.
fn dotdot_slice() -> (r: &'static [u8])
    ensures
        r@ == seq![DOT, DOT],
{
    let r: &'static [u8] = &DOTDOT;
    assert(DOTDOT@[0] == DOT && DOTDOT@[1] == DOT);
    assert(r@ =~= seq![DOT, DOT]);
    r
}

/// Position of the last `/` in `s`, if any.
fn last_slash(s: &[u8]) -> (r: Option<usize>)
    ensures
        r matches Some(i) ==> i == last_index_of(s@, SLASH),
        r is None ==> last_index_of(s@, SLASH) == -1,
{
    let ghost p = s@;
    let mut i: usize = s.len();
    while i > 0 && s[i - 1] != SLASH
        invariant
            p == s@,
            i <= s@.len(),
            forall|j: int| i <= j < s@.len() ==> p[j] != SLASH,
        decreases i,
    {
        i = i - 1;
    }
    proof {
        crate::bytes::lemma_last_index_of_prefix(p, SLASH, i as int);
        if i > 0 {
            assert(p.subrange(0, i as int).last() == SLASH);
        }
    }
    if i == 0 {
        None
    } else {
        Some(i - 1)
    }
}

/// The non-empty `/`-separated components of `path`.
fn split_components(path: &[u8]) -> (r: Vec<&[u8]>)
    ensures
        r@.len() == components(path@).len(),
        forall|j: int| 0 <= j < r@.len() ==> (#[trigger] r@[j])@ == components(path@)[j],
{
    let mut res: Vec<&[u8]> = Vec::new();
    let mut start: usize = 0;
    let mut i: usize = 0;
    let ghost p = path@;
    assert(p.subrange(0, 0) =~= Seq::<u8>::empty());
    while i < path.len()
        invariant
            p == path@,
            start <= i <= p.len(),
            res@.len() == split_state(p.subrange(0, i as int)).0.len(),
            forall|j: int| 0 <= j < res@.len() ==> (#[trigger] res@[j])@ == split_state(p.subrange(0, i as int)).0[j],
            split_state(p.subrange(0, i as int)).1 == p.subrange(start as int, i as int),
        decreases p.len() - i,
    {
        let ghost pre = p.subrange(0, i as int);
        let ghost next = p.subrange(0, i + 1);
        assert(next.drop_last() =~= pre);
        assert(next.last() == p[i as int]);
        if path[i] == SLASH {
            if i > start {
                let seg = &path[start..i];
                res.push(seg);
            }
            start = i + 1;
            assert(p.subrange(start as int, i + 1) =~= Seq::<u8>::empty());
        } else {
            assert(p.subrange(start as int, i + 1) =~= p.subrange(start as int, i as int).push(p[i as int]));
        }
        i = i + 1;
    }
    assert(p.subrange(0, p.len() as int) =~= p);
    if path.len() > start {
        let seg = &path[start..path.len()];
        res.push(seg);
    }
    res
}

/// Matching leading components found by a scan give the common prefix length.
proof fn lemma_common_prefix(a: Seq<Seq<u8>>, b: Seq<Seq<u8>>, k: int)
    requires
        0 <= k <= a.len(),
        k <= b.len(),
        forall|j: int| 0 <= j < k ==> a[j] == b[j],
        k == a.len() || k == b.len() || a[k] != b[k],
    ensures
        common_prefix_len(a, b) == k,
    decreases k,
{
    if k > 0 {
        lemma_common_prefix(a.drop_first(), b.drop_first(), k - 1);
    }
}

/// Appending one part to a `/`-join.
proof fn lemma_join_push(parts: Seq<Seq<u8>>, x: Seq<u8>)
    ensures
        join_slash(parts.push(x)) == (if join_slash(parts).len() > 0 {
            join_slash(parts).push(SLASH) + x
        } else {
            x
        }),
{
    assert(parts.push(x).drop_last() =~= parts);
}

/// The path `abs_path` relative to `pwd`.
fn relativize(abs_path: &[u8], pwd: &[u8]) -> (r: Vec<u8>)
    requires
        abs_path@.len() > 0,
    ensures
        r@ == relative_path(abs_path@, pwd@),
{
    let end: usize = match last_slash(abs_path) {
        Some(p) => p,
        None => 0,
    };
    proof {
        lemma_last_index_of(abs_path@, SLASH);
    }
    assert(end < abs_path.len());
    let abs_dir = &abs_path[0..end];
    let abs_file = &abs_path[end + 1..abs_path.len()];
    let abs_components = split_components(abs_dir);
    let pwd_components = split_components(pwd);
    let ghost ac = components(abs_path@.subrange(0, end as int));
    let ghost pc = components(pwd@);

    let mut common: usize = 0;
    while common < abs_components.len() && common < pwd_components.len() && bytes_eq(
        abs_components[common],
        pwd_components[common],
    )
        invariant
            common <= abs_components@.len(),
            common <= pwd_components@.len(),
            abs_components@.len() == ac.len(),
            pwd_components@.len() == pc.len(),
            forall|j: int| 0 <= j < abs_components@.len() ==> (#[trigger] abs_components@[j])@ == ac[j],
            forall|j: int| 0 <= j < pwd_components@.len() ==> (#[trigger] pwd_components@[j])@ == pc[j],
            forall|j: int| 0 <= j < common ==> ac[j] == pc[j],
        decreases abs_components@.len() - common,
    {
        common = common + 1;
    }
    proof {
        lemma_common_prefix(ac, pc, common as int);
    }

    let mut out: Vec<u8> = Vec::new();
    let mut k: usize = common;
    assert(dotdots(0) =~= Seq::<Seq<u8>>::empty());
    while k < pwd_components.len()
        invariant
            common <= k <= pwd_components@.len(),
            out@ == join_slash(dotdots((k - common) as nat)),
        decreases pwd_components@.len() - k,
    {
        proof {
            lemma_join_push(dotdots((k - common) as nat), seq![DOT, DOT]);
            assert(dotdots((k - common) as nat).push(seq![DOT, DOT]) =~= dotdots((k + 1 - common) as nat));
        }
        if out.len() > 0 {
            out.push(SLASH);
        }
        extend_bytes(&mut out, dotdot_slice());
        k = k + 1;
    }
    let ghost n = (pc.len() - common) as nat;
    let mut m: usize = common;
    assert(dotdots(n) + ac.subrange(common as int, common as int) =~= dotdots(n));
    while m < abs_components.len()
        invariant
            common <= m <= abs_components@.len(),
            abs_components@.len() == ac.len(),
            forall|j: int| 0 <= j < abs_components@.len() ==> (#[trigger] abs_components@[j])@ == ac[j],
            out@ == join_slash(dotdots(n) + ac.subrange(common as int, m as int)),
        decreases abs_components@.len() - m,
    {
        proof {
            lemma_join_push(dotdots(n) + ac.subrange(common as int, m as int), ac[m as int]);
            assert((dotdots(n) + ac.subrange(common as int, m as int)).push(ac[m as int])
                =~= dotdots(n) + ac.subrange(common as int, m + 1));
        }
        if out.len() > 0 {
            out.push(SLASH);
        }
        extend_bytes(&mut out, abs_components[m]);
        m = m + 1;
    }
    assert(ac.subrange(common as int, ac.len() as int) =~= ac.skip(common as int));
    if out.len() > 0 {
        out.push(SLASH);
    }
    extend_bytes(&mut out, abs_file);
    if out.len() == 0 {
        out.push(DOT);
        assert(out@ =~= seq![DOT]);
    }
    out
}

/// Scanning a `/` after `s` closes the component being read.
proof fn lemma_split_after_slash(s: Seq<u8>)
    ensures
        split_state(s.push(SLASH)) == (components(s), Seq::<u8>::empty()),
{
    assert(s.push(SLASH).drop_last() =~= s);
}

/// Scanning bytes other than `/` extends the component being read.
proof fn lemma_split_component(t: Seq<u8>, c: Seq<u8>, m: int)
    requires
        is_component(c),
        0 <= m <= c.len(),
        split_state(t).1.len() == 0,
    ensures
        split_state(t + c.take(m)) == (split_state(t).0, c.take(m)),
    decreases m,
{
    if m == 0 {
        assert(t + c.take(0) =~= t);
        assert(c.take(0) =~= split_state(t).1);
    } else {
        lemma_split_component(t, c, m - 1);
        let u = t + c.take(m);
        assert(u.drop_last() =~= t + c.take(m - 1));
        assert(u.last() == c[m - 1]);
        assert(c[m - 1] != SLASH) by {
            if c[m - 1] == SLASH {
                assert(c.contains(SLASH));
            }
        }
        assert(c.take(m - 1).push(c[m - 1]) =~= c.take(m));
    }
}

/// The components of `s/c` are those of `s` followed by `c`.
pub proof fn lemma_components_append(s: Seq<u8>, c: Seq<u8>)
    requires
        is_component(c),
    ensures
        components(s.push(SLASH) + c) == components(s).push(c),
{
    lemma_split_after_slash(s);
    lemma_split_component(s.push(SLASH), c, c.len() as int);
    assert(c.take(c.len() as int) =~= c);
}

/// The components of the normalized path with components `cs` are `cs`.
pub proof fn lemma_components_of_path(cs: Seq<Seq<u8>>)
    requires
        all_components(cs),
    ensures
        components(path_of(cs)) == cs,
    decreases cs.len(),
{
    let empty = Seq::<u8>::empty();
    assert(split_state(empty) == (Seq::<Seq<u8>>::empty(), empty));
    if cs.len() == 0 {
        assert(root_path() =~= empty.push(SLASH));
        lemma_split_after_slash(empty);
    } else {
        let prev = cs.drop_last();
        assert(all_components(prev)) by {
            assert forall|i: int| 0 <= i < prev.len() implies is_component(#[trigger] prev[i]) by {
                assert(prev[i] == cs[i]);
            }
        }
        lemma_components_of_path(prev);
        lemma_path_of_shape(prev);
        let c = cs.last();
        assert(is_component(cs[cs.len() - 1]));
        if prev.len() == 0 {
            assert(path_of(cs) =~= empty.push(SLASH) + c);
            lemma_components_append(empty, c);
            assert(cs =~= Seq::<Seq<u8>>::empty().push(c));
        } else {
            assert(path_of(cs) =~= path_of(prev).push(SLASH) + c);
            lemma_components_append(path_of(prev), c);
            assert(prev.push(c) =~= cs);
        }
    }
}

/// `..` joined `k` times is empty exactly when `k` is 0.
proof fn lemma_dotdots_join(k: nat)
    ensures
        (join_slash(dotdots(k)).len() > 0) == (k > 0),
{
    if k > 0 {
        assert(dotdots(k).last() == seq![DOT, DOT]);
    } else {
        assert(dotdots(0) =~= Seq::<Seq<u8>>::empty());
    }
}

/// A hit path `dir/f` splits into the components of `dir` and the name `f`.
proof fn lemma_split_hit(a: Seq<Seq<u8>>, f: Seq<u8>)
    requires
        all_components(a),
        is_component(f),
    ensures
        ({
            let j = join_path(path_of(a), f);
            let end = dir_end(j);
            &&& 0 <= end < j.len()
            &&& components(j.subrange(0, end)) == a
            &&& j.subrange(end + 1, j.len() as int) == f
        }),
{
    lemma_path_of_shape(a);
    lemma_components_of_path(a);
    let j = join_path(path_of(a), f);
    let base = if path_of(a).last() != SLASH { path_of(a).push(SLASH) } else { path_of(a) };
    assert(j =~= base + f);
    assert forall|i: int| base.len() <= i < j.len() implies j[i] != SLASH by {
        assert(j[i] == f[i - base.len()]);
        if f[i - base.len()] == SLASH {
            assert(f.contains(SLASH));
        }
    }
    lemma_last_index_of_prefix(j, SLASH, base.len() as int);
    assert(j.subrange(0, base.len() as int) =~= base);
    assert(crate::bytes::last_index_of(base, SLASH) == base.len() - 1);
    let end = dir_end(j);
    assert(end == base.len() - 1);
    if a.len() == 0 {
        assert(path_of(a) == root_path());
        assert(j.subrange(0, end) =~= Seq::<u8>::empty());
        assert(split_state(Seq::<u8>::empty()) == (Seq::<Seq<u8>>::empty(), Seq::<u8>::empty()));
        assert(a =~= Seq::<Seq<u8>>::empty());
    } else {
        assert(j.subrange(0, end) =~= path_of(a));
    }
    assert(j.subrange(end + 1, j.len() as int) =~= f);
}

/// Relative output of a hit above the working directory: the file `f`
/// found `k` levels above the normalized working directory with components
/// `cs` is written as `..` `k` times, then `f` (`f` alone for `k == 0`).
pub proof fn lemma_relative_to_ancestor(cs: Seq<Seq<u8>>, f: Seq<u8>, k: nat)
    requires
        all_components(cs),
        is_component(f),
        k <= cs.len(),
    ensures
        relative_path(join_path(path_of(cs.take(cs.len() - k)), f), path_of(cs)) == (if k == 0 {
            f
        } else {
            join_slash(dotdots(k)).push(SLASH) + f
        }),
{
    let n = cs.len();
    let a = cs.take(n - k);
    assert(all_components(a)) by {
        assert forall|i: int| 0 <= i < a.len() implies is_component(#[trigger] a[i]) by {
            assert(a[i] == cs[i]);
        }
    }
    lemma_components_of_path(cs);
    lemma_split_hit(a, f);
    lemma_common_prefix(a, cs, a.len() as int);
    let parts = dotdots((cs.len() - common_prefix_len(a, cs)) as nat) + a.skip(
        common_prefix_len(a, cs) as int,
    );
    assert(parts =~= dotdots(k));
    lemma_dotdots_join(k);
}

/// The component `..`.
pub open spec fn dotdot() -> Seq<u8> {
    seq![DOT, DOT]
}

/// The components reached from directory `base` by following the relative
/// components `parts` lexically: `..` goes up one level (not above `/`),
/// any other component goes down into it.
pub open spec fn resolve(base: Seq<Seq<u8>>, parts: Seq<Seq<u8>>) -> Seq<Seq<u8>>
    decreases parts.len(),
{
    if parts.len() == 0 {
        base
    } else {
        let next = if parts[0] == dotdot() {
            if base.len() > 0 {
                base.drop_last()
            } else {
                base
            }
        } else {
            base.push(parts[0])
        };
        resolve(next, parts.drop_first())
    }
}

/// A common prefix is common.
proof fn lemma_common_prefix_agrees(a: Seq<Seq<u8>>, b: Seq<Seq<u8>>)
    ensures
        common_prefix_len(a, b) <= a.len(),
        common_prefix_len(a, b) <= b.len(),
        forall|j: int| 0 <= j < common_prefix_len(a, b) ==> a[j] == b[j],
    decreases a.len(),
{
    if !(a.len() == 0 || b.len() == 0 || a[0] != b[0]) {
        lemma_common_prefix_agrees(a.drop_first(), b.drop_first());
        assert forall|j: int| 0 <= j < common_prefix_len(a, b) implies a[j] == b[j] by {
            if j > 0 {
                assert(a[j] == a.drop_first()[j - 1]);
                assert(b[j] == b.drop_first()[j - 1]);
            }
        }
    }
}

/// A single component is its own only component.
proof fn lemma_components_single(c: Seq<u8>)
    requires
        is_component(c),
    ensures
        components(c) == seq![c],
{
    let empty = Seq::<u8>::empty();
    assert(split_state(empty) == (Seq::<Seq<u8>>::empty(), empty));
    lemma_split_component(empty, c, c.len() as int);
    assert(empty + c.take(c.len() as int) =~= c);
    assert(c.take(c.len() as int) =~= c);
    assert(Seq::<Seq<u8>>::empty().push(c) =~= seq![c]);
}

/// Joining components with `/` gives a relative path, not starting with
/// `/`, whose components are the ones joined.
proof fn lemma_join_components(qs: Seq<Seq<u8>>)
    requires
        all_components(qs),
        qs.len() > 0,
    ensures
        components(join_slash(qs)) == qs,
        join_slash(qs).len() > 0,
        join_slash(qs)[0] == qs[0][0],
    decreases qs.len(),
{
    let prev = qs.drop_last();
    assert(is_component(qs[qs.len() - 1]));
    if prev.len() == 0 {
        assert(join_slash(prev) =~= Seq::<u8>::empty());
        lemma_components_single(qs.last());
        assert(qs =~= seq![qs.last()]);
    } else {
        assert(all_components(prev)) by {
            assert forall|i: int| 0 <= i < prev.len() implies is_component(#[trigger] prev[i]) by {
                assert(prev[i] == qs[i]);
            }
        }
        lemma_join_components(prev);
        lemma_components_append(join_slash(prev), qs.last());
        assert(prev.push(qs.last()) =~= qs);
        assert(prev[0] == qs[0]);
    }
}

/// Going up `k` levels first.
proof fn lemma_resolve_up(base: Seq<Seq<u8>>, k: nat, rest: Seq<Seq<u8>>)
    requires
        k <= base.len(),
    ensures
        resolve(base, dotdots(k) + rest) == resolve(base.take(base.len() - k), rest),
    decreases k,
{
    if k == 0 {
        assert(dotdots(0) + rest =~= rest);
        assert(base.take(base.len() as int) =~= base);
    } else {
        let parts = dotdots(k) + rest;
        assert(parts[0] == dotdot());
        assert(parts.drop_first() =~= dotdots((k - 1) as nat) + rest);
        lemma_resolve_up(base.drop_last(), (k - 1) as nat, rest);
        assert(base.drop_last().take(base.len() - 1 - (k - 1)) =~= base.take(base.len() - k));
    }
}

/// Going down through components that are not `..`.
proof fn lemma_resolve_down(base: Seq<Seq<u8>>, rest: Seq<Seq<u8>>)
    requires
        forall|i: int| 0 <= i < rest.len() ==> rest[i] != dotdot(),
    ensures
        resolve(base, rest) == base + rest,
    decreases rest.len(),
{
    if rest.len() == 0 {
        assert(base + rest =~= base);
    } else {
        assert(rest[0] != dotdot());
        let tail = rest.drop_first();
        assert forall|i: int| 0 <= i < tail.len() implies tail[i] != dotdot() by {
            assert(tail[i] == rest[i + 1]);
        }
        lemma_resolve_down(base.push(rest[0]), tail);
        assert(base.push(rest[0]) + tail =~= base + rest);
    }
}

/// The relative path written for a hit leads back to it, by the fewest `..`:
/// for normalized absolute paths `abs` (not `/`, without `..` components) and
/// `pwd`, the relative path is non-empty, does not start with `/`, consists
/// of one `..` for each component of `pwd` past the longest prefix that it
/// shares with the directory of `abs`, then the rest of that directory, then
/// the last component of `abs`; followed from `pwd` it reaches `abs`.
pub proof fn lemma_relative_path_resolves(abs: Seq<Seq<u8>>, pwd: Seq<Seq<u8>>)
    requires
        all_components(abs),
        abs.len() > 0,
        forall|i: int| 0 <= i < abs.len() ==> abs[i] != dotdot(),
        all_components(pwd),
    ensures
        ({
            let r = relative_path(path_of(abs), path_of(pwd));
            let dir = abs.drop_last();
            let c = common_prefix_len(dir, pwd);
            &&& r.len() > 0
            &&& r[0] != SLASH
            &&& components(r) == dotdots((pwd.len() - c) as nat) + dir.skip(c as int).push(abs.last())
            &&& resolve(pwd, components(r)) == abs
        }),
{
    let dir = abs.drop_last();
    let f = abs.last();
    assert(is_component(abs[abs.len() - 1]));
    assert(all_components(dir)) by {
        assert forall|i: int| 0 <= i < dir.len() implies is_component(#[trigger] dir[i]) by {
            assert(dir[i] == abs[i]);
        }
    }
    assert(path_of(abs) == join_path(path_of(dir), f));
    lemma_split_hit(dir, f);
    lemma_components_of_path(pwd);
    lemma_common_prefix_agrees(dir, pwd);
    let c = common_prefix_len(dir, pwd);
    let parts = dotdots((pwd.len() - c) as nat) + dir.skip(c as int);
    let qs = parts.push(f);
    lemma_join_push(parts, f);
    assert(all_components(qs)) by {
        assert forall|i: int| 0 <= i < qs.len() implies is_component(#[trigger] qs[i]) by {
            if i < pwd.len() - c {
                assert(qs[i] == seq![DOT, DOT]);
                assert(!seq![DOT, DOT].contains(SLASH)) by {
                    if seq![DOT, DOT].contains(SLASH) {
                        let k = choose|k: int| 0 <= k < 2 && seq![DOT, DOT][k] == SLASH;
                    }
                }
            } else if i < parts.len() {
                assert(qs[i] == dir[c + i - (pwd.len() - c)]);
            }
        }
    }
    lemma_join_components(qs);
    let r = relative_path(path_of(abs), path_of(pwd));
    assert(r == join_slash(qs));
    assert(qs[0][0] != SLASH) by {
        assert(is_component(qs[0]));
        if qs[0][0] == SLASH {
            assert(qs[0].contains(SLASH));
        }
    }
    assert(qs =~= dotdots((pwd.len() - c) as nat) + dir.skip(c as int).push(f));
    lemma_resolve_up(pwd, (pwd.len() - c) as nat, dir.skip(c as int).push(f));
    let down = dir.skip(c as int).push(f);
    assert forall|i: int| 0 <= i < down.len() implies down[i] != dotdot() by {
        if i < down.len() - 1 {
            assert(down[i] == abs[c + i]);
        }
    }
    lemma_resolve_down(pwd.take(c as int), down);
    assert(pwd.take(c as int) + down =~= abs);
}

/// What `--relative` prints for a walk's hits: when the walk started in a
/// normalized directory and looks for a single-component query, the hit
/// found `k` levels up is written as `..` `k` times, then the query.
pub proof fn lemma_relative_hit(w: Walker, cs: Seq<Seq<u8>>, i: int)
    requires
        w.wf(),
        all_components(cs),
        w.pwd() == path_of(cs),
        is_component(w.query_path()),
        !w.echo(),
        0 <= i < w.hits().len(),
    ensures
        ({
            let k = match_depths(w.recorded())[i];
            &&& 0 <= k <= cs.len()
            &&& w.hits()[i] matches Hit::Path(p)
            &&& relative_path(p@, path_of(cs)) == (if k == 0 {
                w.query_path()
            } else {
                join_slash(dotdots(k as nat)).push(SLASH) + w.query_path()
            })
        }),
{
    let r = w.recorded();
    lemma_match_depths(r);
    let k = match_depths(r)[i];
    assert(0 <= k < r.len());
    assert(k <= w.depth());
    lemma_ancestor_chain(w.pwd(), w.depth());
    assert(ancestor(w.pwd(), k as nat) is Some);
    lemma_ancestor_of_path(cs, k as nat);
    assert(w.is_hit_for(w.hits()[i], ancestor(w.pwd(), k as nat).unwrap()));
    lemma_relative_to_ancestor(cs, w.query_path(), k as nat);
}

/// The output for a list of hits is the output for its first part followed
/// by the output for the rest: writing `h1 ++ h2` in one call gives the same
/// bytes as writing `h1`, then `h2`; no hits write nothing.
pub proof fn lemma_render_concat(h1: Seq<Hit>, h2: Seq<Hit>, relative: bool, null_terminate: bool, pwd: Seq<u8>)
    ensures
        render_hits(h1 + h2, relative, null_terminate, pwd) == render_hits(h1, relative, null_terminate, pwd)
            + render_hits(h2, relative, null_terminate, pwd),
        render_hits(Seq::empty(), relative, null_terminate, pwd) == Seq::<u8>::empty(),
    decreases h2.len(),
{
    if h2.len() == 0 {
        assert(h1 + h2 =~= h1);
        assert(render_hits(h1, relative, null_terminate, pwd) + Seq::<u8>::empty() =~= render_hits(
            h1,
            relative,
            null_terminate,
            pwd,
        ));
    } else {
        lemma_render_concat(h1, h2.drop_last(), relative, null_terminate, pwd);
        assert((h1 + h2).drop_last() =~= h1 + h2.drop_last());
        assert((h1 + h2).last() == h2.last());
        assert(render_hits(h1, relative, null_terminate, pwd) + render_hits(h2.drop_last(), relative, null_terminate, pwd)
            + render_hit(h2.last(), relative, null_terminate, pwd) =~= render_hits(h1, relative, null_terminate, pwd)
            + (render_hits(h2.drop_last(), relative, null_terminate, pwd) + render_hit(
            h2.last(),
            relative,
            null_terminate,
            pwd,
        )));
    }
}

/// What is written for each hit: a path as its own bytes (relative to
/// `pwd` with `relative`), then `\n`, or NUL with `null_terminate`; a file's
/// contents verbatim, then NUL only with `null_terminate`.
pub proof fn lemma_render_hit(p: Vec<u8>, c: Vec<u8>, relative: bool, null_terminate: bool, pwd: Seq<u8>)
    ensures
        render_hit(Hit::Path(p), false, null_terminate, pwd) == p@.push(
            if null_terminate { 0u8 } else { 10u8 },
        ),
        render_hit(Hit::Path(p), true, null_terminate, pwd) == relative_path(p@, pwd).push(
            if null_terminate { 0u8 } else { 10u8 },
        ),
        render_hit(Hit::Contents(c), relative, false, pwd) == c@,
        render_hit(Hit::Contents(c), relative, true, pwd) == c@.push(0u8),
{
}

/// In absolute mode the output for a list of path hits is each path
/// followed by the terminator, in order.
pub proof fn lemma_render_paths(hits: Seq<Hit>, null_terminate: bool, pwd: Seq<u8>, i: int)
    requires
        0 <= i < hits.len(),
        hits[i] is Path,
    ensures
        ({
            let before = render_hits(hits.take(i), false, null_terminate, pwd);
            let p = hits[i]->Path_0;
            &&& render_hits(hits, false, null_terminate, pwd).subrange(
                before.len() as int,
                (before.len() + p@.len() + 1) as int,
            ) == p@.push(if null_terminate { 0u8 } else { 10u8 })
        }),
{
    let h1 = hits.take(i);
    let h2 = hits.skip(i);
    assert(h1 + h2 =~= hits);
    lemma_render_concat(h1, h2, false, null_terminate, pwd);
    let rest = h2.drop_first();
    assert(seq![hits[i]] + rest =~= h2);
    lemma_render_concat(seq![hits[i]], rest, false, null_terminate, pwd);
    assert(seq![hits[i]].drop_last() =~= Seq::<Hit>::empty());
    let p = hits[i]->Path_0;
    lemma_render_hit(p, p, false, null_terminate, pwd);
    let before = render_hits(h1, false, null_terminate, pwd);
    let one = render_hits(seq![hits[i]], false, null_terminate, pwd);
    assert(one == Seq::<u8>::empty() + render_hit(hits[i], false, null_terminate, pwd));
    assert(one =~= p@.push(if null_terminate { 0u8 } else { 10u8 }));
    let whole = before + (one + render_hits(rest, false, null_terminate, pwd));
    assert(whole.subrange(before.len() as int, (before.len() + p@.len() + 1) as int) =~= one);
}

} // verus!
