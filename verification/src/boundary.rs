//! Boundary resolution.
//!
//! Default rule: if PWD is HOME or under HOME, the boundary is HOME, else `/`.
//! Both paths are taken as normalized: absolute, no trailing `/` (except `/`
//! itself), no `.`, `..` or `//` components.

use vstd::prelude::*;

use crate::bytes::{bytes_eq, has_prefix, starts_with, SLASH};
use crate::walk::{all_components, is_component, join_path, lemma_path_of_shape, path_of};

verus! {

/// The filesystem root, `/`.
pub const ROOT_PATH: [u8; 1] = [SLASH];

/// The one-byte path `/`.
pub open spec fn root_path() -> Seq<u8> {
    seq![SLASH]
}

/// The root path as a slice.
pub fn root_slice() -> (r: &'static [u8])
    ensures
        r@ == root_path(),
{
    let r: &'static [u8] = &ROOT_PATH;
    assert(ROOT_PATH@[0] == SLASH);
    assert(r@ =~= root_path());
    r
}

/// `child` equals `parent` or lies below it: `parent` is a prefix of `child`
/// that ends at a component boundary.
pub open spec fn is_under_or_equal_spec(child: Seq<u8>, parent: Seq<u8>) -> bool {
    ||| child == parent
    ||| has_prefix(child, parent) && (parent == root_path() || (child.len() > parent.len()
        && child[parent.len() as int] == SLASH))
}

/// The default boundary for a walk that starts at `pwd`.
pub open spec fn default_boundary(pwd: Seq<u8>, home: Seq<u8>) -> Seq<u8> {
    if is_under_or_equal_spec(pwd, home) {
        home
    } else {
        root_path()
    }
}

/// HOME when `pwd` is HOME or below it, `/` otherwise.
pub fn resolve_default<'a>(pwd: &'a [u8], home: &'a [u8]) -> (r: &'a [u8])
    ensures
        r@ == default_boundary(pwd@, home@),
{
    if is_under_or_equal(pwd, home) {
        home
    } else {
        root_slice()
    }
}

/// True if `child == parent` or `child` is under `parent` (parent is a path-prefix).
fn is_under_or_equal(child: &[u8], parent: &[u8]) -> (r: bool)
    ensures
        r == is_under_or_equal_spec(child@, parent@),
{
    if bytes_eq(child, parent) {
        return true;
    }
    if !starts_with(child, parent) {
        return false;
    }
    if bytes_eq(parent, root_slice()) {
        return true;
    }
    parent.len() < child.len() && child[parent.len()] == SLASH
}

/// "Is HOME or below HOME" is a partial order on paths, with `/` above every
/// absolute path: it is reflexive, antisymmetric and transitive.
pub proof fn lemma_under_or_equal_order(a: Seq<u8>, b: Seq<u8>, c: Seq<u8>)
    ensures
        is_under_or_equal_spec(a, a),
        a.len() > 0 && a[0] == SLASH ==> is_under_or_equal_spec(a, root_path()),
        is_under_or_equal_spec(a, b) && is_under_or_equal_spec(b, a) ==> a == b,
        is_under_or_equal_spec(a, b) && is_under_or_equal_spec(b, c) ==> is_under_or_equal_spec(a, c),
{
    if a.len() > 0 && a[0] == SLASH {
        assert(a.subrange(0, 1) =~= root_path());
    }
    if is_under_or_equal_spec(a, b) && is_under_or_equal_spec(b, a) && a != b {
        assert(a.len() == b.len());
        assert(a =~= a.subrange(0, b.len() as int));
    }
    if is_under_or_equal_spec(a, b) && is_under_or_equal_spec(b, c) {
        if a != b && b != c {
            assert(a.subrange(0, c.len() as int) =~= b.subrange(0, c.len() as int));
            if c != root_path() {
                assert(a[c.len() as int] == b[c.len() as int]);
            }
        }
    }
}

/// A path below HOME lies under HOME, whatever bytes its components hold:
/// for a normalized HOME (non-empty, ending in `/` only when it is `/`) and
/// any non-empty rest `c`, `HOME/c` is under HOME, so HOME is its default
/// boundary.
pub proof fn lemma_below_home(home: Seq<u8>, c: Seq<u8>)
    requires
        home.len() > 0,
        home.last() == SLASH ==> home == root_path(),
        c.len() > 0,
    ensures
        is_under_or_equal_spec(join_path(home, c), home),
        default_boundary(join_path(home, c), home) == home,
{
    let j = join_path(home, c);
    if home.last() != SLASH {
        assert(j.subrange(0, home.len() as int) =~= home);
        assert(j[home.len() as int] == SLASH);
    } else {
        assert(j.subrange(0, home.len() as int) =~= home);
    }
}

/// Under-ness follows components: a normalized path lies under the path of
/// any leading part of its components, so that path is its default
/// boundary when taken as HOME.
pub proof fn lemma_under_component_prefix(cs: Seq<Seq<u8>>, m: int)
    requires
        all_components(cs),
        0 <= m <= cs.len(),
    ensures
        is_under_or_equal_spec(path_of(cs), path_of(cs.take(m))),
        default_boundary(path_of(cs), path_of(cs.take(m))) == path_of(cs.take(m)),
    decreases cs.len(),
{
    if m == cs.len() {
        assert(cs.take(m) =~= cs);
    } else {
        let prev = cs.drop_last();
        assert(all_components(prev)) by {
            assert forall|i: int| 0 <= i < prev.len() implies is_component(#[trigger] prev[i]) by {
                assert(prev[i] == cs[i]);
            }
        }
        lemma_under_component_prefix(prev, m);
        assert(prev.take(m) =~= cs.take(m));
        lemma_path_of_shape(prev);
        let h = path_of(cs.take(m));
        let p = path_of(prev);
        let j = path_of(cs);
        assert(is_component(cs[cs.len() - 1]));
        lemma_below_home(p, cs.last());
        let base = if p.last() != SLASH { p.push(SLASH) } else { p };
        assert(j =~= base + cs.last());
        assert(j.subrange(0, p.len() as int) =~= p);
        if p != h {
            assert(h.len() < p.len());
            assert(j.subrange(0, h.len() as int) =~= p.subrange(0, h.len() as int));
            if h != root_path() {
                assert(j[h.len() as int] == p[h.len() as int]);
            }
        }
    }
}

} // verus!
