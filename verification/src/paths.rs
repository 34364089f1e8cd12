//! Byte-string paths: directory part, joining, and the source-file criterion.
//!
//! A file identity is a byte string; two identities are equal iff the byte
//! strings are equal (no normalization, no case folding). Resolution of an
//! import target follows one rule: join it onto the directory part of the
//! importing file's path, unless the target is absolute.

use vstd::prelude::*;

verus! {

/// Byte value of `/`, the path separator.
pub const SEP: u8 = 47;

/// Byte value of `.`, the extension separator.
pub const DOT: u8 = 46;

/// Byte value of `c`, the required extension letter.
pub const LETTER_C: u8 = 99;

/// Index of the last separator in `p`, or -1 if `p` has none.
pub open spec fn last_sep(p: Seq<u8>) -> int
    decreases p.len(),
{
    if p.len() == 0 {
        -1
    } else if p[p.len() - 1] == SEP {
        p.len() - 1
    } else {
        last_sep(p.drop_last())
    }
}

pub proof fn lemma_last_sep_bounds(p: Seq<u8>)
    ensures
        -1 <= last_sep(p) < p.len(),
        last_sep(p) >= 0 ==> p[last_sep(p)] == SEP,
        forall|i: int| last_sep(p) < i < p.len() ==> p[i] != SEP,
    decreases p.len(),
{
    if p.len() > 0 && p[p.len() - 1] != SEP {
        lemma_last_sep_bounds(p.drop_last());
        assert(forall|i: int| 0 <= i < p.len() - 1 ==> p[i] == p.drop_last()[i]);
    }
}

/// The directory part of `p`: everything before the last separator, the
/// single-byte root when the last separator is the first byte, and empty
/// when `p` holds no separator.
pub open spec fn spec_dirname(p: Seq<u8>) -> Seq<u8> {
    if last_sep(p) <= 0 {
        p.take(last_sep(p) + 1)
    } else {
        p.take(last_sep(p))
    }
}

/// Joining a target onto a directory: an absolute target stands alone, an
/// empty directory adds nothing, and otherwise a separator is placed between
/// the two unless the directory already ends with one.
pub open spec fn spec_join(dir: Seq<u8>, t: Seq<u8>) -> Seq<u8> {
    if t.len() > 0 && t[0] == SEP {
        t
    } else if dir.len() == 0 {
        t
    } else if dir[dir.len() - 1] == SEP {
        dir + t
    } else {
        dir + seq![SEP] + t
    }
}

/// The single resolution rule: a target is joined onto the directory part of
/// the importing file's path.
pub open spec fn spec_resolve(p: Seq<u8>, t: Seq<u8>) -> Seq<u8> {
    spec_join(spec_dirname(p), t)
}

/// A path names a source file iff its final component has the one-letter `c`
/// extension: the path ends in `.c`, and the dot is neither the first byte of
/// the component nor the component itself.
pub open spec fn spec_is_source_path(p: Seq<u8>) -> bool {
    &&& p.len() >= 3
    &&& p[p.len() - 1] == LETTER_C
    &&& p[p.len() - 2] == DOT
    &&& last_sep(p) < p.len() - 3
}

/// Resolution scoping: a relative target is resolved against the importing
/// file's own directory alone, never a search path — two files resolve the
/// same relative target to the same path exactly when their directories are
/// equal, so a same-named file under an unrelated directory never satisfies
/// an import. Directories with a trailing separator of their own (from a
/// doubled separator in the file's path) are left out.
pub proof fn lemma_resolution_scoped(p1: Seq<u8>, p2: Seq<u8>, t: Seq<u8>)
    requires
        t.len() == 0 || t[0] != SEP,
        spec_dirname(p1).len() <= 1 || spec_dirname(p1)[spec_dirname(p1).len() - 1] != SEP,
        spec_dirname(p2).len() <= 1 || spec_dirname(p2)[spec_dirname(p2).len() - 1] != SEP,
    ensures
        spec_resolve(p1, t) == spec_resolve(p2, t) <==> spec_dirname(p1) == spec_dirname(p2),
{
    let d1 = spec_dirname(p1);
    let d2 = spec_dirname(p2);
    let r1 = spec_resolve(p1, t);
    let r2 = spec_resolve(p2, t);
    if d1 == d2 {
        assert(r1 == r2);
    }
    if r1 == r2 && d1 != d2 {
        if d1.len() == 0 || d2.len() == 0 {
            if d1.len() == 0 && d2.len() == 0 {
                assert(d1 =~= d2);
            } else if d1.len() == 0 {
                assert(r1 == t);
                assert(r2 == spec_join(d2, t));
                assert(r2 == d2 + t || r2 == d2 + seq![SEP] + t);
                assert(r2.len() >= d2.len() + t.len());
            } else {
                assert(r2 == t);
                assert(r1 == spec_join(d1, t));
                assert(r1 == d1 + t || r1 == d1 + seq![SEP] + t);
                assert(r1.len() >= d1.len() + t.len());
            }
        } else {
            let e1 = d1[d1.len() - 1] == SEP;
            let e2 = d2[d2.len() - 1] == SEP;
            if e1 && e2 {
                assert(d1.len() == 1 && d2.len() == 1);
                assert(d1 =~= d2);
            } else if e1 {
                assert(d1.len() == 1);
                assert(r1 == d1 + t && r2 == d2 + seq![SEP] + t);
                assert(d2.len() + 1 == d1.len());
                assert(d2.len() == 0);
            } else if e2 {
                assert(d2.len() == 1);
                assert(r2 == d2 + t && r1 == d1 + seq![SEP] + t);
                assert(d1.len() + 1 == d2.len());
                assert(d1.len() == 0);
            } else {
                assert(r1 == d1 + seq![SEP] + t && r2 == d2 + seq![SEP] + t);
                assert(d1.len() == d2.len());
                assert forall|i: int| 0 <= i < d1.len() implies d1[i] == d2[i] by {
                    assert(r1[i] == d1[i] && r2[i] == d2[i]);
                }
                assert(d1 =~= d2);
            }
        }
    }
}

/// One past the index of the last separator of `p`, or 0 if `p` has none.
pub fn find_sep_end(p: &Vec<u8>) -> (r: usize)
    ensures
        r == last_sep(p@) + 1,
{
    let mut i: usize = p.len();
    proof {
        assert(p@.take(p@.len() as int) =~= p@);
    }
    while i > 0 && p[i - 1] != SEP
        invariant
            0 <= i <= p@.len(),
            last_sep(p@) == last_sep(p@.take(i as int)),
        decreases i,
    {
        assert(p@.take(i as int).drop_last() =~= p@.take(i - 1));
        i = i - 1;
    }
    proof {
        if i == 0 {
            assert(p@.take(0int).len() == 0);
        } else {
            assert(p@.take(i as int)[i - 1] == SEP);
        }
    }
    i
}

/// Copies the bytes of `p` from `a` (inclusive) to `b` (exclusive).
pub fn copy_range(p: &Vec<u8>, a: usize, b: usize) -> (r: Vec<u8>)
    requires
        a <= b <= p@.len(),
    ensures
        r@ == p@.subrange(a as int, b as int),
{
    let mut r: Vec<u8> = Vec::new();
    let mut i: usize = a;
    while i < b
        invariant
            a <= i <= b <= p@.len(),
            r@ == p@.subrange(a as int, i as int),
        decreases b - i,
    {
        r.push(p[i]);
        assert(p@.subrange(a as int, i as int).push(p@[i as int]) =~= p@.subrange(
            a as int,
            i + 1 as int,
        ));
        i = i + 1;
    }
    r
}

/// Whether two byte strings are equal.
pub fn bytes_eq(a: &Vec<u8>, b: &Vec<u8>) -> (r: bool)
    ensures
        r == (a@ == b@),
{
    if a.len() != b.len() {
        return false;
    }
    let mut i: usize = 0;
    while i < a.len()
        invariant
            0 <= i <= a@.len(),
            a@.len() == b@.len(),
            forall|j: int| 0 <= j < i ==> a@[j] == b@[j],
        decreases a@.len() - i,
    {
        if a[i] != b[i] {
            return false;
        }
        i = i + 1;
    }
    proof {
        assert(a@ =~= b@);
    }
    true
}

/// The directory part of `p`.
pub fn dirname(p: &Vec<u8>) -> (r: Vec<u8>)
    ensures
        r@ == spec_dirname(p@),
{
    let e = find_sep_end(p);
    proof {
        lemma_last_sep_bounds(p@);
    }
    if e <= 1 {
        copy_range(p, 0, e)
    } else {
        copy_range(p, 0, e - 1)
    }
}

/// Joins target `t` onto directory `dir`.
pub fn join(dir: &Vec<u8>, t: &Vec<u8>) -> (r: Vec<u8>)
    ensures
        r@ == spec_join(dir@, t@),
{
    if t.len() > 0 && t[0] == SEP {
        return copy_range(t, 0, t.len());
    }
    if dir.len() == 0 {
        return copy_range(t, 0, t.len());
    }
    let mut r = copy_range(dir, 0, dir.len());
    if dir[dir.len() - 1] != SEP {
        r.push(SEP);
    }
    let mut i: usize = 0;
    while i < t.len()
        invariant
            0 <= i <= t@.len(),
            dir@.len() > 0,
            t@.len() == 0 || t@[0] != SEP,
            dir@[dir@.len() - 1] == SEP ==> r@ == dir@ + t@.take(i as int),
            dir@[dir@.len() - 1] != SEP ==> r@ == dir@ + seq![SEP] + t@.take(i as int),
        decreases t@.len() - i,
    {
        r.push(t[i]);
        assert(t@.take(i as int).push(t@[i as int]) =~= t@.take(i + 1 as int));
        i = i + 1;
    }
    proof {
        assert(t@.take(t@.len() as int) =~= t@);
        if dir@[dir@.len() - 1] == SEP {
            assert(r@ =~= spec_join(dir@, t@));
        } else {
            assert(r@ =~= spec_join(dir@, t@));
        }
    }
    r
}

/// Resolves import target `t` against the directory of file `p`.
pub fn resolve_target(p: &Vec<u8>, t: &Vec<u8>) -> (r: Vec<u8>)
    ensures
        r@ == spec_resolve(p@, t@),
{
    let d = dirname(p);
    join(&d, t)
}

/// Whether `p` names a source file (final component carries the `c`
/// extension).
pub fn is_source_path(p: &Vec<u8>) -> (r: bool)
    ensures
        r == spec_is_source_path(p@),
{
    if p.len() < 3 {
        return false;
    }
    if p[p.len() - 1] != LETTER_C || p[p.len() - 2] != DOT {
        return false;
    }
    let e = find_sep_end(p);
    proof {
        lemma_last_sep_bounds(p@);
    }
    e <= p.len() - 3
}

} // verus!
