//! Extraction of locally-quoted import targets from raw file text.
//!
//! Text is scanned line by line. A line qualifies when its first non-space
//! content is the eight-byte import directive marker (`#` followed by the
//! seven letters of the directive's name). From a qualifying line, exactly
//! the bytes between the first pair of double quotes after the marker are
//! taken as the target. Angle-bracket forms and lines without a full quote
//! pair yield nothing; no error is ever raised.

use vstd::prelude::*;

verus! {

/// Byte value of the newline that ends a line.
pub const NL: u8 = 10;

/// Byte value of the double quote that delimits a local target.
pub const QUOTE: u8 = 34;

/// Whether `b` is horizontal space (blank or tab).
pub open spec fn is_space(b: u8) -> bool {
    b == 32 || b == 9
}

/// Index of the first byte at or after `i` that is not horizontal space, or
/// the length of `s` if every byte from `i` on is space.
pub open spec fn skip_spaces(s: Seq<u8>, i: int) -> int
    decreases s.len() - i,
{
    if i < 0 || i >= s.len() {
        s.len() as int
    } else if is_space(s[i]) {
        skip_spaces(s, i + 1)
    } else {
        i
    }
}

/// Index of the first occurrence of `b` at or after `i`, or the length of
/// `s` if `b` does not occur there.
pub open spec fn find_byte(s: Seq<u8>, i: int, b: u8) -> int
    decreases s.len() - i,
{
    if i < 0 || i >= s.len() {
        s.len() as int
    } else if s[i] == b {
        i
    } else {
        find_byte(s, i + 1, b)
    }
}

pub proof fn lemma_skip_spaces(s: Seq<u8>, i: int)
    requires
        0 <= i <= s.len(),
    ensures
        i <= skip_spaces(s, i) <= s.len(),
        skip_spaces(s, i) < s.len() ==> !is_space(s[skip_spaces(s, i)]),
        forall|j: int| i <= j < skip_spaces(s, i) ==> is_space(s[j]),
    decreases s.len() - i,
{
    if i < s.len() && is_space(s[i]) {
        lemma_skip_spaces(s, i + 1);
    }
}

pub proof fn lemma_find_byte(s: Seq<u8>, i: int, b: u8)
    requires
        0 <= i <= s.len(),
    ensures
        i <= find_byte(s, i, b) <= s.len(),
        find_byte(s, i, b) < s.len() ==> s[find_byte(s, i, b)] == b,
        forall|j: int| i <= j < find_byte(s, i, b) ==> s[j] != b,
    decreases s.len() - i,
{
    if i < s.len() && s[i] != b {
        lemma_find_byte(s, i + 1, b);
    }
}

/// Whether the eight-byte import directive marker stands at index `i` of `l`.
pub open spec fn is_marker_at(l: Seq<u8>, i: int) -> bool {
    &&& 0 <= i
    &&& i + 8 <= l.len()
    &&& l[i] == 35
    &&& l[i + 1] == 105
    &&& l[i + 2] == 110
    &&& l[i + 3] == 99
    &&& l[i + 4] == 108
    &&& l[i + 5] == 117
    &&& l[i + 6] == 100
    &&& l[i + 7] == 101
}

/// The target a single line yields: the bytes between the first pair of
/// double quotes after the directive marker, if the line qualifies and such
/// a pair exists.
pub open spec fn maybe_target(l: Seq<u8>) -> Option<Seq<u8>> {
    let s = skip_spaces(l, 0);
    if !is_marker_at(l, s) {
        Option::None
    } else {
        let q1 = find_byte(l, s + 8, QUOTE);
        if q1 >= l.len() {
            Option::None
        } else {
            let q2 = find_byte(l, q1 + 1, QUOTE);
            if q2 >= l.len() {
                Option::None
            } else {
                Option::Some(l.subrange(q1 + 1, q2))
            }
        }
    }
}

/// The targets yielded by the lines of `s` from index `i` on, in order of
/// appearance.
pub open spec fn extract_from(s: Seq<u8>, i: int) -> Seq<Seq<u8>>
    decreases s.len() - i,
    via extract_from_decreases
{
    if i < 0 || i >= s.len() {
        Seq::empty()
    } else {
        let e = find_byte(s, i, NL);
        let rest = if e < s.len() {
            extract_from(s, e + 1)
        } else {
            Seq::<Seq<u8>>::empty()
        };
        match maybe_target(s.subrange(i, e)) {
            Option::Some(t) => seq![t] + rest,
            Option::None => rest,
        }
    }
}

#[via_fn]
proof fn extract_from_decreases(s: Seq<u8>, i: int) {
    if 0 <= i < s.len() {
        lemma_find_byte(s, i, NL);
    }
}

/// The ordered targets of every line of `s`.
pub open spec fn spec_extract(s: Seq<u8>) -> Seq<Seq<u8>> {
    extract_from(s, 0)
}

/// Extraction scope: a line yields a target only when its first non-space
/// content is the directive marker and a full double-quote pair follows the
/// marker. A line without two quotes — the angle-bracket form among them —
/// yields nothing, and a yielded target is exactly the span between the
/// first quote pair, so it never carries a quote itself.
pub proof fn lemma_extraction_scope(l: Seq<u8>)
    ensures
        !is_marker_at(l, skip_spaces(l, 0)) ==> maybe_target(l) is None,
        (forall|j: int| 0 <= j < l.len() ==> l[j] != QUOTE) ==> maybe_target(l) is None,
        (forall|j1: int, j2: int|
            0 <= j1 < l.len() && 0 <= j2 < l.len() && #[trigger] l[j1] == QUOTE && #[trigger] l[j2]
                == QUOTE ==> j1 == j2) ==> maybe_target(l) is None,
        (maybe_target(l) matches Some(tt) ==> forall|m: int|
            0 <= m < tt.len() ==> #[trigger] tt[m] != QUOTE),
{
    let s = skip_spaces(l, 0);
    lemma_skip_spaces(l, 0);
    if is_marker_at(l, s) {
        let q1 = find_byte(l, s + 8, QUOTE);
        lemma_find_byte(l, s + 8, QUOTE);
        if q1 < l.len() {
            let q2 = find_byte(l, q1 + 1, QUOTE);
            lemma_find_byte(l, q1 + 1, QUOTE);
            assert(l[q1] == QUOTE);
            if q2 < l.len() {
                assert(l[q2] == QUOTE && q1 != q2);
                let tt = l.subrange(q1 + 1, q2);
                assert forall|m: int| 0 <= m < tt.len() implies #[trigger] tt[m] != QUOTE by {
                    assert(tt[m] == l[q1 + 1 + m]);
                }
            }
        }
    }
}

/// Index of the first occurrence of `b` at or after `from`, or `v.len()`.
pub fn find_byte_from(v: &Vec<u8>, from: usize, b: u8) -> (r: usize)
    requires
        from <= v@.len(),
    ensures
        r == find_byte(v@, from as int, b),
{
    let mut j: usize = from;
    while j < v.len() && v[j] != b
        invariant
            from <= j <= v@.len(),
            find_byte(v@, from as int, b) == find_byte(v@, j as int, b),
        decreases v@.len() - j,
    {
        j = j + 1;
    }
    j
}

/// The target of one line, if any.
pub fn target_of_line(line: &Vec<u8>) -> (r: Option<Vec<u8>>)
    ensures
        match r {
            Option::Some(v) => maybe_target(line@) == Option::Some(v@),
            Option::None => maybe_target(line@) is None,
        },
{
    let mut s: usize = 0;
    while s < line.len() && (line[s] == 32 || line[s] == 9)
        invariant
            0 <= s <= line@.len(),
            skip_spaces(line@, 0) == skip_spaces(line@, s as int),
        decreases line@.len() - s,
    {
        s = s + 1;
    }
    if line.len() - s < 8 {
        return None;
    }
    if line[s] != 35 || line[s + 1] != 105 || line[s + 2] != 110 || line[s + 3] != 99 || line[s + 4]
        != 108 || line[s + 5] != 117 || line[s + 6] != 100 || line[s + 7] != 101 {
        return None;
    }
    let q1 = find_byte_from(line, s + 8, QUOTE);
    proof {
        lemma_find_byte(line@, s + 8, QUOTE);
    }
    if q1 == line.len() {
        return None;
    }
    let q2 = find_byte_from(line, q1 + 1, QUOTE);
    proof {
        lemma_find_byte(line@, q1 + 1, QUOTE);
    }
    if q2 == line.len() {
        return None;
    }
    Some(crate::paths::copy_range(line, q1 + 1, q2))
}

/// The ordered list of quoted import targets in `content`, line by line.
pub fn extract_imports(content: &Vec<u8>) -> (r: Vec<Vec<u8>>)
    ensures
        r@.map_values(|v: Vec<u8>| v@) == spec_extract(content@),
{
    let mut r: Vec<Vec<u8>> = Vec::new();
    let mut i: usize = 0;
    while i < content.len()
        invariant
            0 <= i <= content@.len(),
            r@.map_values(|v: Vec<u8>| v@) + extract_from(content@, i as int) == spec_extract(
                content@,
            ),
        decreases content@.len() - i,
    {
        let e = find_byte_from(content, i, NL);
        proof {
            lemma_find_byte(content@, i as int, NL);
        }
        let line = crate::paths::copy_range(content, i, e);
        let ghost rest = if e < content@.len() {
            extract_from(content@, e + 1)
        } else {
            Seq::<Seq<u8>>::empty()
        };
        proof {
            assert(line@ == content@.subrange(i as int, e as int));
            assert(extract_from(content@, i as int) == (match maybe_target(line@) {
                Option::Some(x) => seq![x] + rest,
                Option::None => rest,
            }));
        }
        match target_of_line(&line) {
            Some(v) => {
                proof {
                    assert(r@.push(v).map_values(|v: Vec<u8>| v@) =~~= r@.map_values(
                        |v: Vec<u8>| v@,
                    ) + seq![v@]);
                }
                r.push(v);
                proof {
                    assert(r@.map_values(|v: Vec<u8>| v@) + rest =~~= spec_extract(content@));
                }
            },
            None => {},
        }
        if e < content.len() {
            i = e + 1;
        } else {
            i = content.len();
        }
        proof {
            assert(extract_from(content@, i as int) == rest);
        }
    }
    proof {
        assert(extract_from(content@, i as int) =~~= Seq::<Seq<u8>>::empty());
        assert(r@.map_values(|v: Vec<u8>| v@) =~~= spec_extract(content@));
    }
    r
}

} // verus!
