//! Byte-string utilities shared by the parsers: whitespace trimming,
//! splitting on a separator pattern (leftmost match, as `str::split`),
//! and slice equality, each with an exact specification.

use vstd::prelude::*;
use vstd::slice::slice_subrange;
use vstd::slice::slice_to_vec;

verus! {

/// ASCII whitespace, as `str::trim` treats it on ASCII input.
pub open spec fn is_space(b: u8) -> bool {
    b == 32 || (9 <= b && b <= 13)
}

pub open spec fn trim_start_spec(s: Seq<u8>) -> Seq<u8>
    decreases s.len(),
{
    if s.len() > 0 && is_space(s[0]) {
        trim_start_spec(s.skip(1))
    } else {
        s
    }
}

pub open spec fn trim_end_spec(s: Seq<u8>) -> Seq<u8>
    decreases s.len(),
{
    if s.len() > 0 && is_space(s.last()) {
        trim_end_spec(s.drop_last())
    } else {
        s
    }
}

/// Leading and trailing ASCII whitespace removed.
pub open spec fn trim_spec(s: Seq<u8>) -> Seq<u8> {
    trim_end_spec(trim_start_spec(s))
}

proof fn lemma_trim_start_at(s: Seq<u8>, k: int)
    requires
        0 <= k <= s.len(),
        forall|i: int| 0 <= i < k ==> is_space(#[trigger] s[i]),
        k < s.len() ==> !is_space(s[k]),
    ensures
        trim_start_spec(s) == s.skip(k),
    decreases k,
{
    if k == 0 {
        if s.len() > 0 && is_space(s[0]) {
            assert(false);
        }
        assert(s.skip(0) =~= s);
    } else {
        lemma_trim_start_at(s.skip(1), k - 1);
        assert(s.skip(1).skip(k - 1) =~= s.skip(k));
    }
}

proof fn lemma_trim_end_at(s: Seq<u8>, k: int)
    requires
        0 <= k <= s.len(),
        forall|i: int| k <= i < s.len() ==> is_space(#[trigger] s[i]),
        k > 0 ==> !is_space(s[k - 1]),
    ensures
        trim_end_spec(s) == s.take(k),
    decreases s.len() - k,
{
    if k == s.len() {
        if s.len() > 0 && is_space(s.last()) {
            lemma_trim_end_at(s.drop_last(), k - 1);
            assert(s.drop_last() =~= s.take(k - 1));
        } else {
            assert(s.take(k) =~= s);
        }
    } else {
        lemma_trim_end_at(s.drop_last(), k);
        assert(s.drop_last() =~= s.take(s.len() - 1));
        assert(s.take(s.len() - 1).take(k) =~= s.take(k));
    }
}

/// Strips leading and trailing ASCII whitespace, as `str::trim` does on
/// ASCII text.
pub fn trim(s: &[u8]) -> (r: &[u8])
    ensures
        r@ == trim_spec(s@),
{
    let n = s.len();
    let mut a: usize = 0;
    while a < n && (s[a] == 32 || (9 <= s[a] && s[a] <= 13))
        invariant
            a <= n,
            n == s@.len(),
            forall|i: int| 0 <= i < a ==> is_space(#[trigger] s@[i]),
        decreases n - a,
    {
        a += 1;
    }
    let mut b: usize = n;
    while b > a && (s[b - 1] == 32 || (9 <= s[b - 1] && s[b - 1] <= 13))
        invariant
            a <= b <= n,
            n == s@.len(),
            forall|i: int| b <= i < n ==> is_space(#[trigger] s@[i]),
        decreases b,
    {
        b -= 1;
    }
    proof {
        lemma_trim_start_at(s@, a as int);
        if b == a {
            lemma_trim_end_at(s@.skip(a as int), 0);
        } else {
            lemma_trim_end_at(s@.skip(a as int), b - a);
        }
        assert(s@.skip(a as int).take(b - a) =~= s@.subrange(a as int, b as int));
    }
    slice_subrange(s, a, b)
}

/// Index of the first occurrence of `p` in `s` at or after `from`,
/// or `-1` if there is none.
pub open spec fn first_match(s: Seq<u8>, p: Seq<u8>, from: int) -> int
    decreases s.len() - from,
{
    if p.len() == 0 || from < 0 || from + p.len() > s.len() {
        -1
    } else if s.subrange(from, from + p.len()) == p {
        from
    } else {
        first_match(s, p, from + 1)
    }
}

/// `s` split on the leftmost occurrences of `p`, as `str::split` splits.
pub open spec fn split_spec(s: Seq<u8>, p: Seq<u8>) -> Seq<Seq<u8>>
    decreases s.len()
        via split_spec_decreases
{
    let m = first_match(s, p, 0);
    if m < 0 {
        seq![s]
    } else {
        seq![s.take(m)] + split_spec(s.skip(m + p.len()), p)
    }
}

#[via_fn]
proof fn split_spec_decreases(s: Seq<u8>, p: Seq<u8>) {
    let m = first_match(s, p, 0);
    if m >= 0 {
        lemma_first_match_bounds(s, p, 0);
    }
}

pub proof fn lemma_first_match_bounds(s: Seq<u8>, p: Seq<u8>, from: int)
    requires
        from >= 0,
    ensures
        first_match(s, p, from) == -1 || (from <= first_match(s, p, from) && p.len() >= 1
            && first_match(s, p, from) + p.len() <= s.len()),
    decreases s.len() - from,
{
    if !(p.len() == 0 || from + p.len() > s.len()) && !(s.subrange(from, from + p.len()) == p) {
        lemma_first_match_bounds(s, p, from + 1);
    }
}

/// Whether `p` occurs in `s` starting at `i`.
fn pat_at(s: &[u8], i: usize, p: &[u8]) -> (r: bool)
    requires
        i + p@.len() <= s@.len(),
    ensures
        r == (s@.subrange(i as int, i + p@.len()) == p@),
{
    let n = s.len();
    let m = p.len();
    let mut j: usize = 0;
    while j < m
        invariant
            j <= m,
            m == p@.len(),
            n == s@.len(),
            i + m <= n,
            forall|k: int| 0 <= k < j ==> s@[i + k] == #[trigger] p@[k],
        decreases m - j,
    {
        if s[i + j] != p[j] {
            proof {
                assert(s@.subrange(i as int, i + p@.len())[j as int] != p@[j as int]);
            }
            return false;
        }
        j += 1;
    }
    proof {
        assert(s@.subrange(i as int, i + p@.len()) =~= p@);
    }
    true
}

/// The two slices hold the same bytes.
pub fn bytes_eq(a: &[u8], b: &[u8]) -> (r: bool)
    ensures
        r == (a@ == b@),
{
    if a.len() != b.len() {
        return false;
    }
    let r = pat_at(a, 0, b);
    proof {
        assert(a@.subrange(0, a@.len() as int) =~= a@);
    }
    r
}

/// Splits `s` on occurrences of `p`, leftmost first, as `str::split` does.
pub fn split_pat(s: &[u8], p: &[u8]) -> (parts: Vec<Vec<u8>>)
    requires
        p@.len() >= 1,
    ensures
        parts@.map_values(|v: Vec<u8>| v@) == split_spec(s@, p@),
        parts@.len() >= 1,
{
    let n = s.len();
    let m = p.len();
    let mut parts: Vec<Vec<u8>> = Vec::new();
    if m > n {
        let piece = slice_to_vec(s);
        parts.push(piece);
        proof {
            assert(parts@.map_values(|v: Vec<u8>| v@) =~= seq![s@]);
        }
        return parts;
    }
    let mut start: usize = 0;
    let mut i: usize = 0;
    proof {
        assert(s@.skip(0) =~= s@);
        assert(parts@.map_values(|v: Vec<u8>| v@) + split_spec(s@, p@) =~= split_spec(s@, p@));
    }
    while i <= n - m
        invariant
            m == p@.len(),
            n == s@.len(),
            1 <= m <= n,
            start <= i <= n,
            split_spec(s@, p@) == parts@.map_values(|v: Vec<u8>| v@) + split_spec(
                s@.skip(start as int),
                p@,
            ),
            first_match(s@.skip(start as int), p@, 0) == first_match(
                s@.skip(start as int),
                p@,
                i - start,
            ),
        decreases n - i,
    {
        if pat_at(s, i, p) {
            proof {
                let suf = s@.skip(start as int);
                assert(suf.subrange(i - start, i - start + m) =~= s@.subrange(
                    i as int,
                    i + m,
                ));
                assert(first_match(suf, p@, i - start) == i - start);
                assert(suf.take(i - start) =~= s@.subrange(start as int, i as int));
                assert(suf.skip(i - start + m) =~= s@.skip(i + m));
            }
            let piece = slice_to_vec(slice_subrange(s, start, i));
            let ghost old_parts = parts@;
            parts.push(piece);
            proof {
                assert(parts@.map_values(|v: Vec<u8>| v@) =~= old_parts.map_values(
                    |v: Vec<u8>| v@,
                ).push(s@.subrange(start as int, i as int)));
            }
            start = i + m;
            i = start;
        } else {
            proof {
                let suf = s@.skip(start as int);
                assert(suf.subrange(i - start, i - start + m) =~= s@.subrange(
                    i as int,
                    i + m,
                ));
            }
            i += 1;
        }
    }
    proof {
        let suf = s@.skip(start as int);
        assert(first_match(suf, p@, i - start) == -1);
    }
    let piece = slice_to_vec(slice_subrange(s, start, n));
    let ghost old_parts = parts@;
    parts.push(piece);
    proof {
        let suf = s@.skip(start as int);
        assert(split_spec(suf, p@) =~= seq![suf]);
        assert(s@.subrange(start as int, n as int) =~= suf);
        assert(parts@.map_values(|v: Vec<u8>| v@) =~= old_parts.map_values(
            |v: Vec<u8>| v@,
        ).push(suf));
    }
    parts
}

/// Appends all of `s` to `v`.
pub fn push_all(v: &mut Vec<u8>, s: &[u8])
    ensures
        final(v)@ == old(v)@ + s@,
{
    let n = s.len();
    let mut i: usize = 0;
    while i < n
        invariant
            i <= n,
            n == s@.len(),
            v@ == old(v)@ + s@.take(i as int),
        decreases n - i,
    {
        v.push(s[i]);
        proof {
            assert(old(v)@ + s@.take(i + 1) =~= (old(v)@ + s@.take(i as int)).push(s@[i as int]));
        }
        i += 1;
    }
    proof {
        assert(s@.take(n as int) =~= s@);
    }
}


/// The parts joined with a single `sep` byte between them.
pub open spec fn join_with(parts: Seq<Seq<u8>>, sep: u8) -> Seq<u8>
    decreases parts.len(),
{
    if parts.len() == 0 {
        Seq::empty()
    } else if parts.len() == 1 {
        parts[0]
    } else {
        parts[0] + seq![sep] + join_with(parts.skip(1), sep)
    }
}

/// `sep` does not occur in `s`.
pub open spec fn free_of(s: Seq<u8>, sep: u8) -> bool {
    forall|i: int| 0 <= i < s.len() ==> s[i] != sep
}

/// Joining and taking one more part appends a separator and the part.
pub proof fn lemma_join_with_snoc(parts: Seq<Seq<u8>>, sep: u8, i: int)
    requires
        0 <= i < parts.len(),
    ensures
        join_with(parts.take(i + 1), sep) == if i == 0 {
            parts[0]
        } else {
            join_with(parts.take(i), sep) + seq![sep] + parts[i]
        },
    decreases i,
{
    if i == 0 {
        assert(parts.take(1) =~= seq![parts[0]]);
    } else {
        lemma_join_with_snoc(parts.skip(1), sep, i - 1);
        assert(parts.take(i + 1).skip(1) =~= parts.skip(1).take(i));
        assert(parts.take(i).skip(1) =~= parts.skip(1).take(i - 1));
        assert(parts.take(i + 1)[0] == parts[0]);
        assert(parts.take(i)[0] == parts[0]);
        assert(parts.skip(1)[i - 1] == parts[i]);
        if i == 1 {
            assert(join_with(parts.take(2), sep) =~= join_with(parts.take(1), sep) + seq![sep]
                + parts[1]);
        } else {
            assert(join_with(parts.take(i + 1), sep) =~= join_with(parts.take(i), sep) + seq![sep]
                + parts[i]);
        }
    }
}

/// In a clean prefix followed by a separator, the first match sits at
/// the separator.
proof fn lemma_first_match_byte(s: Seq<u8>, sep: u8, from: int, k: int)
    requires
        0 <= from <= k <= s.len(),
        forall|i: int| from <= i < k ==> s[i] != sep,
        k < s.len() ==> s[k] == sep,
    ensures
        first_match(s, seq![sep], from) == if k < s.len() {
            k
        } else {
            -1
        },
    decreases k - from,
{
    if from < k {
        assert(s.subrange(from, from + 1) =~= seq![s[from]]);
        if s.subrange(from, from + 1) == seq![sep] {
            assert(s.subrange(from, from + 1)[0] == sep);
            assert(false);
        }
        lemma_first_match_byte(s, sep, from + 1, k);
    } else {
        if k < s.len() {
            assert(s.subrange(k, k + 1) =~= seq![sep]);
        }
    }
}

/// Splitting a separator-joined sequence of separator-free parts gives
/// the parts back.
pub proof fn lemma_split_of_join(parts: Seq<Seq<u8>>, sep: u8)
    requires
        parts.len() >= 1,
        forall|j: int| 0 <= j < parts.len() ==> free_of(#[trigger] parts[j], sep),
    ensures
        split_spec(join_with(parts, sep), seq![sep]) == parts,
    decreases parts.len(),
{
    let s = join_with(parts, sep);
    if parts.len() == 1 {
        assert(s == parts[0]);
        lemma_first_match_byte(s, sep, 0, s.len() as int);
        assert(split_spec(s, seq![sep]) =~= parts);
    } else {
        let rest = join_with(parts.skip(1), sep);
        assert(s == parts[0] + seq![sep] + rest);
        let k = parts[0].len() as int;
        assert forall|i: int| 0 <= i < k implies s[i] != sep by {
            assert(s[i] == parts[0][i]);
        }
        assert(s[k] == sep);
        lemma_first_match_byte(s, sep, 0, k);
        assert(s.take(k) =~= parts[0]);
        assert(s.skip(k + 1) =~= rest);
        assert forall|j: int| 0 <= j < parts.skip(1).len() implies free_of(
            #[trigger] parts.skip(1)[j],
            sep,
        ) by {
            assert(parts.skip(1)[j] == parts[j + 1]);
        }
        lemma_split_of_join(parts.skip(1), sep);
        assert(split_spec(s, seq![sep]) =~= seq![parts[0]] + parts.skip(1));
        assert(seq![parts[0]] + parts.skip(1) =~= parts);
    }
}
} // verus!
