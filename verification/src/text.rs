//! Byte-string utilities shared by the statement parser and the matcher:
//! splitting on a separator byte, line splitting, byte filtering, equality,
//! prefix tests and lexicographic comparison.

use vstd::prelude::*;

verus! {

pub const TAB: u8 = 9;
pub const LF: u8 = 10;
pub const CR: u8 = 13;
pub const QUOTE: u8 = 34;

/// Index of the first occurrence of `c` in `s`, or -1 when `c` does not occur.
pub open spec fn index_of_byte(s: Seq<u8>, c: u8) -> int
    decreases s.len(),
{
    if s.len() == 0 {
        -1
    } else if s[0] == c {
        0
    } else if index_of_byte(s.skip(1), c) < 0 {
        -1
    } else {
        index_of_byte(s.skip(1), c) + 1
    }
}

pub proof fn lemma_index_of_byte(s: Seq<u8>, c: u8)
    ensures
        index_of_byte(s, c) == -1 <==> (forall|j: int| 0 <= j < s.len() ==> s[j] != c),
        index_of_byte(s, c) >= 0 ==> index_of_byte(s, c) < s.len()
            && s[index_of_byte(s, c)] == c
            && (forall|j: int| 0 <= j < index_of_byte(s, c) ==> s[j] != c),
    decreases s.len(),
{
    if s.len() == 0 {
    } else if s[0] == c {
    } else {
        lemma_index_of_byte(s.skip(1), c);
        assert(forall|j: int| 0 <= j < s.skip(1).len() ==> s.skip(1)[j] == s[j + 1]);
        if index_of_byte(s.skip(1), c) == -1 {
            assert forall|j: int| 0 <= j < s.len() implies s[j] != c by {
                if j > 0 {
                    assert(s.skip(1)[j - 1] == s[j]);
                }
            }
        } else {
            let r = index_of_byte(s.skip(1), c);
            assert(s[r + 1] == s.skip(1)[r]);
            assert forall|j: int| 0 <= j < r + 1 implies s[j] != c by {
                if j > 0 {
                    assert(s.skip(1)[j - 1] == s[j]);
                }
            }
        }
    }
}

/// The segments of `s` delimited by `sep`; always at least one segment,
/// and a trailing separator yields a trailing empty segment.
pub open spec fn split_on(s: Seq<u8>, sep: u8) -> Seq<Seq<u8>>
    decreases s.len() via split_on_dec
{
    if index_of_byte(s, sep) < 0 {
        seq![s]
    } else {
        seq![s.take(index_of_byte(s, sep))] + split_on(s.skip(index_of_byte(s, sep) + 1), sep)
    }
}

#[via_fn]
proof fn split_on_dec(s: Seq<u8>, sep: u8) {
    lemma_index_of_byte(s, sep);
}

pub proof fn lemma_split_on_len(s: Seq<u8>, sep: u8)
    ensures
        split_on(s, sep).len() >= 1,
    decreases s.len(),
{
    lemma_index_of_byte(s, sep);
    if index_of_byte(s, sep) >= 0 {
        lemma_split_on_len(s.skip(index_of_byte(s, sep) + 1), sep);
    }
}

/// Splits `s` into the segments delimited by `sep`.
pub fn split_bytes(s: &Vec<u8>, sep: u8) -> (r: Vec<Vec<u8>>)
    ensures
        r.deep_view() == split_on(s@, sep),
{
    let mut r: Vec<Vec<u8>> = Vec::new();
    let mut start: usize = 0;
    let mut j: usize = 0;
    proof {
        assert(r.deep_view() =~= Seq::<Seq<u8>>::empty());
        assert(s@.skip(0) =~= s@);
        assert((r.deep_view() + split_on(s@.skip(0), sep)) =~= split_on(s@, sep));
    }
    loop
        invariant
            start <= j <= s.len(),
            forall|k: int| start <= k < j ==> s@[k] != sep,
            split_on(s@, sep) == r.deep_view() + split_on(s@.skip(start as int), sep),
        decreases s.len() - j,
    {
        if j == s.len() {
            proof {
                lemma_index_of_byte(s@.skip(start as int), sep);
                assert(forall|k: int| 0 <= k < s@.skip(start as int).len()
                    ==> s@.skip(start as int)[k] == s@[k + start]);
                assert(index_of_byte(s@.skip(start as int), sep) == -1);
            }
            let mut seg: Vec<u8> = Vec::new();
            let mut k: usize = start;
            while k < s.len()
                invariant
                    start <= k <= s.len(),
                    seg@ == s@.subrange(start as int, k as int),
                decreases s.len() - k,
            {
                let b = s[k];
                seg.push(b);
                k += 1;
                proof {
                    assert(seg@ =~= s@.subrange(start as int, k as int));
                }
            }
            proof {
                assert(seg@ =~= s@.skip(start as int));
                assert((r.deep_view() + split_on(s@.skip(start as int), sep)) =~=
                    r.deep_view().push(s@.skip(start as int)));
            }
            let ghost old_r = r.deep_view();
            r.push(seg);
            proof {
                assert(r.deep_view() =~~= old_r.push(seg@));
            }
            return r;
        } else if s[j] == sep {
            proof {
                lemma_index_of_byte(s@.skip(start as int), sep);
                assert(forall|k: int| 0 <= k < s@.skip(start as int).len()
                    ==> s@.skip(start as int)[k] == s@[k + start]);
                let i = index_of_byte(s@.skip(start as int), sep);
                assert(s@.skip(start as int)[j - start] == sep);
                assert(i >= 0);
                if i < j - start {
                    assert(s@[i + start] == sep);
                    assert(false);
                }
                if i > j - start {
                    assert(s@.skip(start as int)[j - start] != sep);
                    assert(false);
                }
                assert(i == j - start);
                assert(s@.skip(start as int).take(i) =~= s@.subrange(start as int, j as int));
                assert(s@.skip(start as int).skip(i + 1) =~= s@.skip(j + 1));
            }
            let mut seg: Vec<u8> = Vec::new();
            let mut k: usize = start;
            while k < j
                invariant
                    start <= k <= j <= s.len(),
                    seg@ == s@.subrange(start as int, k as int),
                decreases j - k,
            {
                let b = s[k];
                seg.push(b);
                k += 1;
                proof {
                    assert(seg@ =~= s@.subrange(start as int, k as int));
                }
            }
            let ghost old_r = r.deep_view();
            r.push(seg);
            proof {
                assert(r.deep_view() =~~= old_r.push(seg@));
                assert(split_on(s@, sep) =~~= r.deep_view() + split_on(s@.skip(j + 1), sep));
            }
            start = j + 1;
            j = j + 1;
        } else {
            j = j + 1;
        }
    }
}

/// Copies the bytes of `s` from `a` (inclusive) to `b` (exclusive).
pub fn subrange_vec(s: &Vec<u8>, a: usize, b: usize) -> (r: Vec<u8>)
    requires
        a <= b <= s.len(),
    ensures
        r@ == s@.subrange(a as int, b as int),
{
    let mut r: Vec<u8> = Vec::new();
    let mut k: usize = a;
    while k < b
        invariant
            a <= k <= b <= s.len(),
            r@ == s@.subrange(a as int, k as int),
        decreases b - k,
    {
        let x = s[k];
        r.push(x);
        k += 1;
        proof {
            assert(r@ =~= s@.subrange(a as int, k as int));
        }
    }
    r
}

/// Copies a byte string.
pub fn copy_bytes(s: &Vec<u8>) -> (r: Vec<u8>)
    ensures
        r@ == s@,
{
    let n = s.len();
    let r = subrange_vec(s, 0, n);
    proof {
        assert(s@.subrange(0, n as int) =~= s@);
    }
    r
}

/// One trailing carriage return removed, as a line split on line feeds leaves it.
pub open spec fn strip_cr(s: Seq<u8>) -> Seq<u8> {
    if s.len() > 0 && s.last() == CR {
        s.drop_last()
    } else {
        s
    }
}

/// The lines of `s`: segments split on line feeds, without a final empty
/// segment, each with one trailing carriage return removed.
pub open spec fn spec_lines(s: Seq<u8>) -> Seq<Seq<u8>> {
    let g = split_on(s, LF);
    let h = if g.last().len() == 0 {
        g.drop_last()
    } else {
        g
    };
    h.map_values(|t: Seq<u8>| strip_cr(t))
}

/// Splits `s` into lines: line feeds end lines, an optional final line feed
/// opens no further line, and a carriage return before a line feed is dropped.
pub fn split_lines(s: &Vec<u8>) -> (r: Vec<Vec<u8>>)
    ensures
        r.deep_view() == spec_lines(s@),
{
    let mut segs = split_bytes(s, LF);
    proof {
        lemma_split_on_len(s@, LF);
    }
    let nseg = segs.len();
    if segs[nseg - 1].len() == 0 {
        let ghost old_segs = segs.deep_view();
        let _ = segs.pop();
        proof {
            assert(segs.deep_view() =~~= old_segs.drop_last());
        }
    }
    let mut r: Vec<Vec<u8>> = Vec::new();
    let mut i: usize = 0;
    while i < segs.len()
        invariant
            i <= segs.len(),
            r.deep_view() == segs.deep_view().take(i as int).map_values(|t: Seq<u8>| strip_cr(t)),
        decreases segs.len() - i,
    {
        let seg = &segs[i];
        let ghost old_r = r.deep_view();
        if seg.len() > 0 && seg[seg.len() - 1] == CR {
            let mut t: Vec<u8> = Vec::new();
            let mut k: usize = 0;
            while k < seg.len() - 1
                invariant
                    k <= seg.len() - 1,
                    seg@ == segs.deep_view()[i as int],
                    t@ == seg@.subrange(0, k as int),
                decreases seg.len() - 1 - k,
            {
                let b = seg[k];
                t.push(b);
                k += 1;
                proof {
                    assert(t@ =~= seg@.subrange(0, k as int));
                }
            }
            proof {
                assert(t@ =~= strip_cr(seg@));
            }
            r.push(t);
        } else {
            let mut t: Vec<u8> = Vec::new();
            let mut k: usize = 0;
            while k < seg.len()
                invariant
                    k <= seg.len(),
                    seg@ == segs.deep_view()[i as int],
                    t@ == seg@.subrange(0, k as int),
                decreases seg.len() - k,
            {
                let b = seg[k];
                t.push(b);
                k += 1;
                proof {
                    assert(t@ =~= seg@.subrange(0, k as int));
                }
            }
            proof {
                assert(t@ =~= strip_cr(seg@));
            }
            r.push(t);
        }
        i += 1;
        proof {
            assert(r.deep_view() =~~= old_r.push(strip_cr(segs.deep_view()[i - 1])));
            assert(segs.deep_view().take(i as int) =~=
                segs.deep_view().take(i - 1).push(segs.deep_view()[i - 1]));
        }
    }
    proof {
        assert(segs.deep_view().take(segs.deep_view().len() as int) =~= segs.deep_view());
    }
    r
}

/// `s` with every occurrence of `c` removed.
pub open spec fn remove_all(s: Seq<u8>, c: u8) -> Seq<u8>
    decreases s.len(),
{
    if s.len() == 0 {
        Seq::empty()
    } else if s.last() == c {
        remove_all(s.drop_last(), c)
    } else {
        remove_all(s.drop_last(), c).push(s.last())
    }
}

/// Removes every occurrence of the byte `c` from `s`.
pub fn remove_byte(s: &Vec<u8>, c: u8) -> (r: Vec<u8>)
    ensures
        r@ == remove_all(s@, c),
{
    let mut r: Vec<u8> = Vec::new();
    let mut i: usize = 0;
    while i < s.len()
        invariant
            i <= s.len(),
            r@ == remove_all(s@.take(i as int), c),
        decreases s.len() - i,
    {
        let b = s[i];
        if b != c {
            r.push(b);
        }
        i += 1;
        proof {
            assert(s@.take(i as int).drop_last() =~= s@.take(i - 1));
            assert(s@.take(i as int).last() == s@[i - 1]);
        }
    }
    proof {
        assert(s@.take(s@.len() as int) =~= s@);
    }
    r
}

/// Byte-for-byte equality of two byte strings.
pub fn bytes_eq(a: &Vec<u8>, b: &Vec<u8>) -> (r: bool)
    ensures
        r == (a@ == b@),
{
    if a.len() != b.len() {
        proof {
            assert(a@ != b@);
        }
        return false;
    }
    let mut i: usize = 0;
    while i < a.len()
        invariant
            i <= a.len(),
            a.len() == b.len(),
            forall|j: int| 0 <= j < i ==> a@[j] == b@[j],
        decreases a.len() - i,
    {
        if a[i] != b[i] {
            return false;
        }
        i += 1;
    }
    proof {
        assert(a@ =~= b@);
    }
    true
}

/// Lexicographic order on byte strings: a proper prefix comes first, and
/// otherwise the first differing byte decides.
pub open spec fn lex_le(a: Seq<u8>, b: Seq<u8>) -> bool
    decreases a.len(),
{
    if a.len() == 0 {
        true
    } else if b.len() == 0 {
        false
    } else if a[0] < b[0] {
        true
    } else if a[0] > b[0] {
        false
    } else {
        lex_le(a.skip(1), b.skip(1))
    }
}

/// Any two byte strings are ordered by `lex_le`, one way or the other.
pub proof fn lemma_lex_le_total(a: Seq<u8>, b: Seq<u8>)
    ensures
        lex_le(a, b) || lex_le(b, a),
    decreases a.len(),
{
    if a.len() == 0 || b.len() == 0 {
    } else if a[0] == b[0] {
        lemma_lex_le_total(a.skip(1), b.skip(1));
    }
}

/// `lex_le` is transitive.
pub proof fn lemma_lex_le_trans(a: Seq<u8>, b: Seq<u8>, c: Seq<u8>)
    requires
        lex_le(a, b),
        lex_le(b, c),
    ensures
        lex_le(a, c),
    decreases a.len(),
{
    if a.len() == 0 {
    } else if b.len() == 0 {
    } else if c.len() == 0 {
    } else if a[0] == b[0] && b[0] == c[0] {
        lemma_lex_le_trans(a.skip(1), b.skip(1), c.skip(1));
    }
}

/// Compares two byte strings in the order `lex_le` describes.
pub fn lex_le_bytes(a: &Vec<u8>, b: &Vec<u8>) -> (r: bool)
    ensures
        r == lex_le(a@, b@),
{
    let mut i: usize = 0;
    proof {
        assert(a@.skip(0) =~= a@);
        assert(b@.skip(0) =~= b@);
    }
    loop
        invariant
            i <= a.len(),
            i <= b.len(),
            forall|j: int| 0 <= j < i ==> a@[j] == b@[j],
            lex_le(a@, b@) == lex_le(a@.skip(i as int), b@.skip(i as int)),
        decreases a.len() - i,
    {
        if i == a.len() {
            return true;
        }
        if i == b.len() {
            return false;
        }
        let x = a[i];
        let y = b[i];
        proof {
            assert(a@.skip(i as int)[0] == a@[i as int]);
            assert(b@.skip(i as int)[0] == b@[i as int]);
            assert(a@.skip(i as int).skip(1) =~= a@.skip(i + 1));
            assert(b@.skip(i as int).skip(1) =~= b@.skip(i + 1));
        }
        if x < y {
            return true;
        }
        if x > y {
            return false;
        }
        i += 1;
    }
}

/// Whether `p` is a prefix of `s`.
pub fn is_prefix_bytes(p: &Vec<u8>, s: &Vec<u8>) -> (r: bool)
    ensures
        r == p@.is_prefix_of(s@),
{
    if p.len() > s.len() {
        return false;
    }
    let mut i: usize = 0;
    while i < p.len()
        invariant
            i <= p.len() <= s.len(),
            forall|j: int| 0 <= j < i ==> p@[j] == s@[j],
        decreases p.len() - i,
    {
        if p[i] != s[i] {
            proof {
                assert(s@.subrange(0, p@.len() as int)[i as int] == s@[i as int]);
            }
            return false;
        }
        i += 1;
    }
    proof {
        assert(p@ =~= s@.subrange(0, p@.len() as int));
    }
    true
}

} // verus!
