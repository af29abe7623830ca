//! Splitting a byte string at a separator and joining pieces back.
//!
//! The wire codec's datagrams are sequences of sections separated by `|`,
//! with sub-fields separated by `:` or `,`. Splitting the join of
//! separator-free pieces gives the pieces back; that inverse is the heart
//! of the codec's round-trip law.

use vstd::prelude::*;

verus! {

/// Index of the first occurrence of `sep` in `s`, or -1.
pub open spec fn first_ix(s: Seq<u8>, sep: u8) -> int
    decreases s.len(),
{
    if s.len() == 0 {
        -1
    } else if s[0] == sep {
        0
    } else {
        let r = first_ix(s.skip(1), sep);
        if r < 0 {
            -1
        } else {
            r + 1
        }
    }
}

pub proof fn lemma_first_ix_bounds(s: Seq<u8>, sep: u8)
    ensures
        first_ix(s, sep) >= 0 ==> first_ix(s, sep) < s.len() && s[first_ix(s, sep)] == sep
            && (forall|j: int| 0 <= j < first_ix(s, sep) ==> s[j] != sep),
        first_ix(s, sep) < 0 ==> !s.contains(sep),
    decreases s.len(),
{
    if s.len() > 0 && s[0] != sep {
        lemma_first_ix_bounds(s.skip(1), sep);
        let r = first_ix(s.skip(1), sep);
        if r >= 0 {
            assert(s[r + 1] == s.skip(1)[r]);
            assert forall|j: int| 0 <= j < r + 1 implies s[j] != sep by {
                if j > 0 {
                    assert(s.skip(1)[j - 1] != sep);
                }
            }
        } else {
            if s.contains(sep) {
                let i = choose|i: int| 0 <= i < s.len() && s[i] == sep;
                assert(s.skip(1)[i - 1] == sep);
                assert(s.skip(1).contains(sep));
            }
        }
    }
}

/// The first separator of `a + [sep] + b` stands right after `a` when `a`
/// is separator-free.
pub proof fn lemma_first_ix_concat(a: Seq<u8>, b: Seq<u8>, sep: u8)
    requires
        !a.contains(sep),
    ensures
        first_ix(a + seq![sep] + b, sep) == a.len(),
{
    let s = a + seq![sep] + b;
    assert(s[a.len() as int] == sep);
    assert forall|j: int| 0 <= j < a.len() implies s[j] != sep by {
        assert(s[j] == a[j]);
        if a[j] == sep {
            assert(a.contains(sep));
        }
    }
    lemma_first_ix_bounds(s, sep);
    let r = first_ix(s, sep);
    if r < 0 {
        assert(s.contains(sep));
    }
    if r < a.len() {
        assert(s[r] != sep);
    }
    if r > a.len() {
        assert(s[a.len() as int] != sep);
    }
}

/// Pieces of `s` between occurrences of `sep`, in order. Splitting the
/// empty string yields one empty piece.
pub open spec fn split_at(s: Seq<u8>, sep: u8) -> Seq<Seq<u8>>
    decreases s.len(),
    via split_at_dec
{
    let i = first_ix(s, sep);
    if i < 0 {
        seq![s]
    } else {
        seq![s.take(i)] + split_at(s.skip(i + 1), sep)
    }
}

#[via_fn]
proof fn split_at_dec(s: Seq<u8>, sep: u8) {
    lemma_first_ix_bounds(s, sep);
}

pub proof fn lemma_split_at_wf(s: Seq<u8>, sep: u8)
    ensures
        split_at(s, sep).len() >= 1,
    decreases s.len(),
{
    let i = first_ix(s, sep);
    if i >= 0 {
        lemma_first_ix_bounds(s, sep);
        lemma_split_at_wf(s.skip(i + 1), sep);
    }
}

/// Join pieces with a single separator byte between them.
pub open spec fn join_with(ps: Seq<Seq<u8>>, sep: u8) -> Seq<u8>
    decreases ps.len(),
{
    if ps.len() == 0 {
        Seq::empty()
    } else if ps.len() == 1 {
        ps[0]
    } else {
        ps[0] + seq![sep] + join_with(ps.skip(1), sep)
    }
}

/// Appending one piece extends the join by a separator and the piece.
pub proof fn lemma_join_snoc(ps: Seq<Seq<u8>>, p: Seq<u8>, sep: u8)
    ensures
        ps.len() == 0 ==> join_with(ps.push(p), sep) == p,
        ps.len() > 0 ==> join_with(ps.push(p), sep) == join_with(ps, sep) + seq![sep] + p,
    decreases ps.len(),
{
    if ps.len() == 0 {
        assert(join_with(ps.push(p), sep) == ps.push(p)[0]);
    } else if ps.len() == 1 {
        assert(ps.push(p).skip(1) =~= seq![p]);
        assert(ps.push(p)[0] == ps[0]);
        assert(join_with(seq![p], sep) == p);
        assert(join_with(ps, sep) == ps[0]);
        assert(join_with(ps.push(p), sep) == ps[0] + seq![sep] + p);
    } else {
        assert(ps.push(p).skip(1) =~= ps.skip(1).push(p));
        assert(ps.push(p)[0] == ps[0]);
        lemma_join_snoc(ps.skip(1), p, sep);
        assert(join_with(ps.push(p), sep) == ps[0] + seq![sep] + (join_with(ps.skip(1), sep)
            + seq![sep] + p));
        assert(ps[0] + seq![sep] + (join_with(ps.skip(1), sep) + seq![sep] + p) =~= (ps[0]
            + seq![sep] + join_with(ps.skip(1), sep)) + seq![sep] + p);
    }
}

/// A join of pieces free of a byte, with a different separator, is free of
/// that byte.
pub proof fn lemma_join_no_byte(ps: Seq<Seq<u8>>, sep: u8, b: u8)
    requires
        b != sep ==> forall|i: int| 0 <= i < ps.len() ==> !(#[trigger] ps[i]).contains(b),
        b == sep ==> ps.len() <= 1 && (forall|i: int|
            0 <= i < ps.len() ==> !(#[trigger] ps[i]).contains(b)),
    ensures
        !join_with(ps, sep).contains(b),
    decreases ps.len(),
{
    if ps.len() > 1 {
        lemma_join_no_byte(ps.skip(1), sep, b);
        let j = join_with(ps, sep);
        if j.contains(b) {
            let i = choose|i: int| 0 <= i < j.len() && j[i] == b;
            if i < ps[0].len() {
                assert(ps[0].contains(b));
            } else if i > ps[0].len() {
                let rest = join_with(ps.skip(1), sep);
                assert(rest[i - ps[0].len() - 1] == b);
                assert(rest.contains(b));
            }
        }
    }
}

/// Concatenation preserves freeness from a byte.
pub proof fn lemma_concat_free(a: Seq<u8>, b: Seq<u8>, x: u8)
    requires
        !a.contains(x),
        !b.contains(x),
    ensures
        !(a + b).contains(x),
{
    if (a + b).contains(x) {
        let i = choose|i: int| 0 <= i < (a + b).len() && (a + b)[i] == x;
        if i < a.len() {
            assert(a[i] == x);
        } else {
            assert(b[i - a.len()] == x);
        }
    }
}

/// A join of UTF-8 pieces on an ASCII separator is UTF-8.
pub proof fn lemma_join_utf8(ps: Seq<Seq<u8>>, sep: u8)
    requires
        sep < 0x80,
        forall|i: int| 0 <= i < ps.len() ==> crate::text::is_utf8(#[trigger] ps[i]),
    ensures
        crate::text::is_utf8(join_with(ps, sep)),
    decreases ps.len(),
{
    if ps.len() == 0 {
    } else if ps.len() == 1 {
    } else {
        assert forall|i: int| 0 <= i < ps.skip(1).len() implies crate::text::is_utf8(
            #[trigger] ps.skip(1)[i],
        ) by {
            assert(ps.skip(1)[i] == ps[i + 1]);
        }
        lemma_join_utf8(ps.skip(1), sep);
        crate::text::lemma_ascii_is_utf8(seq![sep]);
        crate::text::lemma_utf8_concat(ps[0], seq![sep]);
        crate::text::lemma_utf8_concat(ps[0] + seq![sep], join_with(ps.skip(1), sep));
        assert(ps[0] + seq![sep] + join_with(ps.skip(1), sep) =~= (ps[0] + seq![sep]) + join_with(
            ps.skip(1),
            sep,
        ));
    }
}

/// Splitting the join of separator-free pieces yields the pieces.
pub proof fn lemma_split_join(ps: Seq<Seq<u8>>, sep: u8)
    requires
        ps.len() >= 1,
        forall|i: int| 0 <= i < ps.len() ==> !(#[trigger] ps[i]).contains(sep),
    ensures
        split_at(join_with(ps, sep), sep) == ps,
    decreases ps.len(),
{
    if ps.len() == 1 {
        let s = ps[0];
        lemma_first_ix_bounds(s, sep);
        if first_ix(s, sep) >= 0 {
            assert(s.contains(sep));
        }
        assert(split_at(join_with(ps, sep), sep) =~= ps);
    } else {
        let s = join_with(ps, sep);
        let rest = join_with(ps.skip(1), sep);
        lemma_first_ix_concat(ps[0], rest, sep);
        let i = first_ix(s, sep);
        assert(i == ps[0].len());
        assert(s.take(i) =~= ps[0]);
        assert(s.skip(i + 1) =~= rest);
        assert forall|j: int| 0 <= j < ps.skip(1).len() implies !(#[trigger] ps.skip(
            1,
        )[j]).contains(sep) by {
            assert(ps.skip(1)[j] == ps[j + 1]);
        }
        lemma_split_join(ps.skip(1), sep);
        assert(split_at(s, sep) =~= seq![s.take(i)] + split_at(rest, sep));
        assert(split_at(s, sep) =~= ps);
    }
}

/// Split a byte string at every occurrence of `sep`.
pub fn split_bytes(data: &[u8], sep: u8) -> (r: Vec<Vec<u8>>)
    ensures
        r@.map_values(|p: Vec<u8>| p@) == split_at(data@, sep),
        r@.len() >= 1,
{
    let mut parts: Vec<Vec<u8>> = Vec::new();
    let mut piece: Vec<u8> = Vec::new();
    let mut i: usize = 0;
    proof {
        assert(piece@ + data@.skip(0) =~= data@);
        assert(parts@.map_values(|p: Vec<u8>| p@) =~= Seq::<Seq<u8>>::empty());
        assert(Seq::<Seq<u8>>::empty() + split_at(data@, sep) =~= split_at(data@, sep));
    }
    while i < data.len()
        invariant
            i <= data@.len(),
            !piece@.contains(sep),
            split_at(data@, sep) == parts@.map_values(|p: Vec<u8>| p@) + split_at(
                piece@ + data@.skip(i as int),
                sep,
            ),
        decreases data@.len() - i,
    {
        let b = data[i];
        let ghost tail = data@.skip(i as int);
        let ghost cur = piece@ + tail;
        let ghost prev_parts = parts@.map_values(|p: Vec<u8>| p@);
        let ghost prev_piece = piece@;
        proof {
            assert(tail[0] == data@[i as int]);
        }
        if b == sep {
            proof {
                lemma_first_ix_concat(prev_piece, data@.skip(i + 1), sep);
                assert(cur =~= prev_piece + seq![sep] + data@.skip(i + 1));
                let fi = first_ix(cur, sep);
                assert(fi == prev_piece.len());
                assert(cur.take(fi) =~= prev_piece);
                assert(cur.skip(fi + 1) =~= data@.skip(i + 1));
            }
            let done = piece;
            parts.push(done);
            piece = Vec::new();
            proof {
                assert(parts@.map_values(|p: Vec<u8>| p@) =~= prev_parts.push(prev_piece));
                assert(piece@ + data@.skip(i + 1) =~= data@.skip(i + 1));
                assert(prev_parts + (seq![prev_piece] + split_at(data@.skip(i + 1), sep))
                    =~= prev_parts.push(prev_piece) + split_at(data@.skip(i + 1), sep));
            }
        } else {
            proof {
                assert((prev_piece.push(b)) + data@.skip(i + 1) =~= cur);
                if prev_piece.push(b).contains(sep) {
                    let j = choose|j: int|
                        0 <= j < prev_piece.push(b).len() && prev_piece.push(b)[j] == sep;
                    if j < prev_piece.len() {
                        assert(prev_piece.contains(sep));
                    }
                }
            }
            piece.push(b);
        }
        i = i + 1;
    }
    let ghost prev_parts = parts@.map_values(|p: Vec<u8>| p@);
    proof {
        assert(data@.skip(data@.len() as int) =~= Seq::<u8>::empty());
        assert(piece@ + Seq::<u8>::empty() =~= piece@);
        lemma_first_ix_bounds(piece@, sep);
        if first_ix(piece@, sep) >= 0 {
            assert(piece@.contains(sep));
        }
        assert(split_at(piece@, sep) =~= seq![piece@]);
        assert(prev_parts + seq![piece@] =~= prev_parts.push(piece@));
    }
    parts.push(piece);
    proof {
        assert(parts@.map_values(|p: Vec<u8>| p@) =~= prev_parts.push(piece@));
    }
    parts
}

/// Compare two byte strings.
pub fn bytes_eq(a: &[u8], b: &[u8]) -> (r: bool)
    ensures
        r == (a@ == b@),
{
    if a.len() != b.len() {
        return false;
    }
    let mut i: usize = 0;
    while i < a.len()
        invariant
            i <= a@.len(),
            a@.len() == b@.len(),
            forall|j: int| 0 <= j < i ==> a@[j] == b@[j],
        decreases a@.len() - i,
    {
        if a[i] != b[i] {
            return false;
        }
        i = i + 1;
    }
    proof {
        assert(a@ =~= b@);
    }
    true
}

/// Append all bytes of `s` to `out`.
pub fn push_all(out: &mut Vec<u8>, s: &[u8])
    ensures
        final(out)@ == old(out)@ + s@,
{
    let mut i: usize = 0;
    proof {
        assert(out@ + s@.take(0) =~= out@);
    }
    while i < s.len()
        invariant
            i <= s@.len(),
            out@ == old(out)@ + s@.take(i as int),
        decreases s@.len() - i,
    {
        let b = s[i];
        proof {
            assert((old(out)@ + s@.take(i as int)).push(b) =~= old(out)@ + s@.take(i + 1));
        }
        out.push(b);
        i = i + 1;
    }
    proof {
        assert(s@.take(s@.len() as int) =~= s@);
    }
}

/// Join pieces with a separator byte.
pub fn join_bytes(parts: &Vec<Vec<u8>>, sep: u8) -> (r: Vec<u8>)
    ensures
        r@ == join_with(parts@.map_values(|p: Vec<u8>| p@), sep),
{
    let ghost ps = parts@.map_values(|p: Vec<u8>| p@);
    let mut out: Vec<u8> = Vec::new();
    let mut i: usize = 0;
    while i < parts.len()
        invariant
            i <= parts@.len(),
            ps == parts@.map_values(|p: Vec<u8>| p@),
            out@ == join_with(ps.take(i as int), sep),
        decreases parts@.len() - i,
    {
        let ghost before = out@;
        if i > 0 {
            out.push(sep);
        }
        push_all(&mut out, parts[i].as_slice());
        proof {
            assert(ps.take(i + 1) =~= ps.take(i as int).push(ps[i as int]));
            lemma_join_snoc(ps.take(i as int), ps[i as int], sep);
            if i > 0 {
                assert(out@ =~= join_with(ps.take(i as int), sep) + seq![sep] + ps[i as int]);
            } else {
                assert(ps.take(0) =~= Seq::<Seq<u8>>::empty());
                assert(out@ =~= ps[0]);
            }
        }
        i = i + 1;
    }
    proof {
        assert(ps.take(ps.len() as int) =~= ps);
    }
    out
}

} // verus!
