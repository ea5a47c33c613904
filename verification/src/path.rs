//! Request paths and route patterns as byte strings cut into segments.
//!
//! A path is cut at every `/` after an optional leading `/`. Empty pieces
//! are kept: `/a/` has the segments `a` and the empty segment, and `/` has
//! the empty segment alone.

use vstd::prelude::*;

verus! {

/// The byte `/`.
pub const SLASH: u8 = 0x2f;

/// The pieces between the `/` bytes of `bytes`, empty pieces included.
/// There is always at least one piece.
pub open spec fn split(bytes: Seq<u8>) -> Seq<Seq<u8>>
    decreases bytes.len(),
{
    if bytes.len() == 0 {
        seq![Seq::empty()]
    } else {
        let before = split(bytes.drop_last());
        if bytes.last() == SLASH {
            before.push(Seq::empty())
        } else {
            before.drop_last().push(before.last().push(bytes.last()))
        }
    }
}

/// The pieces written one after the other with a `/` between neighbours.
pub open spec fn join(pieces: Seq<Seq<u8>>) -> Seq<u8>
    decreases pieces.len(),
{
    if pieces.len() == 0 {
        Seq::empty()
    } else if pieces.len() == 1 {
        pieces[0]
    } else {
        join(pieces.drop_last()) + seq![SLASH] + pieces.last()
    }
}

/// The segments of a path or pattern.
pub open spec fn segments_of(path: Seq<u8>) -> Seq<Seq<u8>> {
    if path.len() > 0 && path[0] == SLASH {
        split(path.skip(1))
    } else {
        split(path)
    }
}

/// Cutting never yields nothing, and no piece holds a `/`.
pub proof fn lemma_split_pieces(bytes: Seq<u8>)
    ensures
        split(bytes).len() >= 1,
        forall|k: int, j: int|
            0 <= k < split(bytes).len() && 0 <= j < split(bytes)[k].len() ==> split(bytes)[k][j]
                != SLASH,
    decreases bytes.len(),
{
    if bytes.len() > 0 {
        lemma_split_pieces(bytes.drop_last());
    }
}

/// Joining the pieces of a byte string gives the byte string back.
pub proof fn lemma_join_split(bytes: Seq<u8>)
    ensures
        join(split(bytes)) == bytes,
    decreases bytes.len(),
{
    if bytes.len() > 0 {
        let shorter = bytes.drop_last();
        let before = split(shorter);
        lemma_join_split(shorter);
        lemma_split_pieces(shorter);
        if bytes.last() == SLASH {
            let now = before.push(Seq::empty());
            assert(now.drop_last() =~= before);
            assert(join(now) =~= join(before) + seq![SLASH] + Seq::<u8>::empty());
            assert(join(now) =~= bytes);
        } else {
            let grown = before.last().push(bytes.last());
            let now = before.drop_last().push(grown);
            assert(now.drop_last() =~= before.drop_last());
            if before.len() == 1 {
                assert(join(now) =~= bytes);
            } else {
                assert(join(before) == join(before.drop_last()) + seq![SLASH] + before.last());
                assert(join(now) == join(before.drop_last()) + seq![SLASH] + grown);
                assert(join(now) =~= join(before).push(bytes.last()));
                assert(join(now) =~= bytes);
            }
        }
    } else {
        assert(join(split(bytes)) =~= bytes);
    }
}

/// Byte-for-byte equality.
pub fn same_bytes(a: &[u8], b: &[u8]) -> (same: bool)
    ensures
        same == (a@ == b@),
{
    if a.len() != b.len() {
        return false;
    }
    let mut i: usize = 0;
    while i < a.len()
        invariant
            a.len() == b.len(),
            i <= a.len(),
            forall|k: int| 0 <= k < i ==> a@[k] == b@[k],
        decreases a.len() - i,
    {
        if a[i] != b[i] {
            return false;
        }
        i += 1;
    }
    assert(a@ =~= b@);
    true
}

/// A copy of `bytes[from..to]`.
pub fn copy_range(bytes: &[u8], from: usize, to: usize) -> (out: Vec<u8>)
    requires
        from <= to <= bytes.len(),
    ensures
        out@ == bytes@.subrange(from as int, to as int),
{
    let mut out: Vec<u8> = Vec::new();
    let mut i: usize = from;
    while i < to
        invariant
            from <= i <= to <= bytes.len(),
            out@ == bytes@.subrange(from as int, i as int),
        decreases to - i,
    {
        out.push(bytes[i]);
        assert(bytes@.subrange(from as int, i + 1) =~= bytes@.subrange(from as int, i as int).push(
            bytes@[i as int],
        ));
        i += 1;
    }
    out
}

/// A copy of `bytes`.
pub fn copy_bytes(bytes: &[u8]) -> (out: Vec<u8>)
    ensures
        out@ == bytes@,
{
    let out = copy_range(bytes, 0, bytes.len());
    assert(bytes@.subrange(0, bytes.len() as int) =~= bytes@);
    out
}

/// Cuts `bytes[from..]` at every `/`.
fn split_from(bytes: &[u8], from: usize) -> (pieces: Vec<Vec<u8>>)
    requires
        from <= bytes.len(),
    ensures
        pieces.deep_view() == split(bytes@.skip(from as int)),
{
    let ghost input = bytes@.skip(from as int);
    let mut done: Vec<Vec<u8>> = Vec::new();
    let mut current: Vec<u8> = Vec::new();
    let mut i: usize = from;
    assert(input.take(0) =~= Seq::<u8>::empty());
    assert(done.deep_view().push(current@) =~= seq![Seq::<u8>::empty()]);
    while i < bytes.len()
        invariant
            from <= i <= bytes.len(),
            input == bytes@.skip(from as int),
            split(input.take(i - from)) == done.deep_view().push(current@),
        decreases bytes.len() - i,
    {
        let b: u8 = bytes[i];
        let ghost seen = input.take(i - from);
        let ghost next = input.take(i - from + 1);
        assert(next.drop_last() =~= seen);
        assert(next.last() == b);
        let ghost before = done.deep_view();
        let ghost piece = current@;
        assert(split(seen).drop_last() =~= before);
        assert(split(seen).last() == piece);
        if b == SLASH {
            assert(current.deep_view() =~= piece);
            done.push(current);
            current = Vec::new();
            assert(done.deep_view() =~= before.push(piece));
        } else {
            current.push(b);
        }
        i += 1;
    }
    assert(input.take(i - from) =~= input);
    let ghost before = done.deep_view();
    let ghost piece = current@;
    assert(current.deep_view() =~= piece);
    done.push(current);
    assert(done.deep_view() =~= before.push(piece));
    done
}

/// The segments of a path or pattern, each as its own byte string.
pub fn segments(path: &[u8]) -> (pieces: Vec<Vec<u8>>)
    ensures
        pieces.deep_view() == segments_of(path@),
{
    if path.len() > 0 && path[0] == SLASH {
        split_from(path, 1)
    } else {
        assert(path@.skip(0) =~= path@);
        split_from(path, 0)
    }
}

/// The segments from index `from` on, joined with `/`.
pub fn join_from(pieces: &Vec<Vec<u8>>, from: usize) -> (out: Vec<u8>)
    requires
        from <= pieces.len(),
    ensures
        out@ == join(pieces.deep_view().skip(from as int)),
{
    let ghost tail = pieces.deep_view().skip(from as int);
    let mut out: Vec<u8> = Vec::new();
    let mut k: usize = from;
    assert(tail.take(0) =~= Seq::<Seq<u8>>::empty());
    while k < pieces.len()
        invariant
            from <= k <= pieces.len(),
            tail == pieces.deep_view().skip(from as int),
            out@ == join(tail.take(k - from)),
        decreases pieces.len() - k,
    {
        let ghost seen = tail.take(k - from);
        let ghost next = tail.take(k - from + 1);
        assert(next.drop_last() =~= seen);
        assert(next.last() == pieces@[k as int]@);
        if k > from {
            out.push(SLASH);
        }
        let piece = &pieces[k];
        let ghost joined = out@;
        let mut j: usize = 0;
        while j < piece.len()
            invariant
                j <= piece.len(),
                out@ == joined + piece@.take(j as int),
            decreases piece.len() - j,
        {
            out.push(piece[j]);
            assert(piece@.take(j + 1) =~= piece@.take(j as int).push(piece@[j as int]));
            j += 1;
        }
        assert(piece@.take(piece.len() as int) =~= piece@);
        assert(out@ =~= join(next)) by {
            if k > from {
                assert(join(next) == join(seen) + seq![SLASH] + next.last());
            } else {
                assert(next.len() == 1);
                assert(seen.len() == 0);
            }
        }
        k += 1;
    }
    assert(tail.take(k - from) =~= tail);
    out
}

} // verus!
