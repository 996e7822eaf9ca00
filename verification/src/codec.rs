//! Encoding, segmentation and decoding against a trained vocabulary.
//! `pair_encode` and `pair_split` run the merge engine and emit, span by
//! span, the token ids or the raw byte slices; `decode` is the inverse table
//! lookup.

use vstd::prelude::*;
use vstd::slice::slice_subrange;
use crate::vocab::Vocab;
use crate::vocab::vocab_wf;
use crate::vocab::spec_rank;
use crate::vocab::no_rank;
use crate::vocab::lemma_spec_rank;
use crate::merge::merge;
use crate::merge::spec_merge;
use crate::merge::init_parts;
use crate::merge::merge_run;
use crate::merge::scan_min;
use crate::merge::engine_inv;
use crate::merge::is_partition;
use crate::merge::spans_in_vocab;
use crate::merge::Boundary;
use crate::merge::lemma_init_inv;
use crate::merge::lemma_run_preserves;
use crate::merge::lemma_scan_min_from;
use crate::merge::lemma_partition_mono;
use crate::merge::lemma_offset_bound;
use crate::BpeError;

verus! {

/// The token ids of a segmentation: the rank of each span.
pub open spec fn encode_ids(data: Seq<u8>, voc: Seq<Seq<u8>>, parts: Seq<Boundary>) -> Seq<u32> {
    Seq::new(
        (parts.len() - 1) as nat,
        |j: int| spec_rank(voc, data.subrange(parts[j].0 as int, parts[j + 1].0 as int)),
    )
}

/// What `pair_encode` returns: one id per span of the terminal merge, and
/// nothing for empty input.
pub open spec fn spec_encode(data: Seq<u8>, voc: Seq<Seq<u8>>) -> Seq<u32> {
    if data.len() == 0 {
        Seq::empty()
    } else {
        encode_ids(data, voc, spec_merge(data, voc))
    }
}

/// What `pair_split` returns: the raw bytes of each span of the terminal
/// merge.
pub open spec fn spec_split(data: Seq<u8>, voc: Seq<Seq<u8>>) -> Seq<Seq<u8>> {
    if data.len() == 0 {
        Seq::empty()
    } else {
        let parts = spec_merge(data, voc);
        Seq::new(
            (parts.len() - 1) as nat,
            |j: int| data.subrange(parts[j].0 as int, parts[j + 1].0 as int),
        )
    }
}

/// Every id has an entry in the vocabulary table.
pub open spec fn ids_in_range(ids: Seq<u32>, voc: Seq<Seq<u8>>) -> bool {
    forall|j: int| 0 <= j < ids.len() ==> (#[trigger] ids[j]) < voc.len()
}

/// The concatenation of the byte sequences the ids stand for.
pub open spec fn decode_bytes(ids: Seq<u32>, voc: Seq<Seq<u8>>) -> Seq<u8>
    decreases ids.len(),
{
    if ids.len() == 0 {
        Seq::empty()
    } else {
        voc[ids[0] as int] + decode_bytes(ids.drop_first(), voc)
    }
}

/// What `decode` returns: the concatenated lookup, or nothing when an id is
/// out of range.
pub open spec fn spec_decode(ids: Seq<u32>, voc: Seq<Seq<u8>>) -> Option<Seq<u8>> {
    if ids_in_range(ids, voc) {
        Some(decode_bytes(ids, voc))
    } else {
        None
    }
}

/// Appending an id appends its token bytes to the decoding.
pub proof fn lemma_decode_push(ids: Seq<u32>, voc: Seq<Seq<u8>>, x: u32)
    ensures
        decode_bytes(ids.push(x), voc) == decode_bytes(ids, voc) + voc[x as int],
    decreases ids.len(),
{
    if ids.len() == 0 {
        assert(ids.push(x).drop_first() =~= Seq::<u32>::empty());
        assert(ids.push(x)[0] == x);
        assert(decode_bytes(ids.push(x), voc) == voc[x as int] + decode_bytes(
            ids.push(x).drop_first(),
            voc,
        ));
        assert(voc[x as int] + Seq::<u8>::empty() =~= voc[x as int]);
        assert(decode_bytes(ids, voc) + voc[x as int] =~= voc[x as int]);
    } else {
        lemma_decode_push(ids.drop_first(), voc, x);
        assert(ids.push(x).drop_first() =~= ids.drop_first().push(x));
        assert(ids.push(x)[0] == ids[0]);
        assert(decode_bytes(ids, voc) + voc[x as int] =~= voc[ids[0] as int] + (decode_bytes(
            ids.drop_first(),
            voc,
        ) + voc[x as int]));
    }
}

/// Decoding the ids of the spans from boundary `j` on gives the input bytes
/// from that boundary's offset on.
proof fn lemma_decode_suffix(data: Seq<u8>, voc: Seq<Seq<u8>>, parts: Seq<Boundary>, j: int)
    requires
        vocab_wf(voc),
        is_partition(parts, data.len()),
        spans_in_vocab(data, voc, parts),
        0 <= j <= parts.len() - 1,
    ensures
        decode_bytes(encode_ids(data, voc, parts).subrange(j, parts.len() - 1), voc)
            == data.subrange(parts[j].0 as int, data.len() as int),
    decreases parts.len() - j,
{
    let ids = encode_ids(data, voc, parts);
    let n = data.len() as int;
    if j == parts.len() - 1 {
        assert(ids.subrange(j, j) =~= Seq::<u32>::empty());
        assert(parts[j].0 == data.len());
        assert(data.subrange(n, n) =~= Seq::<u8>::empty());
    } else {
        lemma_decode_suffix(data, voc, parts, j + 1);
        let span = data.subrange(parts[j].0 as int, parts[j + 1].0 as int);
        assert(voc.contains(span));
        lemma_spec_rank(voc, span);
        assert(ids[j] == spec_rank(voc, span));
        assert(voc[ids[j] as int] == span);
        let suffix = ids.subrange(j, parts.len() - 1);
        assert(suffix.drop_first() =~= ids.subrange(j + 1, parts.len() - 1));
        assert(suffix[0] == ids[j]);
        assert(decode_bytes(suffix, voc) == span + decode_bytes(suffix.drop_first(), voc));
        lemma_partition_mono(parts, data.len(), j, j + 1);
        lemma_offset_bound(parts, data.len(), j + 1);
        assert(data.subrange(parts[j].0 as int, n) =~= span + data.subrange(
            parts[j + 1].0 as int,
            n,
        ));
    }
}

/// The ids of a vocabulary-consistent segmentation decode to the input.
proof fn lemma_encode_decodes(data: Seq<u8>, voc: Seq<Seq<u8>>, parts: Seq<Boundary>)
    requires
        vocab_wf(voc),
        is_partition(parts, data.len()),
        spans_in_vocab(data, voc, parts),
    ensures
        spec_decode(encode_ids(data, voc, parts), voc) == Some(data),
{
    let ids = encode_ids(data, voc, parts);
    assert(ids_in_range(ids, voc)) by {
        assert forall|j: int| 0 <= j < ids.len() implies (#[trigger] ids[j]) < voc.len() by {
            let span = data.subrange(parts[j].0 as int, parts[j + 1].0 as int);
            assert(voc.contains(span));
            lemma_spec_rank(voc, span);
        }
    }
    lemma_decode_suffix(data, voc, parts, 0);
    assert(ids.subrange(0, parts.len() - 1) =~= ids);
    assert(data.subrange(0, data.len() as int) =~= data);
}

/// Encode `data` against a trained vocabulary: run the merge engine and
/// resolve each resulting span to its token id.  Empty input yields an
/// empty sequence.  The ids always decode back to `data`.
pub fn pair_encode(data: &[u8], ranks: &Vocab) -> (r: Vec<u32>)
    requires
        ranks.wf(),
    ensures
        r@ == spec_encode(data@, ranks.view_tokens()),
        spec_decode(r@, ranks.view_tokens()) == Some(data@),
{
    let ghost voc = ranks.view_tokens();
    let mut out: Vec<u32> = Vec::new();
    if data.len() == 0 {
        proof {
            assert(out@ =~= spec_encode(data@, voc));
            assert(decode_bytes(out@, voc) =~= Seq::<u8>::empty());
            assert(data@ =~= Seq::<u8>::empty());
        }
        return out;
    }
    let parts = merge(data, ranks);
    let m = parts.len();
    let mut j: usize = 0;
    while j < m - 1
        invariant
            ranks.wf(),
            voc == ranks.view_tokens(),
            m == parts@.len(),
            m >= 2,
            engine_inv(data@, voc, parts@),
            parts@ == spec_merge(data@, voc),
            0 <= j <= m - 1,
            out@.len() == j,
            forall|q: int| 0 <= q < j ==> out@[q] == encode_ids(data@, voc, parts@)[q],
        decreases m - 1 - j,
    {
        let a = parts[j].0;
        let b = parts[j + 1].0;
        proof {
            lemma_partition_mono(parts@, data@.len(), j as int, j + 1);
            lemma_offset_bound(parts@, data@.len(), j + 1);
        }
        let piece = slice_subrange(data, a, b);
        let id = ranks.rank_of(piece);
        out.push(id);
        j = j + 1;
    }
    proof {
        assert(out@ =~= encode_ids(data@, voc, parts@));
        lemma_encode_decodes(data@, voc, parts@);
    }
    out
}

/// Split `data` into the byte slices of its terminal segmentation: the same
/// merge as `pair_encode`, emitting each span's raw bytes instead of its id.
pub fn pair_split<'a>(data: &'a [u8], ranks: &Vocab) -> (r: Vec<&'a [u8]>)
    requires
        ranks.wf(),
    ensures
        r@.len() == spec_split(data@, ranks.view_tokens()).len(),
        forall|q: int|
            0 <= q < r@.len() ==> (#[trigger] r@[q])@ == spec_split(data@, ranks.view_tokens())[q],
{
    let ghost voc = ranks.view_tokens();
    let mut out: Vec<&[u8]> = Vec::new();
    if data.len() == 0 {
        return out;
    }
    let parts = merge(data, ranks);
    let m = parts.len();
    let mut j: usize = 0;
    while j < m - 1
        invariant
            ranks.wf(),
            voc == ranks.view_tokens(),
            m == parts@.len(),
            m >= 2,
            engine_inv(data@, voc, parts@),
            parts@ == spec_merge(data@, voc),
            0 <= j <= m - 1,
            out@.len() == j,
            forall|q: int|
                0 <= q < j ==> (#[trigger] out@[q])@ == data@.subrange(
                    parts@[q].0 as int,
                    parts@[q + 1].0 as int,
                ),
        decreases m - 1 - j,
    {
        let a = parts[j].0;
        let b = parts[j + 1].0;
        proof {
            lemma_partition_mono(parts@, data@.len(), j as int, j + 1);
            lemma_offset_bound(parts@, data@.len(), j + 1);
        }
        let piece = slice_subrange(data, a, b);
        out.push(piece);
        j = j + 1;
    }
    out
}

/// Reconstruct bytes from token ids by table lookup, in input order.  Fails
/// with `InvalidToken` exactly when some id has no vocabulary entry.
pub fn decode(ids: &Vec<u32>, ranks: &Vocab) -> (r: Result<Vec<u8>, BpeError>)
    ensures
        match r {
            Ok(bytes) => spec_decode(ids@, ranks.view_tokens()) == Some(bytes@),
            Err(e) => spec_decode(ids@, ranks.view_tokens()) is None && e
                == BpeError::InvalidToken,
        },
{
    let ghost voc = ranks.view_tokens();
    let mut out: Vec<u8> = Vec::new();
    let n = ids.len();
    let mut j: usize = 0;
    while j < n
        invariant
            voc == ranks.view_tokens(),
            n == ids@.len(),
            0 <= j <= n,
            forall|q: int| 0 <= q < j ==> (#[trigger] ids@[q]) < voc.len(),
            out@ == decode_bytes(ids@.take(j as int), voc),
        decreases n - j,
    {
        let id = ids[j];
        if (id as usize) >= ranks.tokens.len() {
            proof {
                assert(ids@[j as int] >= voc.len());
                assert(!ids_in_range(ids@, voc));
            }
            return Err(BpeError::InvalidToken);
        }
        let tl = ranks.tokens[id as usize].len();
        let ghost out_mid = out@;
        let mut p: usize = 0;
        while p < tl
            invariant
                voc == ranks.view_tokens(),
                (id as int) < voc.len(),
                tl == voc[id as int].len(),
                voc[id as int] == ranks.tokens@[id as int]@,
                0 <= p <= tl,
                out@ == out_mid + voc[id as int].take(p as int),
            decreases tl - p,
        {
            let byte = ranks.tokens[id as usize][p];
            out.push(byte);
            proof {
                assert(voc[id as int].take(p + 1) =~= voc[id as int].take(p as int).push(byte));
                assert(out@ =~= out_mid + voc[id as int].take(p + 1));
            }
            p = p + 1;
        }
        proof {
            assert(voc[id as int].take(tl as int) =~= voc[id as int]);
            assert(ids@.take(j + 1) =~= ids@.take(j as int).push(id));
            lemma_decode_push(ids@.take(j as int), voc, id);
        }
        j = j + 1;
    }
    proof {
        assert(ids@.take(n as int) =~= ids@);
    }
    Ok(out)
}

/// The concatenation of a list of byte pieces, in order.
pub open spec fn concat_pieces(ps: Seq<Seq<u8>>) -> Seq<u8>
    decreases ps.len(),
{
    if ps.len() == 0 {
        Seq::empty()
    } else {
        ps[0] + concat_pieces(ps.drop_first())
    }
}

/// The spans of a partition, concatenated from boundary `j` on, give the
/// input bytes from that boundary's offset on.
proof fn lemma_concat_suffix(data: Seq<u8>, parts: Seq<Boundary>, j: int)
    requires
        is_partition(parts, data.len()),
        0 <= j <= parts.len() - 1,
    ensures
        concat_pieces(
            Seq::new(
                (parts.len() - 1) as nat,
                |q: int| data.subrange(parts[q].0 as int, parts[q + 1].0 as int),
            ).subrange(j, parts.len() - 1),
        ) == data.subrange(parts[j].0 as int, data.len() as int),
    decreases parts.len() - j,
{
    let ps = Seq::new(
        (parts.len() - 1) as nat,
        |q: int| data.subrange(parts[q].0 as int, parts[q + 1].0 as int),
    );
    let n = data.len() as int;
    if j == parts.len() - 1 {
        assert(ps.subrange(j, j) =~= Seq::<Seq<u8>>::empty());
        assert(parts[j].0 == data.len());
        assert(data.subrange(n, n) =~= Seq::<u8>::empty());
    } else {
        lemma_concat_suffix(data, parts, j + 1);
        let span = data.subrange(parts[j].0 as int, parts[j + 1].0 as int);
        let suffix = ps.subrange(j, parts.len() - 1);
        assert(suffix.drop_first() =~= ps.subrange(j + 1, parts.len() - 1));
        assert(suffix[0] == span);
        assert(concat_pieces(suffix) == span + concat_pieces(suffix.drop_first()));
        lemma_partition_mono(parts, data.len(), j, j + 1);
        lemma_offset_bound(parts, data.len(), j + 1);
        assert(data.subrange(parts[j].0 as int, n) =~= span + data.subrange(
            parts[j + 1].0 as int,
            n,
        ));
    }
}

/// Segmentation loses nothing: the byte slices that `pair_split` emits
/// always concatenate back to exactly the input.
pub proof fn lemma_split_round_trip(data: Seq<u8>, voc: Seq<Seq<u8>>)
    requires
        vocab_wf(voc),
        data.len() <= usize::MAX,
    ensures
        concat_pieces(spec_split(data, voc)) == data,
{
    if data.len() == 0 {
        assert(data =~= Seq::<u8>::empty());
    } else {
        lemma_init_inv(data, voc);
        lemma_run_preserves(data, voc, init_parts(data, voc));
        let parts = spec_merge(data, voc);
        lemma_concat_suffix(data, parts, 0);
        let ps = Seq::new(
            (parts.len() - 1) as nat,
            |q: int| data.subrange(parts[q].0 as int, parts[q + 1].0 as int),
        );
        assert(ps.subrange(0, parts.len() - 1) =~= ps);
        assert(ps =~= spec_split(data, voc));
        assert(data.subrange(0, data.len() as int) =~= data);
    }
}

/// Round trip: for every byte sequence, decoding its encoding under a
/// well-formed vocabulary yields the sequence back.
pub proof fn lemma_round_trip(data: Seq<u8>, voc: Seq<Seq<u8>>)
    requires
        vocab_wf(voc),
        data.len() <= usize::MAX,
    ensures
        spec_decode(spec_encode(data, voc), voc) == Some(data),
{
    if data.len() == 0 {
        let ids = spec_encode(data, voc);
        assert(ids.len() == 0);
        assert(decode_bytes(ids, voc) =~= Seq::<u8>::empty());
        assert(data =~= Seq::<u8>::empty());
    } else {
        lemma_init_inv(data, voc);
        lemma_run_preserves(data, voc, init_parts(data, voc));
        lemma_encode_decodes(data, voc, spec_merge(data, voc));
    }
}

/// Base case: a vocabulary of exactly the 256 singleton byte tokens performs
/// no merge, so encoding emits one id per input byte, the byte's own value.
pub proof fn lemma_base_case(data: Seq<u8>, voc: Seq<Seq<u8>>)
    requires
        vocab_wf(voc),
        voc.len() == 256,
        data.len() <= usize::MAX,
    ensures
        spec_encode(data, voc).len() == data.len(),
        forall|j: int| 0 <= j < data.len() ==> spec_encode(data, voc)[j] == data[j] as u32,
{
    if data.len() == 0 {
    } else {
        let parts = init_parts(data, voc);
        lemma_init_inv(data, voc);
        assert forall|j: int| 0 <= j < parts.len() implies (#[trigger] parts[j].1) == no_rank() by {
            if j + 2 <= data.len() {
                let piece = data.subrange(j, j + 2);
                lemma_spec_rank(voc, piece);
                if voc.contains(piece) {
                    let k = choose|k: int| 0 <= k < voc.len() && voc[k] == piece;
                    assert(voc[k] == seq![k as u8]);
                    assert(piece.len() == 2);
                }
                assert(spec_rank(voc, piece) == no_rank());
            }
        }
        lemma_scan_min_from(parts, 0, no_rank(), 0);
        assert(scan_min(parts).0 == no_rank());
        assert(merge_run(data, voc, parts) == parts);
        let ids = spec_encode(data, voc);
        assert(ids.len() == data.len());
        assert forall|j: int| 0 <= j < data.len() implies ids[j] == data[j] as u32 by {
            assert(parts[j].0 == j as usize && parts[j + 1].0 == (j + 1) as usize);
            let piece = data.subrange(j, j + 1);
            assert(piece =~= seq![data[j]]);
            assert(voc[data[j] as int] == seq![data[j]]);
            assert(voc.contains(piece));
            lemma_spec_rank(voc, piece);
            let r = spec_rank(voc, piece) as int;
            assert(voc[r] == piece);
            if r != data[j] as int {
                assert(voc[r] != voc[data[j] as int]);
            }
        }
    }
}

} // verus!
