//! The pair-rank merge engine.  Given an input byte sequence and a
//! vocabulary, it repeatedly contracts the adjacent pair with the lowest
//! (earliest-learned) rank, leftmost first, until no mergeable pair remains.
//! The engine is modelled by the spec functions `init_parts`, `scan_min`,
//! `merge_step` and `merge_run`; the executable `merge` returns exactly
//! `spec_merge`, so every caller gets a deterministic result.

use vstd::prelude::*;
use vstd::slice::slice_subrange;
use crate::vocab::Vocab;
use crate::vocab::vocab_wf;
use crate::vocab::spec_rank;
use crate::vocab::no_rank;
use crate::vocab::lemma_spec_rank;

verus! {

/// A boundary marker: the byte offset where a symbol starts, and the rank of
/// the pair formed by this symbol and its successor (`no_rank()` if that
/// pair is not in the vocabulary or there is no successor).
pub type Boundary = (usize, u32);

/// One boundary per byte, ranks taken from the two-byte pairs, plus the
/// final sentinel at end-of-input.
pub open spec fn init_parts(data: Seq<u8>, voc: Seq<Seq<u8>>) -> Seq<Boundary> {
    Seq::new(
        (data.len() + 1) as nat,
        |k: int|
            (
                k as usize,
                if k + 2 <= data.len() {
                    spec_rank(voc, data.subrange(k, k + 2))
                } else {
                    no_rank()
                },
            ),
    )
}

/// Leftmost minimum rank over boundaries `j..parts.len() - 1`, folded into
/// the accumulator `(best, besti)`: a strictly smaller rank replaces it.
pub open spec fn scan_min_from(parts: Seq<Boundary>, j: int, best: u32, besti: int) -> (u32, int)
    decreases parts.len() - j,
{
    if j < 0 || j >= parts.len() - 1 {
        (best, besti)
    } else if parts[j].1 < best {
        scan_min_from(parts, j + 1, parts[j].1, j)
    } else {
        scan_min_from(parts, j + 1, best, besti)
    }
}

/// The leftmost boundary with the minimum finite rank, if any.
pub open spec fn scan_min(parts: Seq<Boundary>) -> (u32, int) {
    scan_min_from(parts, 0, no_rank(), 0)
}

/// The rank of the pair that starts at boundary `k`, read in the
/// pre-removal layout where the merged-away boundary still sits between the
/// two halves of the new symbol: the pair spans `parts[k].0 .. parts[k+3].0`.
pub open spec fn grank(data: Seq<u8>, voc: Seq<Seq<u8>>, parts: Seq<Boundary>, k: int) -> u32 {
    if k < 0 || k + 3 >= parts.len() {
        no_rank()
    } else {
        spec_rank(voc, data.subrange(parts[k].0 as int, parts[k + 3].0 as int))
    }
}

/// One merge at boundary `i`: recompute the rank of the preceding boundary
/// and of `i` itself, then drop the boundary that followed `i`.
pub open spec fn merge_step(data: Seq<u8>, voc: Seq<Seq<u8>>, parts: Seq<Boundary>, i: int) -> Seq<
    Boundary,
> {
    let p1 = if i > 0 {
        parts.update(i - 1, (parts[i - 1].0, grank(data, voc, parts, i - 1)))
    } else {
        parts
    };
    let p2 = p1.update(i, (p1[i].0, grank(data, voc, p1, i)));
    p2.remove(i + 1)
}

/// Merge at the leftmost minimum-rank boundary until no finite rank remains.
pub open spec fn merge_run(data: Seq<u8>, voc: Seq<Seq<u8>>, parts: Seq<Boundary>) -> Seq<Boundary>
    decreases parts.len(),
{
    let m = scan_min(parts);
    if m.0 == no_rank() || m.1 < 0 || m.1 + 1 >= parts.len() {
        parts
    } else {
        merge_run(data, voc, merge_step(data, voc, parts, m.1))
    }
}

/// The terminal segmentation of `data` under vocabulary `voc`.
pub open spec fn spec_merge(data: Seq<u8>, voc: Seq<Seq<u8>>) -> Seq<Boundary> {
    merge_run(data, voc, init_parts(data, voc))
}

/// The boundary offsets partition `0 .. n`: they start at 0, end at n, and
/// increase strictly.
pub open spec fn is_partition(parts: Seq<Boundary>, n: nat) -> bool {
    &&& parts.len() >= 2
    &&& parts[0].0 == 0
    &&& parts[parts.len() - 1].0 == n
    &&& forall|j: int| 0 <= j < parts.len() - 1 ==> (#[trigger] parts[j].0) < parts[j + 1].0
}

/// The rank that boundary `j` should carry in the steady state: the rank of
/// the two adjacent spans starting there, `no_rank()` when there is no
/// successor span.
pub open spec fn boundary_rank(data: Seq<u8>, voc: Seq<Seq<u8>>, parts: Seq<Boundary>, j: int) -> u32 {
    if j < 0 || j + 2 >= parts.len() {
        no_rank()
    } else {
        spec_rank(voc, data.subrange(parts[j].0 as int, parts[j + 2].0 as int))
    }
}

/// Every stored rank is the true rank of the pair at that boundary.
pub open spec fn ranks_correct(data: Seq<u8>, voc: Seq<Seq<u8>>, parts: Seq<Boundary>) -> bool {
    forall|j: int|
        0 <= j < parts.len() ==> (#[trigger] parts[j].1) == boundary_rank(data, voc, parts, j)
}

/// Every span delimited by two adjacent boundaries is a vocabulary entry.
pub open spec fn spans_in_vocab(data: Seq<u8>, voc: Seq<Seq<u8>>, parts: Seq<Boundary>) -> bool {
    forall|j: int|
        0 <= j < parts.len() - 1 ==> voc.contains(
            #[trigger] data.subrange(parts[j].0 as int, parts[j + 1].0 as int),
        )
}

/// No two adjacent spans can merge further: their concatenation is not a
/// vocabulary entry.
pub open spec fn fully_merged(data: Seq<u8>, voc: Seq<Seq<u8>>, parts: Seq<Boundary>) -> bool {
    forall|j: int|
        0 <= j < parts.len() - 2 ==> !voc.contains(
            #[trigger] data.subrange(parts[j].0 as int, parts[j + 2].0 as int),
        )
}

/// All the merge-loop invariants in one word.
pub open spec fn engine_inv(data: Seq<u8>, voc: Seq<Seq<u8>>, parts: Seq<Boundary>) -> bool {
    &&& is_partition(parts, data.len())
    &&& ranks_correct(data, voc, parts)
    &&& spans_in_vocab(data, voc, parts)
}

/// Boundary offsets increase strictly between any two positions.
pub proof fn lemma_partition_mono(parts: Seq<Boundary>, n: nat, j: int, k: int)
    requires
        is_partition(parts, n),
        0 <= j < k < parts.len(),
    ensures
        parts[j].0 < parts[k].0,
    decreases k - j,
{
    if j + 1 < k {
        lemma_partition_mono(parts, n, j, k - 1);
    }
}

/// Every boundary offset lies inside the input.
pub proof fn lemma_offset_bound(parts: Seq<Boundary>, n: nat, k: int)
    requires
        is_partition(parts, n),
        0 <= k < parts.len(),
    ensures
        parts[k].0 <= n,
{
    if k < parts.len() - 1 {
        lemma_partition_mono(parts, n, k, parts.len() - 1);
    }
}

/// What the accumulator scan returns: never more than the accumulator, a
/// lower bound on every rank in the window, and a witness index when it
/// improved on the accumulator.
pub proof fn lemma_scan_min_from(parts: Seq<Boundary>, j: int, best: u32, besti: int)
    requires
        0 <= j,
    ensures
        scan_min_from(parts, j, best, besti).0 <= best,
        forall|k: int|
            j <= k < parts.len() - 1 ==> (#[trigger] parts[k].1) >= scan_min_from(
                parts,
                j,
                best,
                besti,
            ).0,
        scan_min_from(parts, j, best, besti).0 == best ==> scan_min_from(
            parts,
            j,
            best,
            besti,
        ).1 == besti,
        scan_min_from(parts, j, best, besti).0 != best ==> {
            &&& j <= scan_min_from(parts, j, best, besti).1 < parts.len() - 1
            &&& parts[scan_min_from(parts, j, best, besti).1].1 == scan_min_from(
                parts,
                j,
                best,
                besti,
            ).0
        },
    decreases parts.len() - j,
{
    if j < parts.len() - 1 {
        if parts[j].1 < best {
            lemma_scan_min_from(parts, j + 1, parts[j].1, j);
        } else {
            lemma_scan_min_from(parts, j + 1, best, besti);
        }
    }
}

/// A finite minimum points at a boundary whose pair really is in the
/// vocabulary, so the merge indices are all in bounds.
pub proof fn lemma_min_valid(data: Seq<u8>, voc: Seq<Seq<u8>>, parts: Seq<Boundary>)
    requires
        ranks_correct(data, voc, parts),
        scan_min(parts).0 != no_rank(),
    ensures
        0 <= scan_min(parts).1,
        scan_min(parts).1 + 2 < parts.len(),
        parts[scan_min(parts).1].1 == scan_min(parts).0,
{
    lemma_scan_min_from(parts, 0, no_rank(), 0);
    let i = scan_min(parts).1;
    assert(parts[i].1 == boundary_rank(data, voc, parts, i));
}

/// One merge step preserves the engine invariants and shortens the boundary
/// list by one.
#[verifier::rlimit(60)]
pub proof fn lemma_step_preserves(data: Seq<u8>, voc: Seq<Seq<u8>>, parts: Seq<Boundary>, i: int)
    requires
        vocab_wf(voc),
        engine_inv(data, voc, parts),
        0 <= i,
        i + 2 < parts.len(),
        parts[i].1 != no_rank(),
    ensures
        engine_inv(data, voc, merge_step(data, voc, parts, i)),
        merge_step(data, voc, parts, i).len() == parts.len() - 1,
        merge_step(data, voc, parts, i)[0].0 == 0,
{
    let n = data.len();
    let len = parts.len() as int;
    let p1 = if i > 0 {
        parts.update(i - 1, (parts[i - 1].0, grank(data, voc, parts, i - 1)))
    } else {
        parts
    };
    let p2full = p1.update(i, (p1[i].0, grank(data, voc, p1, i)));
    let p2 = p2full.remove(i + 1);
    assert(merge_step(data, voc, parts, i) == p2);
    assert(forall|k: int| 0 <= k < len ==> (#[trigger] p2full[k]).0 == parts[k].0);
    assert(p2.len() == len - 1);
    assert(forall|k: int| 0 <= k < i + 1 ==> (#[trigger] p2[k]).0 == parts[k].0);
    assert(forall|k: int| i + 1 <= k < len - 1 ==> (#[trigger] p2[k]).0 == parts[k + 1].0);

    // The merged pair really is a vocabulary entry.
    assert(parts[i].1 == boundary_rank(data, voc, parts, i));
    let piece = data.subrange(parts[i].0 as int, parts[i + 2].0 as int);
    lemma_spec_rank(voc, piece);
    assert(voc.contains(piece));

    // Partition.
    assert(is_partition(p2, n)) by {
        assert(p2[p2.len() - 1].0 == parts[len - 1].0);
        assert forall|k: int| 0 <= k < p2.len() - 1 implies (#[trigger] p2[k].0) < p2[k + 1].0 by {
            if k < i {
                assert(p2[k].0 == parts[k].0 && p2[k + 1].0 == if k + 1 <= i {
                    parts[k + 1].0
                } else {
                    parts[k + 2].0
                });
            } else if k == i {
                lemma_partition_mono(parts, n, i, i + 2);
                assert(p2[k].0 == parts[i].0 && p2[k + 1].0 == parts[i + 2].0);
            } else {
                assert(p2[k].0 == parts[k + 1].0 && p2[k + 1].0 == parts[k + 2].0);
            }
        }
    }

    // Spans are vocabulary entries.
    assert(spans_in_vocab(data, voc, p2)) by {
        assert forall|k: int| 0 <= k < p2.len() - 1 implies voc.contains(
            #[trigger] data.subrange(p2[k].0 as int, p2[k + 1].0 as int),
        ) by {
            if k < i {
                assert(data.subrange(p2[k].0 as int, p2[k + 1].0 as int) == data.subrange(
                    parts[k].0 as int,
                    parts[k + 1].0 as int,
                ));
            } else if k == i {
                assert(data.subrange(p2[k].0 as int, p2[k + 1].0 as int) == piece);
            } else {
                assert(data.subrange(p2[k].0 as int, p2[k + 1].0 as int) == data.subrange(
                    parts[k + 1].0 as int,
                    parts[k + 2].0 as int,
                ));
            }
        }
    }

    // Stored ranks stay correct.
    assert(ranks_correct(data, voc, p2)) by {
        assert forall|k: int| 0 <= k < p2.len() implies (#[trigger] p2[k].1) == boundary_rank(
            data,
            voc,
            p2,
            k,
        ) by {
            if k < i - 1 {
                assert(p2[k].1 == parts[k].1);
                assert(parts[k].1 == boundary_rank(data, voc, parts, k));
                assert(k + 2 < i + 1);
                if k + 2 < len {
                    assert(p2[k].0 == parts[k].0 && p2[k + 2].0 == parts[k + 2].0);
                }
            } else if k == i - 1 {
                assert(p2[k].1 == grank(data, voc, parts, i - 1));
                if i + 2 >= len {
                    assert(k + 2 >= p2.len());
                    assert(grank(data, voc, parts, i - 1) == no_rank());
                } else {
                    assert(p2[k].0 == parts[k].0 && p2[k + 2].0 == parts[i + 2].0);
                }
            } else if k == i {
                assert(p1[i].0 == parts[i].0);
                assert(p2[k].1 == grank(data, voc, p1, i));
                if i + 3 >= len {
                    assert(k + 2 >= p2.len());
                    assert(grank(data, voc, p1, i) == no_rank());
                } else {
                    assert(grank(data, voc, p1, i) == spec_rank(
                        voc,
                        data.subrange(parts[i].0 as int, parts[i + 3].0 as int),
                    ));
                    assert(p2[k].0 == parts[i].0 && p2[k + 2].0 == parts[i + 3].0);
                }
            } else {
                assert(p2[k].1 == parts[k + 1].1);
                assert(parts[k + 1].1 == boundary_rank(data, voc, parts, k + 1));
                if k + 2 >= p2.len() {
                    assert(k + 3 >= len);
                } else {
                    assert(p2[k].0 == parts[k + 1].0 && p2[k + 2].0 == parts[k + 3].0);
                }
            }
        }
    }
}

/// When the scan finds no finite rank, the segmentation is terminal: no two
/// adjacent spans concatenate to a vocabulary entry.
pub proof fn lemma_terminal(data: Seq<u8>, voc: Seq<Seq<u8>>, parts: Seq<Boundary>)
    requires
        vocab_wf(voc),
        ranks_correct(data, voc, parts),
        scan_min(parts).0 == no_rank(),
    ensures
        fully_merged(data, voc, parts),
{
    lemma_scan_min_from(parts, 0, no_rank(), 0);
    assert forall|j: int| 0 <= j < parts.len() - 2 implies !voc.contains(
        #[trigger] data.subrange(parts[j].0 as int, parts[j + 2].0 as int),
    ) by {
        assert(parts[j].1 >= no_rank());
        assert(parts[j].1 == boundary_rank(data, voc, parts, j));
        let piece = data.subrange(parts[j].0 as int, parts[j + 2].0 as int);
        assert(spec_rank(voc, piece) == no_rank());
        lemma_spec_rank(voc, piece);
    }
}

/// Running the merge loop from any invariant-respecting state ends in an
/// invariant-respecting, fully merged state.
pub proof fn lemma_run_preserves(data: Seq<u8>, voc: Seq<Seq<u8>>, parts: Seq<Boundary>)
    requires
        vocab_wf(voc),
        engine_inv(data, voc, parts),
    ensures
        engine_inv(data, voc, merge_run(data, voc, parts)),
        fully_merged(data, voc, merge_run(data, voc, parts)),
    decreases parts.len(),
{
    let m = scan_min(parts);
    if m.0 == no_rank() || m.1 < 0 || m.1 + 1 >= parts.len() {
        if m.0 == no_rank() {
            lemma_terminal(data, voc, parts);
        } else {
            lemma_min_valid(data, voc, parts);
        }
    } else {
        lemma_min_valid(data, voc, parts);
        lemma_step_preserves(data, voc, parts, m.1);
        lemma_run_preserves(data, voc, merge_step(data, voc, parts, m.1));
    }
}

/// The initial boundary list satisfies the engine invariants.
pub proof fn lemma_init_inv(data: Seq<u8>, voc: Seq<Seq<u8>>)
    requires
        vocab_wf(voc),
        data.len() >= 1,
        data.len() <= usize::MAX,
    ensures
        engine_inv(data, voc, init_parts(data, voc)),
{
    let parts = init_parts(data, voc);
    let n = data.len() as int;
    assert(parts.len() == n + 1);
    assert(is_partition(parts, data.len())) by {
        assert(parts[0].0 == 0);
        assert(parts[n].0 == data.len());
        assert forall|j: int| 0 <= j < parts.len() - 1 implies (#[trigger] parts[j].0) < parts[
            j + 1
        ].0 by {
            assert(parts[j].0 == j as usize && parts[j + 1].0 == (j + 1) as usize);
        }
    }
    assert(ranks_correct(data, voc, parts)) by {
        assert forall|j: int| 0 <= j < parts.len() implies (#[trigger] parts[j].1)
            == boundary_rank(data, voc, parts, j) by {
            if j + 2 <= n {
                assert(parts[j].0 == j as usize && parts[j + 2].0 == (j + 2) as usize);
            }
        }
    }
    assert(spans_in_vocab(data, voc, parts)) by {
        assert forall|j: int| 0 <= j < parts.len() - 1 implies voc.contains(
            #[trigger] data.subrange(parts[j].0 as int, parts[j + 1].0 as int),
        ) by {
            let b = data[j];
            assert(data.subrange(j, j + 1) =~= seq![b]);
            assert(voc[b as int] == seq![b]);
            assert(voc.contains(seq![b]));
        }
    }
}

/// The offsets increase strictly and stay inside the input: all that the
/// rank lookup below needs of a boundary list.
pub open spec fn offsets_ok(parts: Seq<Boundary>, n: nat) -> bool {
    &&& forall|j: int| 0 <= j < parts.len() - 1 ==> (#[trigger] parts[j].0) < parts[j + 1].0
    &&& forall|j: int| 0 <= j < parts.len() ==> (#[trigger] parts[j].0) <= n
}

/// A partition's offsets are increasing and in bounds.
pub proof fn lemma_partition_offsets_ok(parts: Seq<Boundary>, n: nat)
    requires
        is_partition(parts, n),
    ensures
        offsets_ok(parts, n),
{
    assert forall|j: int| 0 <= j < parts.len() implies (#[trigger] parts[j].0) <= n by {
        lemma_offset_bound(parts, n, j);
    }
}

/// The rank of the pair that begins at boundary `i`, read in the
/// pre-removal layout, where the symbol just merged still spans three
/// boundary offsets.
fn get_rank(ranks: &Vocab, data: &[u8], parts: &Vec<(usize, u32)>, i: usize) -> (r: u32)
    requires
        ranks.wf(),
        offsets_ok(parts@, data@.len()),
        i < parts@.len(),
    ensures
        r == grank(data@, ranks.view_tokens(), parts@, i as int),
{
    if parts.len() < 4 || i >= parts.len() - 3 {
        return u32::MAX;
    }
    let a = parts[i].0;
    let b = parts[i + 3].0;
    proof {
        assert(parts@[i as int].0 < parts@[i + 1].0);
        assert(parts@[i + 1].0 < parts@[i + 2].0);
        assert(parts@[i + 2].0 < parts@[i + 3].0);
        assert(parts@[i + 3].0 <= data@.len());
    }
    let piece = slice_subrange(data, a, b);
    ranks.rank_of(piece)
}

/// Contract `data` to its coarsest vocabulary-consistent segmentation: start
/// with one boundary per byte, then repeatedly merge at the leftmost
/// minimum-rank boundary, recomputing only the two affected boundaries and
/// rescanning for the next minimum.  The result is exactly the mathematical
/// merge `spec_merge`: a partition of the input whose spans are all
/// vocabulary entries and where no two adjacent spans can merge further.
pub fn merge(data: &[u8], ranks: &Vocab) -> (parts: Vec<(usize, u32)>)
    requires
        ranks.wf(),
        data@.len() >= 1,
    ensures
        parts@ == spec_merge(data@, ranks.view_tokens()),
        engine_inv(data@, ranks.view_tokens(), parts@),
        fully_merged(data@, ranks.view_tokens(), parts@),
{
    let ghost voc = ranks.view_tokens();
    let n = data.len();
    let mut parts: Vec<(usize, u32)> = Vec::new();
    let mut k: usize = 0;
    while k < n - 1
        invariant
            ranks.wf(),
            n == data@.len(),
            n >= 1,
            voc == ranks.view_tokens(),
            0 <= k <= n - 1,
            parts@.len() == k,
            forall|j: int| 0 <= j < k ==> parts@[j] == init_parts(data@, voc)[j],
        decreases n - 1 - k,
    {
        let piece = slice_subrange(data, k, k + 2);
        let r = ranks.rank_of(piece);
        parts.push((k, r));
        k = k + 1;
    }
    parts.push((n - 1, u32::MAX));
    parts.push((n, u32::MAX));
    proof {
        assert(parts@ =~= init_parts(data@, voc));
        lemma_init_inv(data@, voc);
    }
    loop
        invariant
            ranks.wf(),
            n == data@.len(),
            n >= 1,
            voc == ranks.view_tokens(),
            engine_inv(data@, voc, parts@),
            merge_run(data@, voc, parts@) == spec_merge(data@, voc),
        ensures
            parts@ == spec_merge(data@, voc),
            engine_inv(data@, voc, parts@),
            fully_merged(data@, voc, parts@),
        decreases parts@.len(),
    {
        // Full rescan for the leftmost minimum rank.
        let plen = parts.len();
        let mut best: u32 = u32::MAX;
        let mut besti: usize = 0;
        let mut j: usize = 0;
        while j < plen - 1
            invariant
                plen == parts@.len(),
                plen >= 2,
                0 <= j <= plen - 1,
                0 <= besti < plen,
                scan_min_from(parts@, j as int, best, besti as int) == scan_min(parts@),
            decreases plen - 1 - j,
        {
            let r = parts[j].1;
            if r < best {
                best = r;
                besti = j;
            }
            j = j + 1;
        }
        proof {
            assert(scan_min(parts@) == (best, besti as int));
        }
        if best == u32::MAX {
            proof {
                lemma_terminal(data@, voc, parts@);
            }
            break ;
        }
        proof {
            lemma_min_valid(data@, voc, parts@);
            lemma_step_preserves(data@, voc, parts@, besti as int);
        }
        let ghost ppre = parts@;
        proof {
            lemma_partition_offsets_ok(parts@, data@.len());
        }
        let i = besti;
        if i > 0 {
            let gr = get_rank(ranks, data, &parts, i - 1);
            let off = parts[i - 1].0;
            parts[i - 1] = (off, gr);
        }
        proof {
            assert(forall|q: int| 0 <= q < parts@.len() ==> (#[trigger] parts@[q]).0 == ppre[q].0);
            assert(is_partition(parts@, data@.len())) by {
                assert(parts@[0].0 == ppre[0].0);
                assert(parts@[parts@.len() - 1].0 == ppre[ppre.len() - 1].0);
                assert forall|q: int| 0 <= q < parts@.len() - 1 implies (#[trigger] parts@[q].0)
                    < parts@[q + 1].0 by {
                    assert(parts@[q].0 == ppre[q].0 && parts@[q + 1].0 == ppre[q + 1].0);
                }
            }
            lemma_partition_offsets_ok(parts@, data@.len());
        }
        let gr2 = get_rank(ranks, data, &parts, i);
        let off2 = parts[i].0;
        parts[i] = (off2, gr2);
        let _removed = parts.remove(i + 1);
        proof {
            assert(parts@ == merge_step(data@, voc, ppre, i as int));
            assert(merge_run(data@, voc, ppre) == merge_run(data@, voc, parts@));
        }
    }
    parts
}

} // verus!
