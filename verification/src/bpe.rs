//! The tokenizer core: configuration, the training loop that learns the
//! vocabulary from a corpus, and the public operations on a trained
//! instance.  The pre-tokenizer splits the corpus with a configurable
//! Unicode-aware pattern; pairs never merge across those word boundaries.

use vstd::prelude::*;
use crate::vocab::Vocab;
use crate::vocab::spec_rank;
use crate::vocab::no_rank;
use crate::vocab::lemma_spec_rank;
use crate::codec::pair_encode;
use crate::codec::pair_split;
use crate::codec::spec_encode;
use crate::codec::spec_split;
use crate::codec::spec_decode;
use crate::codec::decode_bytes;
use crate::codec::lemma_decode_push;
use crate::BpeError;

verus! {

#[verifier::external_type_specification]
#[verifier::external_body]
pub struct ExRegex(regex::Regex);

/// Whether `regex::Regex::new` accepts this pattern text: compilation is a
/// function of the pattern alone.
pub uninterp spec fn pattern_compiles(pat: Seq<char>) -> bool;

/// The pattern text a compiled `regex::Regex` value stands for;
/// `compile_pattern` ties it to the text the value was compiled from.
pub uninterp spec fn pattern_of(re: regex::Regex) -> Seq<char>;

/// Relies on regex::Regex::new: a pattern compiles, or fails to, depending
/// only on the pattern text, and the compiled value carries that text.
#[verifier::external_body]
fn compile_pattern(pat: &str) -> (r: Option<regex::Regex>)
    ensures
        r is Some <==> pattern_compiles(pat@),
        r matches Some(re) ==> pattern_of(re) == pat@,
{
    regex::Regex::new(pat).ok()
}

/// The text that lossy UTF-8 decoding yields for these bytes: a function of
/// the bytes alone.
pub uninterp spec fn lossy_utf8(bytes: Seq<u8>) -> Seq<char>;

/// Relies on String::from_utf8_lossy: invalid UTF-8 is replaced in a way
/// that depends only on the input bytes.
#[verifier::external_body]
fn lossy_string(data: &Vec<u8>) -> (r: String)
    ensures
        r@ == lossy_utf8(data@),
{
    String::from_utf8_lossy(data).into_owned()
}

/// The words the pre-tokenizer yields for a pattern and a text: the bytes of
/// the successive non-overlapping matches, leftmost first.  For values built
/// by `compile_pattern` (default settings, as `regex::Regex::new` uses), the
/// matches are a function of the pattern text and the haystack alone.
pub uninterp spec fn words_of(pat: Seq<char>, hay: Seq<char>) -> Seq<Seq<u8>>;

/// Relies on regex::Regex::find_iter: the successive non-overlapping matches
/// of the pattern in the text, leftmost first; each word is the bytes of one
/// matched substring.
#[verifier::external_body]
fn find_words(re: &regex::Regex, hay: &String) -> (words: Vec<Vec<u8>>)
    ensures
        byte_words_view(words@) == words_of(pattern_of(*re), hay@),
{
    re.find_iter(hay).map(|m| m.as_str().as_bytes().to_vec()).collect()
}

/// The byte sequences of a list of words.
pub open spec fn byte_words_view(ws: Seq<Vec<u8>>) -> Seq<Seq<u8>> {
    ws.map_values(|w: Vec<u8>| w@)
}

/// The symbol sequences of a list of words under training.
pub open spec fn id_words_view(ws: Seq<Vec<u32>>) -> Seq<Seq<u32>> {
    ws.map_values(|w: Vec<u32>| w@)
}

/// Total number of symbols across all words.
pub open spec fn words_len(ws: Seq<Seq<u32>>) -> nat
    decreases ws.len(),
{
    if ws.len() == 0 {
        0
    } else {
        words_len(ws.drop_last()) + ws.last().len()
    }
}

/// No word holds an adjacent pair any more: training is exhausted.
pub open spec fn no_pairs(ws: Seq<Seq<u32>>) -> bool {
    forall|k: int| 0 <= k < ws.len() ==> (#[trigger] ws[k]).len() < 2
}

/// The pair occurs at some adjacent position of some word.
pub open spec fn pair_occurs(ws: Seq<Seq<u32>>, p: (u32, u32)) -> bool {
    exists|w: int, i: int|
        #![trigger ws[w][i]]
        0 <= w < ws.len() && 0 <= i && i + 1 < ws[w].len() && ws[w][i] == p.0 && ws[w][i + 1]
            == p.1
}

/// A word under training faithfully represents its original bytes: every
/// symbol is a valid token id and the symbols decode to those bytes.
pub open spec fn word_ok(w: Seq<u32>, voc: Seq<Seq<u8>>, orig: Seq<u8>) -> bool {
    &&& forall|i: int| 0 <= i < w.len() ==> (#[trigger] w[i]) < voc.len()
    &&& decode_bytes(w, voc) == orig
}

/// All words under training represent the pre-tokenized corpus.
pub open spec fn words_ok(ws: Seq<Seq<u32>>, voc: Seq<Seq<u8>>, origs: Seq<Seq<u8>>) -> bool {
    &&& ws.len() == origs.len()
    &&& forall|k: int| 0 <= k < ws.len() ==> word_ok(#[trigger] ws[k], voc, origs[k])
}

/// Greedy left-to-right rewrite of one word: each non-overlapping occurrence
/// of the pair `(a, b)` becomes the single symbol `id`.
pub open spec fn rewrite_word(w: Seq<u32>, a: u32, b: u32, id: u32) -> Seq<u32>
    decreases w.len(),
{
    if w.len() < 2 {
        w
    } else if w[0] == a && w[1] == b {
        seq![id] + rewrite_word(w.skip(2), a, b, id)
    } else {
        seq![w[0]] + rewrite_word(w.skip(1), a, b, id)
    }
}


/// The adjacent symbol pairs of one word, in position order.
pub open spec fn word_pairs(w: Seq<u32>) -> Seq<(u32, u32)> {
    if w.len() < 2 {
        Seq::empty()
    } else {
        Seq::new((w.len() - 1) as nat, |i: int| (w[i], w[i + 1]))
    }
}

/// Every adjacent pair of every word, in corpus scan order: word by word,
/// position by position.
pub open spec fn all_pairs(ws: Seq<Seq<u32>>) -> Seq<(u32, u32)>
    decreases ws.len(),
{
    if ws.len() == 0 {
        Seq::empty()
    } else {
        all_pairs(ws.drop_last()) + word_pairs(ws.last())
    }
}

/// How many of the first `n` candidates equal `p`.
pub open spec fn count_pairs_upto(s: Seq<(u32, u32)>, p: (u32, u32), n: int) -> nat
    decreases n,
{
    if n <= 0 {
        0
    } else {
        count_pairs_upto(s, p, n - 1) + (if s[n - 1] == p {
            1nat
        } else {
            0nat
        })
    }
}

/// The frequency of the pair `p` in the candidate list.
pub open spec fn pair_freq(s: Seq<(u32, u32)>, p: (u32, u32)) -> nat {
    count_pairs_upto(s, p, s.len() as int)
}

/// Scan the candidates from `j` keeping the accumulator `(best, bestc)`;
/// only a strictly higher frequency replaces it, so on equal counts the
/// pair met first in scan order wins.
pub open spec fn select_from(s: Seq<(u32, u32)>, j: int, best: (u32, u32), bestc: nat) -> (
    u32,
    u32,
)
    decreases s.len() - j,
{
    if j < 0 || j >= s.len() {
        best
    } else if pair_freq(s, s[j]) > bestc {
        select_from(s, j + 1, s[j], pair_freq(s, s[j]))
    } else {
        select_from(s, j + 1, best, bestc)
    }
}

/// The pair that one training iteration merges: the most frequent
/// candidate, the first-encountered on ties.
pub open spec fn select_pair(s: Seq<(u32, u32)>) -> (u32, u32) {
    select_from(s, 1, s[0], pair_freq(s, s[0]))
}

/// Rewrite every word with the merged symbol.
pub open spec fn rewrite_all(ws: Seq<Seq<u32>>, a: u32, b: u32, id: u32) -> Seq<Seq<u32>> {
    Seq::new(ws.len(), |k: int| rewrite_word(ws[k], a, b, id))
}

/// The 256 singleton byte tokens that seed every vocabulary.
pub open spec fn seed_vocab() -> Seq<Seq<u8>> {
    Seq::new(256, |i: int| seq![i as u8])
}

/// The initial symbol form of the pre-tokenized words: one raw byte value
/// per symbol.
pub open spec fn initial_words(origs: Seq<Seq<u8>>) -> Seq<Seq<u32>> {
    Seq::new(origs.len(), |k: int| Seq::new(origs[k].len(), |i: int| origs[k][i] as u32))
}

/// One training iteration: select the most frequent pair, form the merged
/// token from the pair's bytes, give it the next sequential id (or reuse
/// the existing id when those bytes are already an entry, keeping the
/// mapping bijective), and rewrite every word.
pub open spec fn grow_step(voc: Seq<Seq<u8>>, ws: Seq<Seq<u32>>) -> (Seq<Seq<u8>>, Seq<Seq<u32>>) {
    let p = select_pair(all_pairs(ws));
    let tok = voc[p.0 as int] + voc[p.1 as int];
    let r = spec_rank(voc, tok);
    let id = if r == no_rank() {
        voc.len() as u32
    } else {
        r
    };
    let voc2 = if r == no_rank() {
        voc.push(tok)
    } else {
        voc
    };
    (voc2, rewrite_all(ws, p.0, p.1, id))
}

/// The whole training loop: grow the vocabulary one merge at a time while
/// it is below target and some adjacent pair remains; the result is the
/// final vocabulary and the final symbol form of the words.
pub open spec fn train_loop(voc: Seq<Seq<u8>>, ws: Seq<Seq<u32>>, target: int) -> (
    Seq<Seq<u8>>,
    Seq<Seq<u32>>,
)
    decreases words_len(ws),
    via train_loop_decreases
{
    if voc.len() >= target || all_pairs(ws).len() == 0 {
        (voc, ws)
    } else {
        let st = grow_step(voc, ws);
        train_loop(st.0, st.1, target)
    }
}

#[via_fn]
proof fn train_loop_decreases(voc: Seq<Seq<u8>>, ws: Seq<Seq<u32>>, target: int) {
    if !(voc.len() >= target || all_pairs(ws).len() == 0) {
        let p = select_pair(all_pairs(ws));
        lemma_select_occurs(ws);
        let st = grow_step(voc, ws);
        assert(st.1 == rewrite_all(ws, p.0, p.1, (if spec_rank(
            voc,
            voc[p.0 as int] + voc[p.1 as int],
        ) == no_rank() {
            voc.len() as u32
        } else {
            spec_rank(voc, voc[p.0 as int] + voc[p.1 as int])
        })));
        lemma_rewrite_all_len(ws, p.0, p.1, (if spec_rank(
            voc,
            voc[p.0 as int] + voc[p.1 as int],
        ) == no_rank() {
            voc.len() as u32
        } else {
            spec_rank(voc, voc[p.0 as int] + voc[p.1 as int])
        }));
    }
}

/// What training makes of pre-tokenized words and a target size: the
/// mathematical model that `train_on_words` realizes exactly.
pub open spec fn spec_train(origs: Seq<Seq<u8>>, target: int) -> (Seq<Seq<u8>>, Seq<Seq<u32>>) {
    train_loop(seed_vocab(), initial_words(origs), target)
}

/// Every candidate the scan collects occurs at some adjacent position.
proof fn lemma_all_pairs_occurs(ws: Seq<Seq<u32>>)
    ensures
        forall|q: int|
            0 <= q < all_pairs(ws).len() ==> pair_occurs(ws, #[trigger] all_pairs(ws)[q]),
    decreases ws.len(),
{
    if ws.len() > 0 {
        let wsd = ws.drop_last();
        lemma_all_pairs_occurs(wsd);
        assert forall|q: int| 0 <= q < all_pairs(ws).len() implies pair_occurs(
            ws,
            #[trigger] all_pairs(ws)[q],
        ) by {
            if q < all_pairs(wsd).len() {
                assert(all_pairs(ws)[q] == all_pairs(wsd)[q]);
                assert(pair_occurs(wsd, all_pairs(wsd)[q]));
                let p = all_pairs(wsd)[q];
                let (w, i) = choose|w: int, i: int|
                    #![trigger wsd[w][i]]
                    0 <= w < wsd.len() && 0 <= i && i + 1 < wsd[w].len() && wsd[w][i] == p.0
                        && wsd[w][i + 1] == p.1;
                assert(ws[w] == wsd[w]);
                assert(ws[w][i] == p.0 && ws[w][i + 1] == p.1);
            } else {
                let lastw = ws.last();
                let q2 = q - all_pairs(wsd).len();
                assert(all_pairs(ws)[q] == word_pairs(lastw)[q2]);
                assert(word_pairs(lastw)[q2] == (lastw[q2], lastw[q2 + 1]));
                assert(ws[ws.len() - 1][q2] == lastw[q2]);
                assert(ws[ws.len() - 1][q2 + 1] == lastw[q2 + 1]);
            }
        }
    }
}

/// A word list with no candidate pairs has no word of two or more symbols.
proof fn lemma_all_pairs_empty(ws: Seq<Seq<u32>>)
    requires
        all_pairs(ws).len() == 0,
    ensures
        no_pairs(ws),
    decreases ws.len(),
{
    if ws.len() > 0 {
        let wsd = ws.drop_last();
        lemma_all_pairs_empty(wsd);
        assert(word_pairs(ws.last()).len() == 0);
        assert(ws.last().len() < 2);
        assert forall|k: int| 0 <= k < ws.len() implies (#[trigger] ws[k]).len() < 2 by {
            if k < ws.len() - 1 {
                assert(ws[k] == wsd[k]);
            }
        }
    }
}

/// The scan's accumulator result occurs, provided the accumulator and every
/// candidate do.
proof fn lemma_select_from_occurs(
    ws: Seq<Seq<u32>>,
    s: Seq<(u32, u32)>,
    j: int,
    best: (u32, u32),
    bestc: nat,
)
    requires
        0 <= j,
        pair_occurs(ws, best),
        forall|q: int| 0 <= q < s.len() ==> pair_occurs(ws, #[trigger] s[q]),
    ensures
        pair_occurs(ws, select_from(s, j, best, bestc)),
    decreases s.len() - j,
{
    if j < s.len() {
        if pair_freq(s, s[j]) > bestc {
            lemma_select_from_occurs(ws, s, j + 1, s[j], pair_freq(s, s[j]));
        } else {
            lemma_select_from_occurs(ws, s, j + 1, best, bestc);
        }
    }
}

/// The selected pair occurs at some adjacent position of some word.
proof fn lemma_select_occurs(ws: Seq<Seq<u32>>)
    requires
        all_pairs(ws).len() >= 1,
    ensures
        pair_occurs(ws, select_pair(all_pairs(ws))),
{
    lemma_all_pairs_occurs(ws);
    let s = all_pairs(ws);
    lemma_select_from_occurs(ws, s, 1, s[0], pair_freq(s, s[0]));
}

/// Rewriting never lengthens the words, and strictly shortens them when the
/// pair occurs somewhere.
proof fn lemma_rewrite_all_len(ws: Seq<Seq<u32>>, a: u32, b: u32, id: u32)
    ensures
        words_len(rewrite_all(ws, a, b, id)) <= words_len(ws),
        pair_occurs(ws, (a, b)) ==> words_len(rewrite_all(ws, a, b, id)) < words_len(ws),
    decreases ws.len(),
{
    if ws.len() == 0 {
        assert(rewrite_all(ws, a, b, id) =~= Seq::<Seq<u32>>::empty());
    } else {
        let wsd = ws.drop_last();
        lemma_rewrite_all_len(wsd, a, b, id);
        assert(rewrite_all(ws, a, b, id).drop_last() =~= rewrite_all(wsd, a, b, id));
        assert(rewrite_all(ws, a, b, id).last() == rewrite_word(ws.last(), a, b, id));
        lemma_rewrite_len(ws.last(), a, b, id);
        if pair_occurs(ws, (a, b)) {
            let (w, i) = choose|w: int, i: int|
                #![trigger ws[w][i]]
                0 <= w < ws.len() && 0 <= i && i + 1 < ws[w].len() && ws[w][i] == a && ws[w][i + 1]
                    == b;
            if w == ws.len() - 1 {
                assert(ws.last()[i] == a && ws.last()[i + 1] == b);
                lemma_rewrite_shrinks(ws.last(), a, b, id);
            } else {
                assert(wsd[w][i] == a && wsd[w][i + 1] == b);
                assert(pair_occurs(wsd, (a, b)));
            }
        }
    }
}

/// Decoding distributes over concatenation of id sequences.
proof fn lemma_decode_concat(ids1: Seq<u32>, ids2: Seq<u32>, voc: Seq<Seq<u8>>)
    ensures
        decode_bytes(ids1 + ids2, voc) == decode_bytes(ids1, voc) + decode_bytes(ids2, voc),
    decreases ids1.len(),
{
    if ids1.len() == 0 {
        assert(ids1 + ids2 =~= ids2);
        assert(decode_bytes(ids1, voc) + decode_bytes(ids2, voc) =~= decode_bytes(ids2, voc));
    } else {
        lemma_decode_concat(ids1.drop_first(), ids2, voc);
        assert((ids1 + ids2).drop_first() =~= ids1.drop_first() + ids2);
        assert((ids1 + ids2)[0] == ids1[0]);
        assert(decode_bytes(ids1, voc) + decode_bytes(ids2, voc) =~= voc[ids1[0] as int]
            + (decode_bytes(ids1.drop_first(), voc) + decode_bytes(ids2, voc)));
    }
}

/// A one-symbol sequence decodes to that token's bytes.
proof fn lemma_decode_one(id: u32, voc: Seq<Seq<u8>>)
    ensures
        decode_bytes(seq![id], voc) == voc[id as int],
{
    assert(seq![id].drop_first() =~= Seq::<u32>::empty());
    assert(decode_bytes(seq![id], voc) == voc[id as int] + decode_bytes(
        seq![id].drop_first(),
        voc,
    ));
    assert(voc[id as int] + Seq::<u8>::empty() =~= voc[id as int]);
}

/// Growing the vocabulary does not change what existing ids decode to.
proof fn lemma_decode_vocab_grow(ids: Seq<u32>, voc: Seq<Seq<u8>>, t: Seq<u8>)
    requires
        forall|i: int| 0 <= i < ids.len() ==> (#[trigger] ids[i]) < voc.len(),
    ensures
        decode_bytes(ids, voc.push(t)) == decode_bytes(ids, voc),
    decreases ids.len(),
{
    if ids.len() > 0 {
        assert(forall|i: int|
            0 <= i < ids.drop_first().len() ==> (#[trigger] ids.drop_first()[i]) < voc.len());
        lemma_decode_vocab_grow(ids.drop_first(), voc, t);
        assert(voc.push(t)[ids[0] as int] == voc[ids[0] as int]);
    }
}

/// Rewriting never lengthens a word.
proof fn lemma_rewrite_len(w: Seq<u32>, a: u32, b: u32, id: u32)
    ensures
        rewrite_word(w, a, b, id).len() <= w.len(),
    decreases w.len(),
{
    if w.len() >= 2 {
        if w[0] == a && w[1] == b {
            lemma_rewrite_len(w.skip(2), a, b, id);
        } else {
            lemma_rewrite_len(w.skip(1), a, b, id);
        }
    }
}

/// Rewriting a word that holds the pair makes it strictly shorter.
proof fn lemma_rewrite_shrinks(w: Seq<u32>, a: u32, b: u32, id: u32)
    requires
        exists|i: int| 0 <= i && i + 1 < w.len() && (#[trigger] w[i]) == a && w[i + 1] == b,
    ensures
        rewrite_word(w, a, b, id).len() < w.len(),
    decreases w.len(),
{
    let i = choose|i: int| 0 <= i && i + 1 < w.len() && (#[trigger] w[i]) == a && w[i + 1] == b;
    if w[0] == a && w[1] == b {
        lemma_rewrite_len(w.skip(2), a, b, id);
    } else {
        assert(i >= 1);
        assert(w.skip(1)[i - 1] == w[i] && w.skip(1)[i] == w[i + 1]);
        lemma_rewrite_shrinks(w.skip(1), a, b, id);
    }
}

/// Rewriting keeps ids valid and keeps the decoded bytes unchanged, since
/// the new symbol decodes to the concatenation of the replaced pair.
proof fn lemma_rewrite_ok(w: Seq<u32>, a: u32, b: u32, id: u32, voc: Seq<Seq<u8>>)
    requires
        (a as int) < voc.len(),
        (b as int) < voc.len(),
        (id as int) < voc.len(),
        voc[id as int] == voc[a as int] + voc[b as int],
        forall|i: int| 0 <= i < w.len() ==> (#[trigger] w[i]) < voc.len(),
    ensures
        forall|i: int|
            0 <= i < rewrite_word(w, a, b, id).len() ==> (#[trigger] rewrite_word(w, a, b, id)[i])
                < voc.len(),
        decode_bytes(rewrite_word(w, a, b, id), voc) == decode_bytes(w, voc),
    decreases w.len(),
{
    if w.len() < 2 {
    } else if w[0] == a && w[1] == b {
        assert(forall|i: int|
            0 <= i < w.skip(2).len() ==> (#[trigger] w.skip(2)[i]) < voc.len());
        lemma_rewrite_ok(w.skip(2), a, b, id, voc);
        lemma_decode_concat(seq![id], rewrite_word(w.skip(2), a, b, id), voc);
        lemma_decode_one(id, voc);
        assert(w.drop_first() =~= w.skip(1));
        assert(w.skip(1).drop_first() =~= w.skip(2));
        assert(w.skip(1)[0] == w[1]);
        assert(decode_bytes(w, voc) == voc[a as int] + decode_bytes(w.skip(1), voc));
        assert(decode_bytes(w.skip(1), voc) == voc[b as int] + decode_bytes(
            w.skip(1).drop_first(),
            voc,
        ));
        assert(decode_bytes(w, voc) == voc[a as int] + (voc[b as int] + decode_bytes(
            w.skip(2),
            voc,
        )));
        assert(voc[a as int] + (voc[b as int] + decode_bytes(w.skip(2), voc)) =~= (voc[a as int]
            + voc[b as int]) + decode_bytes(w.skip(2), voc));
        assert forall|i: int|
            0 <= i < rewrite_word(w, a, b, id).len() implies (#[trigger] rewrite_word(
            w,
            a,
            b,
            id,
        )[i]) < voc.len() by {
            if i > 0 {
                assert(rewrite_word(w, a, b, id)[i] == rewrite_word(w.skip(2), a, b, id)[i - 1]);
            }
        }
    } else {
        assert(forall|i: int|
            0 <= i < w.skip(1).len() ==> (#[trigger] w.skip(1)[i]) < voc.len());
        lemma_rewrite_ok(w.skip(1), a, b, id, voc);
        lemma_decode_concat(seq![w[0]], rewrite_word(w.skip(1), a, b, id), voc);
        lemma_decode_one(w[0], voc);
        assert(w.drop_first() =~= w.skip(1));
        assert forall|i: int|
            0 <= i < rewrite_word(w, a, b, id).len() implies (#[trigger] rewrite_word(
            w,
            a,
            b,
            id,
        )[i]) < voc.len() by {
            if i > 0 {
                assert(rewrite_word(w, a, b, id)[i] == rewrite_word(w.skip(1), a, b, id)[i - 1]);
            }
        }
    }
}

/// Pushing a word onto a list adds its length to the total.
proof fn lemma_words_len_push(ws: Seq<Seq<u32>>, w: Seq<u32>)
    ensures
        words_len(ws.push(w)) == words_len(ws) + w.len(),
{
    assert(ws.push(w).drop_last() =~= ws);
    assert(ws.push(w).last() =~= w);
}

/// Rewrite one word, replacing each non-overlapping occurrence of the pair,
/// left to right, with the merged symbol.
fn rewrite_word_exec(w: &Vec<u32>, a: u32, b: u32, id: u32) -> (r: Vec<u32>)
    ensures
        r@ == rewrite_word(w@, a, b, id),
{
    let mut out: Vec<u32> = Vec::new();
    let n = w.len();
    proof {
        assert(w@.skip(0) =~= w@);
        assert(Seq::<u32>::empty() + rewrite_word(w@, a, b, id) =~= rewrite_word(w@, a, b, id));
    }
    let mut i: usize = 0;
    while i < n
        invariant
            n == w@.len(),
            0 <= i <= n,
            rewrite_word(w@, a, b, id) == out@ + rewrite_word(w@.skip(i as int), a, b, id),
        decreases n - i,
    {
        let ghost pre = out@;
        let ghost rest = w@.skip(i as int);
        if i + 1 < n && w[i] == a && w[i + 1] == b {
            out.push(id);
            proof {
                assert(rest[0] == a && rest[1] == b);
                assert(rest.skip(2) =~= w@.skip(i + 2));
                assert(rewrite_word(rest, a, b, id) == seq![id] + rewrite_word(
                    w@.skip(i + 2),
                    a,
                    b,
                    id,
                ));
                assert(pre + rewrite_word(rest, a, b, id) =~= out@ + rewrite_word(
                    w@.skip(i + 2),
                    a,
                    b,
                    id,
                ));
            }
            i = i + 2;
        } else {
            let sym = w[i];
            out.push(sym);
            proof {
                assert(rest[0] == sym);
                assert(rest.len() >= 2 ==> !(rest[0] == a && rest[1] == b)) by {
                    if rest.len() >= 2 {
                        assert(rest[1] == w@[i + 1]);
                    }
                }
                assert(rest.skip(1) =~= w@.skip(i + 1));
                assert(rewrite_word(rest, a, b, id) == seq![sym] + rewrite_word(
                    w@.skip(i + 1),
                    a,
                    b,
                    id,
                ));
                assert(pre + rewrite_word(rest, a, b, id) =~= out@ + rewrite_word(
                    w@.skip(i + 1),
                    a,
                    b,
                    id,
                ));
            }
            i = i + 1;
        }
    }
    proof {
        assert(w@.skip(n as int) =~= Seq::<u32>::empty());
        assert(out@ + Seq::<u32>::empty() =~= out@);
    }
    out
}

/// How often the pair occurs in the collected candidate list: exactly its
/// frequency across all words.
fn count_freq(cand: &Vec<(u32, u32)>, a: u32, b: u32) -> (c: usize)
    ensures
        c == pair_freq(cand@, (a, b)),
        c <= cand@.len(),
{
    let n = cand.len();
    let mut c: usize = 0;
    let mut q: usize = 0;
    while q < n
        invariant
            n == cand@.len(),
            0 <= q <= n,
            c <= q,
            c == count_pairs_upto(cand@, (a, b), q as int),
        decreases n - q,
    {
        let p = cand[q];
        if p.0 == a && p.1 == b {
            c = c + 1;
        }
        proof {
            assert(count_pairs_upto(cand@, (a, b), q + 1) == count_pairs_upto(
                cand@,
                (a, b),
                q as int,
            ) + (if cand@[q as int] == (a, b) {
                1nat
            } else {
                0nat
            }));
        }
        q = q + 1;
    }
    c
}

/// The tokenizer: a vocabulary under construction or in use, the target
/// size, and the compiled pre-tokenizer pattern.
pub struct BpeCore {
    /// The learned vocabulary; doubles as the id-indexed encoder table.
    pub ranks: Vocab,
    /// Target total number of vocabulary entries.
    pub vocab_size: usize,
    /// The pre-tokenizer pattern text.
    pub pat_str: String,
    /// The compiled pre-tokenizer pattern.
    pub regex: regex::Regex,
}

impl BpeCore {
    /// A usable configuration: the target admits the 256 singleton seeds and
    /// every id fits in a `u32`.
    pub open spec fn config_wf(self) -> bool {
        &&& self.vocab_size >= 256
        &&& self.vocab_size <= u32::MAX
    }

    /// Build a tokenizer configuration.  Fails with `InvalidVocabSize` when
    /// the target cannot hold the 256 byte tokens, and with `InvalidPattern`
    /// exactly when the pattern does not compile.
    pub fn new(vocab_size: usize, pat_str: String) -> (r: Result<BpeCore, BpeError>)
        requires
            vocab_size <= u32::MAX,
        ensures
            vocab_size < 256 ==> (r matches Err(e) && e == BpeError::InvalidVocabSize),
            vocab_size >= 256 && !pattern_compiles(pat_str@) ==> (r matches Err(e) && e
                == BpeError::InvalidPattern),
            vocab_size >= 256 && pattern_compiles(pat_str@) ==> (r matches Ok(c) && c.vocab_size
                == vocab_size && c.pat_str == pat_str && c.ranks.view_tokens().len() == 0
                && c.config_wf()),
    {
        if vocab_size < 256 {
            return Err(BpeError::InvalidVocabSize);
        }
        match compile_pattern(pat_str.as_str()) {
            None => Err(BpeError::InvalidPattern),
            Some(re) => Ok(
                BpeCore { ranks: Vocab { tokens: Vec::new() }, vocab_size, pat_str, regex: re },
            ),
        }
    }

    /// Learn the vocabulary from pre-tokenized words: seed the 256 singleton
    /// byte tokens, then, while the vocabulary is below target and some
    /// adjacent pair remains, merge the most frequent pair across all words
    /// (on equal counts the pair met first in scan order wins) and rewrite
    /// every word.  Returns the final symbol form of the words: every word
    /// still decodes to its original bytes, and on return the vocabulary
    /// either reached the target or no mergeable pair was left.
    pub fn train_on_words(&mut self, words: Vec<Vec<u8>>) -> (leftover: Vec<Vec<u32>>)
        requires
            old(self).config_wf(),
            old(self).ranks.view_tokens().len() == 0,
        ensures
            final(self).vocab_size == old(self).vocab_size,
            final(self).pat_str == old(self).pat_str,
            final(self).ranks.wf(),
            256 <= final(self).ranks.view_tokens().len() <= old(self).vocab_size,
            words_ok(
                id_words_view(leftover@),
                final(self).ranks.view_tokens(),
                byte_words_view(words@),
            ),
            final(self).ranks.view_tokens().len() == old(self).vocab_size || no_pairs(
                id_words_view(leftover@),
            ),
            final(self).regex == old(self).regex,
            final(self).ranks.view_tokens() == spec_train(
                byte_words_view(words@),
                old(self).vocab_size as int,
            ).0,
            id_words_view(leftover@) == spec_train(
                byte_words_view(words@),
                old(self).vocab_size as int,
            ).1,
    {
        let ghost origs = byte_words_view(words@);

        // Seed the singleton byte tokens, ids 0 through 255.
        let mut b: usize = 0;
        while b < 256
            invariant
                self.vocab_size == old(self).vocab_size,
                self.pat_str == old(self).pat_str,
                self.regex == old(self).regex,
                old(self).config_wf(),
                0 <= b <= 256,
                self.ranks.view_tokens().len() == b,
                forall|i: int|
                    0 <= i < b ==> #[trigger] self.ranks.view_tokens()[i] == seq![i as u8],
            decreases 256 - b,
        {
            let mut t: Vec<u8> = Vec::new();
            t.push(b as u8);
            let ghost prevv = self.ranks.view_tokens();
            let ghost tv = t@;
            self.ranks.tokens.push(t);
            proof {
                assert(tv =~= seq![b as u8]);
                assert(self.ranks.view_tokens() =~= prevv.push(tv));
            }
            b = b + 1;
        }
        proof {
            assert(self.ranks.view_tokens() =~= seed_vocab());
            assert(self.ranks.wf()) by {
                assert forall|i: int, j: int|
                    0 <= i < j < self.ranks.view_tokens().len() implies (#[trigger] self.ranks.view_tokens()[i])
                    != (#[trigger] self.ranks.view_tokens()[j]) by {
                    assert(self.ranks.view_tokens()[i][0] == i as u8);
                    assert(self.ranks.view_tokens()[j][0] == j as u8);
                }
            }
        }

        // Represent each word as a sequence of symbol ids, raw bytes first.
        let mut words32: Vec<Vec<u32>> = Vec::new();
        let ghost voc0 = self.ranks.view_tokens();
        let wn = words.len();
        let mut k: usize = 0;
        while k < wn
            invariant
                wn == words@.len(),
                0 <= k <= wn,
                voc0 == self.ranks.view_tokens(),
                self.ranks.wf(),
                origs == byte_words_view(words@),
                words32@.len() == k,
                forall|q: int|
                    0 <= q < k ==> word_ok(#[trigger] id_words_view(words32@)[q], voc0, origs[q]),
                forall|q: int|
                    0 <= q < k ==> #[trigger] id_words_view(words32@)[q] == initial_words(
                        origs,
                    )[q],
            decreases wn - k,
        {
            let wlen = words[k].len();
            let mut w32: Vec<u32> = Vec::new();
            let mut i: usize = 0;
            while i < wlen
                invariant
                    wn == words@.len(),
                    0 <= k < wn,
                    wlen == words@[k as int]@.len(),
                    0 <= i <= wlen,
                    voc0 == self.ranks.view_tokens(),
                    self.ranks.wf(),
                    w32@.len() == i,
                    forall|q: int| 0 <= q < i ==> (#[trigger] w32@[q]) < voc0.len(),
                    forall|q: int|
                        0 <= q < i ==> (#[trigger] w32@[q]) == (words@[k as int]@[q] as u32),
                    decode_bytes(w32@, voc0) == words@[k as int]@.take(i as int),
                decreases wlen - i,
            {
                let byte = words[k][i];
                let ghost prev32 = w32@;
                w32.push(byte as u32);
                proof {
                    assert(w32@ =~= prev32.push(byte as u32));
                    lemma_decode_push(prev32, voc0, byte as u32);
                    assert(voc0[byte as int] == seq![byte]);
                    assert(words@[k as int]@.take(i + 1) =~= words@[k as int]@.take(i as int).push(
                        byte,
                    ));
                    assert forall|q: int| 0 <= q < w32@.len() implies ((#[trigger] w32@[q])
                        < voc0.len() && w32@[q] == (words@[k as int]@[q] as u32)) by {
                        if q < prev32.len() {
                            assert(w32@[q] == prev32[q]);
                        } else {
                            assert(w32@[q] == byte as u32);
                        }
                    }
                }
                i = i + 1;
            }
            proof {
                assert(words@[k as int]@.take(wlen as int) =~= words@[k as int]@);
                assert(origs[k as int] == words@[k as int]@);
            }
            let ghost prevws = id_words_view(words32@);
            let ghost w32v = w32@;
            words32.push(w32);
            proof {
                assert(id_words_view(words32@) =~= prevws.push(w32v));
                assert(w32v =~= initial_words(origs)[k as int]);
                assert forall|q: int| 0 <= q < k + 1 implies (word_ok(
                    #[trigger] id_words_view(words32@)[q],
                    voc0,
                    origs[q],
                ) && id_words_view(words32@)[q] == initial_words(origs)[q]) by {
                    if q < k as int {
                        assert(id_words_view(words32@)[q] == prevws[q]);
                    } else {
                        assert(id_words_view(words32@)[q] == w32v);
                    }
                }
            }
            k = k + 1;
        }

        proof {
            assert(id_words_view(words32@) =~= initial_words(origs));
        }

        // Merge loop.
        loop
            invariant
                self.vocab_size == old(self).vocab_size,
                self.pat_str == old(self).pat_str,
                self.regex == old(self).regex,
                old(self).config_wf(),
                self.ranks.wf(),
                256 <= self.ranks.view_tokens().len() <= self.vocab_size,
                origs == byte_words_view(words@),
                words_ok(id_words_view(words32@), self.ranks.view_tokens(), origs),
                train_loop(
                    self.ranks.view_tokens(),
                    id_words_view(words32@),
                    old(self).vocab_size as int,
                ) == spec_train(origs, old(self).vocab_size as int),
            ensures
                self.vocab_size == old(self).vocab_size,
                self.pat_str == old(self).pat_str,
                self.regex == old(self).regex,
                self.ranks.wf(),
                256 <= self.ranks.view_tokens().len() <= self.vocab_size,
                words_ok(id_words_view(words32@), self.ranks.view_tokens(), origs),
                self.ranks.view_tokens().len() == self.vocab_size || no_pairs(
                    id_words_view(words32@),
                ),
                self.ranks.view_tokens() == spec_train(origs, old(self).vocab_size as int).0,
                id_words_view(words32@) == spec_train(origs, old(self).vocab_size as int).1,
            decreases words_len(id_words_view(words32@)),
        {
            let ghost voc = self.ranks.view_tokens();
            let ghost wsv = id_words_view(words32@);
            if self.ranks.tokens.len() >= self.vocab_size {
                proof {
                    assert(train_loop(voc, wsv, old(self).vocab_size as int) == (voc, wsv));
                }
                break ;
            }

            // Collect every adjacent symbol pair, in scan order.
            let mut cand: Vec<(u32, u32)> = Vec::new();
            proof {
                assert(wsv.take(0) =~= Seq::<Seq<u32>>::empty());
                assert(cand@ =~= all_pairs(wsv.take(0)));
            }
            let mut k2: usize = 0;
            while k2 < words32.len()
                invariant
                    wsv == id_words_view(words32@),
                    voc == self.ranks.view_tokens(),
                    self.ranks.wf(),
                    words_ok(wsv, voc, origs),
                    0 <= k2 <= words32@.len(),
                    cand@ == all_pairs(wsv.take(k2 as int)),
                    forall|q: int| 0 <= q < cand@.len() ==> pair_occurs(wsv, #[trigger] cand@[q]),
                    forall|q: int|
                        0 <= q < cand@.len() ==> ((#[trigger] cand@[q]).0 as int) < voc.len() && (
                        cand@[q].1 as int) < voc.len(),
                    forall|w: int| 0 <= w < k2 && wsv[w].len() >= 2 ==> cand@.len() >= 1,
                decreases words32@.len() - k2,
            {
                let wl = words32[k2].len();
                let ghost cand_entry = cand@.len();
                proof {
                    assert(wsv[k2 as int] == words32@[k2 as int]@);
                }
                if wl >= 2 {
                    proof {
                        assert(word_pairs(wsv[k2 as int]).take(0) =~= Seq::<(u32, u32)>::empty());
                        assert(cand@ + Seq::<(u32, u32)>::empty() =~= cand@);
                    }
                    let mut i2: usize = 0;
                    while i2 + 1 < wl
                        invariant
                            wsv == id_words_view(words32@),
                            voc == self.ranks.view_tokens(),
                            words_ok(wsv, voc, origs),
                            0 <= k2 < words32@.len(),
                            wl == wsv[k2 as int].len(),
                            wl >= 2,
                            0 <= i2 <= wl - 1,
                            cand@.len() == cand_entry + i2,
                            cand@ == all_pairs(wsv.take(k2 as int)) + word_pairs(
                                wsv[k2 as int],
                            ).take(i2 as int),
                            forall|q: int|
                                0 <= q < cand@.len() ==> pair_occurs(wsv, #[trigger] cand@[q]),
                            forall|q: int|
                                0 <= q < cand@.len() ==> ((#[trigger] cand@[q]).0 as int)
                                    < voc.len() && (cand@[q].1 as int) < voc.len(),
                        decreases wl - i2,
                    {
                        let x = words32[k2][i2];
                        let y = words32[k2][i2 + 1];
                        let ghost prevc = cand@;
                        cand.push((x, y));
                        proof {
                            assert(cand@ =~= prevc.push((x, y)));
                            assert(wsv[k2 as int][i2 as int] == x && wsv[k2 as int][i2 + 1] == y);
                            assert(word_pairs(wsv[k2 as int])[i2 as int] == (x, y));
                            assert(word_pairs(wsv[k2 as int]).take(i2 + 1) =~= word_pairs(
                                wsv[k2 as int],
                            ).take(i2 as int).push((x, y)));
                            assert(cand@ =~= all_pairs(wsv.take(k2 as int)) + word_pairs(
                                wsv[k2 as int],
                            ).take(i2 + 1));
                            assert(word_ok(wsv[k2 as int], voc, origs[k2 as int]));
                            assert(pair_occurs(wsv, (x, y)));
                            assert forall|q: int| 0 <= q < cand@.len() implies pair_occurs(
                                wsv,
                                #[trigger] cand@[q],
                            ) && ((cand@[q].0 as int) < voc.len()) && ((cand@[q].1 as int)
                                < voc.len()) by {
                                if q < prevc.len() {
                                    assert(cand@[q] == prevc[q]);
                                } else {
                                    assert(cand@[q] == (x, y));
                                }
                            }
                        }
                        i2 = i2 + 1;
                    }
                    proof {
                        assert(i2 == wl - 1);
                        assert(word_pairs(wsv[k2 as int]).take(i2 as int) =~= word_pairs(
                            wsv[k2 as int],
                        ));
                    }
                }
                proof {
                    assert(wsv.take(k2 + 1).drop_last() =~= wsv.take(k2 as int));
                    assert(wsv.take(k2 + 1).last() == wsv[k2 as int]);
                    if wl < 2 {
                        assert(word_pairs(wsv[k2 as int]) =~= Seq::<(u32, u32)>::empty());
                        assert(cand@ + Seq::<(u32, u32)>::empty() =~= cand@);
                    }
                    assert(cand@ =~= all_pairs(wsv.take(k2 as int)) + word_pairs(wsv[k2 as int]));
                    assert(cand@ =~= all_pairs(wsv.take(k2 + 1)));
                }
                k2 = k2 + 1;
            }
            proof {
                assert(wsv.take(words32@.len() as int) =~= wsv);
                assert(cand@ =~= all_pairs(wsv));
            }

            if cand.len() == 0 {
                proof {
                    lemma_all_pairs_empty(wsv);
                    assert(train_loop(voc, wsv, old(self).vocab_size as int) == (voc, wsv));
                }
                break ;
            }

            // Select the most frequent pair; on ties the first encountered
            // in scan order wins.
            let first = cand[0];
            let mut besta = first.0;
            let mut bestb = first.1;
            proof {
                assert(pair_occurs(wsv, cand@[0]));
                assert((besta, bestb) == cand@[0]);
            }
            let mut bestc = count_freq(&cand, first.0, first.1);
            proof {
                assert(select_pair(cand@) == select_from(
                    cand@,
                    1,
                    cand@[0],
                    pair_freq(cand@, cand@[0]),
                ));
            }
            let mut q2: usize = 1;
            while q2 < cand.len()
                invariant
                    wsv == id_words_view(words32@),
                    voc == self.ranks.view_tokens(),
                    0 <= q2 <= cand@.len(),
                    1 <= q2,
                    cand@.len() >= 1,
                    bestc == pair_freq(cand@, (besta, bestb)),
                    select_from(cand@, q2 as int, (besta, bestb), bestc as nat) == select_pair(
                        cand@,
                    ),
                    exists|q: int| 0 <= q < cand@.len() && (#[trigger] cand@[q]) == (besta, bestb),
                    forall|q: int| 0 <= q < cand@.len() ==> pair_occurs(wsv, #[trigger] cand@[q]),
                    forall|q: int|
                        0 <= q < cand@.len() ==> ((#[trigger] cand@[q]).0 as int) < voc.len() && (
                        cand@[q].1 as int) < voc.len(),
                decreases cand@.len() - q2,
            {
                let ghost oldbest = (besta, bestb);
                let ghost oldc = bestc as nat;
                let p = cand[q2];
                let c = count_freq(&cand, p.0, p.1);
                if c > bestc {
                    besta = p.0;
                    bestb = p.1;
                    bestc = c;
                    proof {
                        assert(pair_occurs(wsv, cand@[q2 as int]));
                        assert((besta, bestb) == cand@[q2 as int]);
                    }
                }
                proof {
                    assert(cand@[q2 as int] == p);
                    assert(select_from(cand@, q2 as int, oldbest, oldc) == select_from(
                        cand@,
                        q2 + 1,
                        (besta, bestb),
                        bestc as nat,
                    ));
                }
                q2 = q2 + 1;
            }
            proof {
                assert(q2 == cand@.len());
                assert(select_from(cand@, q2 as int, (besta, bestb), bestc as nat) == (
                besta,
                bestb,
                ));
                assert((besta, bestb) == select_pair(cand@));
                let (w, i) = choose|w: int, i: int|
                    #![trigger wsv[w][i]]
                    0 <= w < wsv.len() && 0 <= i && i + 1 < wsv[w].len() && wsv[w][i] == besta
                        && wsv[w][i + 1] == bestb;
                assert(word_ok(wsv[w], voc, origs[w]));
                assert(((besta as int) < voc.len()) && ((bestb as int) < voc.len()));
            }

            // The new token is the concatenation of the pair's bytes.
            let mut new_token: Vec<u8> = Vec::new();
            let la = self.ranks.tokens[besta as usize].len();
            let mut p1: usize = 0;
            while p1 < la
                invariant
                    voc == self.ranks.view_tokens(),
                    (besta as int) < voc.len(),
                    la == voc[besta as int].len(),
                    0 <= p1 <= la,
                    new_token@ == voc[besta as int].take(p1 as int),
                decreases la - p1,
            {
                let byte = self.ranks.tokens[besta as usize][p1];
                new_token.push(byte);
                proof {
                    assert(voc[besta as int].take(p1 + 1) =~= voc[besta as int].take(
                        p1 as int,
                    ).push(byte));
                }
                p1 = p1 + 1;
            }
            let lb = self.ranks.tokens[bestb as usize].len();
            let mut p2: usize = 0;
            while p2 < lb
                invariant
                    voc == self.ranks.view_tokens(),
                    (besta as int) < voc.len(),
                    (bestb as int) < voc.len(),
                    lb == voc[bestb as int].len(),
                    0 <= p2 <= lb,
                    new_token@ == voc[besta as int] + voc[bestb as int].take(p2 as int),
                decreases lb - p2,
            {
                let byte = self.ranks.tokens[bestb as usize][p2];
                new_token.push(byte);
                proof {
                    assert(voc[bestb as int].take(p2 + 1) =~= voc[bestb as int].take(
                        p2 as int,
                    ).push(byte));
                    assert(voc[besta as int] + voc[bestb as int].take(p2 + 1) =~= (voc[
                        besta as int
                    ] + voc[bestb as int].take(p2 as int)).push(byte));
                }
                p2 = p2 + 1;
            }
            proof {
                assert(voc[besta as int].take(la as int) =~= voc[besta as int]);
                assert(voc[bestb as int].take(lb as int) =~= voc[bestb as int]);
            }

            // Its id: a fresh sequential one, unless those bytes are already
            // an entry (then the existing id keeps the mapping bijective).
            let existing = self.ranks.rank_of(new_token.as_slice());
            let id: u32;
            if existing != u32::MAX {
                id = existing;
                proof {
                    lemma_spec_rank(voc, new_token@);
                }
            } else {
                proof {
                    lemma_spec_rank(voc, new_token@);
                    assert(!voc.contains(new_token@));
                }
                let idl = self.ranks.tokens.len();
                id = idl as u32;
                self.ranks.tokens.push(new_token);
                proof {
                    let voc2 = self.ranks.view_tokens();
                    assert(voc2 =~= voc.push(voc2[voc.len() as int]));
                    assert(self.ranks.wf()) by {
                        assert forall|i: int, j: int|
                            0 <= i < j < voc2.len() implies (#[trigger] voc2[i]) != (
                        #[trigger] voc2[j]) by {
                            if j == voc.len() as int {
                                assert(voc[i] != voc2[j]) by {
                                    if voc[i] == voc2[j] {
                                        assert(voc.contains(voc2[j]));
                                    }
                                }
                            }
                        }
                        assert(forall|i: int|
                            0 <= i < 256 ==> #[trigger] voc2[i] == seq![i as u8]);
                        assert(forall|i: int| 0 <= i < voc2.len() ==> #[trigger] voc2[i].len() > 0);
                    }
                }
            }
            let ghost voc2 = self.ranks.view_tokens();
            proof {
                assert((id as int) < voc2.len());
                assert(voc2[id as int] == voc2[besta as int] + voc2[bestb as int]) by {
                    if existing != u32::MAX {
                        assert(voc2 == voc);
                    } else {
                        assert(voc2[id as int] == new_token@);
                        assert(voc2[besta as int] == voc[besta as int]);
                        assert(voc2[bestb as int] == voc[bestb as int]);
                    }
                }
                // Existing words still decode unchanged under the grown
                // vocabulary.
                assert forall|w: int| 0 <= w < wsv.len() implies word_ok(
                    #[trigger] wsv[w],
                    voc2,
                    origs[w],
                ) by {
                    if existing == u32::MAX {
                        lemma_decode_vocab_grow(wsv[w], voc, new_token@);
                        assert(voc2 =~= voc.push(new_token@));
                    }
                }
            }

            // Rewrite every word, replacing the pair with the merged symbol.
            let ghost occ_w = choose|w: int, i: int|
                #![trigger wsv[w][i]]
                0 <= w < wsv.len() && 0 <= i && i + 1 < wsv[w].len() && wsv[w][i] == besta
                    && wsv[w][i + 1] == bestb;
            let mut new_words: Vec<Vec<u32>> = Vec::new();
            let mut k3: usize = 0;
            while k3 < words32.len()
                invariant
                    wsv == id_words_view(words32@),
                    voc2 == self.ranks.view_tokens(),
                    self.ranks.wf(),
                    origs == byte_words_view(words@),
                    words_ok(wsv, voc2, origs),
                    (besta as int) < voc2.len(),
                    (bestb as int) < voc2.len(),
                    (id as int) < voc2.len(),
                    voc2[id as int] == voc2[besta as int] + voc2[bestb as int],
                    0 <= occ_w.0 < wsv.len(),
                    0 <= occ_w.1 && occ_w.1 + 1 < wsv[occ_w.0].len(),
                    wsv[occ_w.0][occ_w.1] == besta && wsv[occ_w.0][occ_w.1 + 1] == bestb,
                    0 <= k3 <= words32@.len(),
                    new_words@.len() == k3,
                    forall|w: int|
                        0 <= w < k3 ==> #[trigger] id_words_view(new_words@)[w] == rewrite_word(
                            wsv[w],
                            besta,
                            bestb,
                            id,
                        ),
                    words_len(id_words_view(new_words@)) + (if k3 > occ_w.0 {
                        1nat
                    } else {
                        0nat
                    }) <= words_len(wsv.take(k3 as int)),
                decreases words32@.len() - k3,
            {
                let w2 = rewrite_word_exec(&words32[k3], besta, bestb, id);
                let ghost prevn = id_words_view(new_words@);
                let ghost w2v = w2@;
                proof {
                    assert(wsv[k3 as int] == words32@[k3 as int]@);
                    assert(w2v == rewrite_word(wsv[k3 as int], besta, bestb, id));
                    lemma_rewrite_len(wsv[k3 as int], besta, bestb, id);
                    if k3 as int == occ_w.0 {
                        lemma_rewrite_shrinks(wsv[k3 as int], besta, bestb, id);
                    }
                    lemma_words_len_push(prevn, w2v);
                    assert(wsv.take(k3 + 1) =~= wsv.take(k3 as int).push(wsv[k3 as int]));
                    lemma_words_len_push(wsv.take(k3 as int), wsv[k3 as int]);
                }
                new_words.push(w2);
                proof {
                    assert(id_words_view(new_words@) =~= prevn.push(w2v));
                    assert forall|w: int| 0 <= w < k3 + 1 implies #[trigger] id_words_view(
                        new_words@,
                    )[w] == rewrite_word(wsv[w], besta, bestb, id) by {
                        if w < k3 as int {
                            assert(id_words_view(new_words@)[w] == prevn[w]);
                        } else {
                            assert(id_words_view(new_words@)[w] == w2v);
                        }
                    }
                    assert(words_len(id_words_view(new_words@)) == words_len(prevn) + w2v.len());
                    assert(words_len(wsv.take(k3 + 1)) == words_len(wsv.take(k3 as int)) + wsv[
                        k3 as int
                    ].len());
                }
                k3 = k3 + 1;
            }
            proof {
                assert(wsv.take(wsv.len() as int) =~= wsv);
                assert(words_len(id_words_view(new_words@)) < words_len(wsv));
                // Every rewritten word still represents its original bytes.
                assert forall|w: int| 0 <= w < id_words_view(new_words@).len() implies word_ok(
                    #[trigger] id_words_view(new_words@)[w],
                    voc2,
                    origs[w],
                ) by {
                    lemma_rewrite_ok(wsv[w], besta, bestb, id, voc2);
                }
            }
            proof {
                let t = old(self).vocab_size as int;
                assert((besta, bestb) == select_pair(all_pairs(wsv)));
                assert(voc[besta as int] + voc[bestb as int] == new_token@);
                assert(spec_rank(voc, new_token@) == existing);
                let gs = grow_step(voc, wsv);
                assert(gs.0 == voc2);
                assert(gs.1 == rewrite_all(wsv, besta, bestb, id));
                assert(id_words_view(new_words@) =~= rewrite_all(wsv, besta, bestb, id));
                assert(voc.len() < t);
                assert(all_pairs(wsv).len() >= 1);
                assert(train_loop(voc, wsv, t) == train_loop(gs.0, gs.1, t));
                assert(train_loop(voc2, id_words_view(new_words@), t) == spec_train(origs, t));
            }
            words32 = new_words;
        }
        words32
    }

    /// Learn a vocabulary from a raw corpus: decode it as text (invalid
    /// UTF-8 lossily replaced), split it into words with the configured
    /// pattern, and merge pairs within those words until the vocabulary
    /// reaches the target size or no pair remains.  The result is exactly
    /// `spec_train` of the pre-tokenized corpus.  Meant for a freshly
    /// constructed instance.
    pub fn train(&mut self, data: Vec<u8>)
        requires
            old(self).config_wf(),
            old(self).ranks.view_tokens().len() == 0,
        ensures
            final(self).vocab_size == old(self).vocab_size,
            final(self).pat_str == old(self).pat_str,
            final(self).regex == old(self).regex,
            final(self).ranks.wf(),
            256 <= final(self).ranks.view_tokens().len() <= old(self).vocab_size,
            final(self).ranks.view_tokens() == spec_train(
                words_of(pattern_of(old(self).regex), lossy_utf8(data@)),
                old(self).vocab_size as int,
            ).0,
    {
        let hay = lossy_string(&data);
        let words = find_words(&self.regex, &hay);
        let _leftover = self.train_on_words(words);
    }

    /// Encode bytes with the trained vocabulary.
    pub fn encode(&self, data: &[u8]) -> (r: Vec<u32>)
        requires
            self.ranks.wf(),
        ensures
            r@ == spec_encode(data@, self.ranks.view_tokens()),
            spec_decode(r@, self.ranks.view_tokens()) == Some(data@),
    {
        pair_encode(data, &self.ranks)
    }

    /// Split bytes into the byte slices of their terminal segmentation.
    pub fn split<'a>(&self, data: &'a [u8]) -> (r: Vec<&'a [u8]>)
        requires
            self.ranks.wf(),
        ensures
            r@.len() == spec_split(data@, self.ranks.view_tokens()).len(),
            forall|q: int|
                0 <= q < r@.len() ==> (#[trigger] r@[q])@ == spec_split(
                    data@,
                    self.ranks.view_tokens(),
                )[q],
    {
        pair_split(data, &self.ranks)
    }

    /// Reconstruct bytes from token ids; fails with `InvalidToken` exactly
    /// when an id has no vocabulary entry.
    pub fn decode(&self, ids: &Vec<u32>) -> (r: Result<Vec<u8>, BpeError>)
        ensures
            match r {
                Ok(bytes) => spec_decode(ids@, self.ranks.view_tokens()) == Some(bytes@),
                Err(e) => spec_decode(ids@, self.ranks.view_tokens()) is None && e
                    == BpeError::InvalidToken,
            },
    {
        crate::codec::decode(ids, &self.ranks)
    }
}

} // verus!
