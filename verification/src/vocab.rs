//! The learned vocabulary: a bijective mapping between non-empty byte
//! sequences and token ids.  The id of an entry doubles as its merge rank:
//! lower ids were learned earlier and take priority during merging.

use vstd::prelude::*;

verus! {

/// Rank used for a pair that is absent from the vocabulary: no real token
/// ever carries this rank, because a well-formed vocabulary holds fewer than
/// `u32::MAX` entries.
pub open spec fn no_rank() -> u32 {
    u32::MAX
}

/// A trained (or in-training) vocabulary.  `tokens[id]` is the byte sequence
/// that token `id` represents; the rank of a byte sequence is its index.
pub struct Vocab {
    pub tokens: Vec<Vec<u8>>,
}

impl Vocab {
    /// The mathematical model: the ordered sequence of token byte strings.
    pub open spec fn view_tokens(self) -> Seq<Seq<u8>> {
        self.tokens@.map_values(|t: Vec<u8>| t@)
    }

    /// Well-formedness of a seeded vocabulary: the first 256 entries are the
    /// singleton byte tokens, every entry is non-empty and distinct from all
    /// others (the mapping is bijective), and every id fits in a `u32`.
    pub open spec fn wf(self) -> bool {
        vocab_wf(self.view_tokens())
    }

    /// Number of entries.
    pub fn len(&self) -> (n: usize)
        ensures
            n == self.view_tokens().len(),
    {
        self.tokens.len()
    }

    /// The rank (token id) of a byte sequence, or `no_rank()` when the
    /// sequence is not in the vocabulary.
    pub fn rank_of(&self, piece: &[u8]) -> (r: u32)
        requires
            self.view_tokens().len() <= u32::MAX,
        ensures
            r == spec_rank(self.view_tokens(), piece@),
    {
        let n = self.tokens.len();
        let mut i: usize = 0;
        while i < n
            invariant
                n == self.view_tokens().len(),
                n <= u32::MAX,
                0 <= i <= n,
                spec_rank(self.view_tokens(), piece@) == rank_from(
                    self.view_tokens(),
                    piece@,
                    i as int,
                ),
            decreases n - i,
        {
            if bytes_eq(self.tokens[i].as_slice(), piece) {
                return i as u32;
            }
            i = i + 1;
        }
        u32::MAX
    }
}

/// Well-formedness over the mathematical vocabulary model.
pub open spec fn vocab_wf(voc: Seq<Seq<u8>>) -> bool {
    &&& voc.len() >= 256
    &&& voc.len() <= u32::MAX
    &&& forall|b: int| 0 <= b < 256 ==> #[trigger] voc[b] == seq![b as u8]
    &&& forall|i: int| 0 <= i < voc.len() ==> #[trigger] voc[i].len() > 0
    &&& forall|i: int, j: int| 0 <= i < j < voc.len() ==> #[trigger] voc[i] != #[trigger] voc[j]
}

/// The index of the first occurrence of `piece` at or after position `i`,
/// as a `u32`, or `no_rank()` when there is none.
pub open spec fn rank_from(voc: Seq<Seq<u8>>, piece: Seq<u8>, i: int) -> u32
    decreases voc.len() - i,
{
    if i < 0 || i >= voc.len() || voc.len() > u32::MAX {
        no_rank()
    } else if voc[i] == piece {
        i as u32
    } else {
        rank_from(voc, piece, i + 1)
    }
}

/// The rank of `piece` in `voc`: the index of its first occurrence, or
/// `no_rank()` when `piece` is not an entry of `voc`.
pub open spec fn spec_rank(voc: Seq<Seq<u8>>, piece: Seq<u8>) -> u32 {
    rank_from(voc, piece, 0)
}

/// A finite rank points at a matching entry; `no_rank()` means the piece is
/// absent (for vocabularies small enough that every index fits in a `u32`).
pub proof fn lemma_rank_from(voc: Seq<Seq<u8>>, piece: Seq<u8>, i: int)
    requires
        voc.len() <= u32::MAX,
        0 <= i <= voc.len(),
    ensures
        rank_from(voc, piece, i) == no_rank() ==> forall|j: int|
            i <= j < voc.len() ==> #[trigger] voc[j] != piece,
        rank_from(voc, piece, i) != no_rank() ==> {
            &&& i <= rank_from(voc, piece, i) < voc.len()
            &&& voc[rank_from(voc, piece, i) as int] == piece
        },
    decreases voc.len() - i,
{
    if i < voc.len() {
        lemma_rank_from(voc, piece, i + 1);
    }
}

/// `spec_rank` finds `piece` exactly when `voc` contains it.
pub proof fn lemma_spec_rank(voc: Seq<Seq<u8>>, piece: Seq<u8>)
    requires
        voc.len() <= u32::MAX,
    ensures
        spec_rank(voc, piece) == no_rank() <==> !voc.contains(piece),
        spec_rank(voc, piece) != no_rank() ==> {
            &&& spec_rank(voc, piece) < voc.len()
            &&& voc[spec_rank(voc, piece) as int] == piece
        },
{
    lemma_rank_from(voc, piece, 0);
    if spec_rank(voc, piece) == no_rank() {
        assert forall|j: int| 0 <= j < voc.len() implies voc[j] != piece by {}
        if voc.contains(piece) {
            let j = choose|j: int| 0 <= j < voc.len() && voc[j] == piece;
            assert(voc[j] != piece);
        }
    } else {
        assert(voc.contains(piece)) by {
            let r = spec_rank(voc, piece) as int;
            assert(voc[r] == piece);
        }
    }
}

/// Byte-slice equality, decided element by element.
pub fn bytes_eq(a: &[u8], b: &[u8]) -> (r: bool)
    ensures
        r == (a@ == b@),
{
    if a.len() != b.len() {
        assert(a@ != b@) by {
            assert(a@.len() != b@.len());
        }
        return false;
    }
    let n = a.len();
    let mut i: usize = 0;
    while i < n
        invariant
            n == a@.len() == b@.len(),
            0 <= i <= n,
            forall|j: int| 0 <= j < i ==> a@[j] == b@[j],
        decreases n - i,
    {
        if a[i] != b[i] {
            return false;
        }
        i = i + 1;
    }
    assert(a@ =~= b@);
    true
}

} // verus!
