//! Frequent-pair byte substitution over a flat buffer: `compress` assigns
//! byte values that do not occur in the input to frequent adjacent byte
//! pairs, and `decompress` expands them back.  This utility is independent
//! of the tokenizer: it shares no state with it.

use std::collections::HashMap;
use vstd::prelude::*;

verus! {

broadcast use vstd::std_specs::hash::group_hash_axioms;

/// A substitution table is well formed when following an entry's components
/// always leads to strictly smaller keys, so expansion terminates.
pub open spec fn table_wf(t: Map<u8, (u8, u8)>) -> bool {
    forall|e: u8|
        #[trigger] t.contains_key(e) ==> {
            &&& (t.contains_key(t[e].0) ==> t[e].0 < e)
            &&& (t.contains_key(t[e].1) ==> t[e].1 < e)
        }
}

/// The bytes that one byte stands for: itself if it is not a table key,
/// otherwise the expansion of the pair it was assigned to.
pub open spec fn expand_byte(t: Map<u8, (u8, u8)>, b: u8) -> Seq<u8>
    decreases (if t.contains_key(b) {
        b as int + 1
    } else {
        0int
    })
        when table_wf(t)
{
    if t.contains_key(b) {
        expand_byte(t, t[b].0) + expand_byte(t, t[b].1)
    } else {
        seq![b]
    }
}

/// The expansion of a whole buffer, byte by byte.
pub open spec fn expand_seq(t: Map<u8, (u8, u8)>, s: Seq<u8>) -> Seq<u8>
    decreases s.len(),
{
    if s.len() == 0 {
        Seq::empty()
    } else {
        expand_byte(t, s[0]) + expand_seq(t, s.drop_first())
    }
}

/// The number of positions in `s` before `n` at which the pair `(a, b)`
/// starts.
pub open spec fn pair_count_upto(s: Seq<u8>, a: u8, b: u8, n: int) -> nat
    decreases n,
{
    if n <= 0 {
        0
    } else {
        pair_count_upto(s, a, b, n - 1) + (if n < s.len() && s[n - 1] == a && s[n] == b {
            1nat
        } else {
            0nat
        })
    }
}

/// How often the pair `(a, b)` occurs at adjacent positions of `s`.
pub open spec fn pair_count(s: Seq<u8>, a: u8, b: u8) -> nat {
    pair_count_upto(s, a, b, s.len() as int)
}

/// The threshold that `compress` compares pair frequencies against; the
/// signed count is taken exactly as its 32-bit unsigned reading.
pub open spec fn spec_threshold(max_freq: i8) -> int {
    if max_freq >= 0 {
        max_freq as int
    } else {
        max_freq as int + 0x1_0000_0000
    }
}

/// No adjacent pair of `s` reaches the threshold at all.
pub open spec fn no_pair_frequent(s: Seq<u8>, th: int) -> bool {
    forall|a: u8, b: u8| ((#[trigger] pair_count(s, a, b)) as int) < th
}

/// Every adjacent pair of `s` that reaches the threshold already has a slot
/// assigned in `t`: the compressor left no frequent pair behind.
pub open spec fn no_frequent_unassigned(s: Seq<u8>, t: Map<u8, (u8, u8)>, th: int) -> bool {
    forall|j: int|
        0 <= j && j + 1 < s.len() ==> ((#[trigger] pair_count(s, s[j], s[j + 1])) as int) < th || (
        exists|e: u8| t.contains_key(e) && (#[trigger] t[e]) == (s[j], s[j + 1]))
}

/// An empty table expands every buffer to itself.
proof fn lemma_expand_empty(s: Seq<u8>)
    ensures
        expand_seq(Map::<u8, (u8, u8)>::empty(), s) == s,
    decreases s.len(),
{
    let t = Map::<u8, (u8, u8)>::empty();
    if s.len() == 0 {
        assert(expand_seq(t, s) =~= s);
    } else {
        lemma_expand_empty(s.drop_first());
        assert(!t.contains_key(s[0]));
        assert(expand_seq(t, s) =~= s);
    }
}

/// Expansion distributes over concatenation.
proof fn lemma_expand_concat(t: Map<u8, (u8, u8)>, s1: Seq<u8>, s2: Seq<u8>)
    ensures
        expand_seq(t, s1 + s2) == expand_seq(t, s1) + expand_seq(t, s2),
    decreases s1.len(),
{
    if s1.len() == 0 {
        assert(s1 + s2 =~= s2);
        assert(expand_seq(t, s1) + expand_seq(t, s2) =~= expand_seq(t, s2));
    } else {
        lemma_expand_concat(t, s1.drop_first(), s2);
        assert((s1 + s2).drop_first() =~= s1.drop_first() + s2);
        assert((s1 + s2)[0] == s1[0]);
        assert(expand_seq(t, s1) + expand_seq(t, s2) =~= expand_byte(t, s1[0]) + (expand_seq(
            t,
            s1.drop_first(),
        ) + expand_seq(t, s2)));
    }
}

/// A one-element buffer expands to the expansion of its byte.
proof fn lemma_expand_single(t: Map<u8, (u8, u8)>, x: u8)
    ensures
        expand_seq(t, seq![x]) == expand_byte(t, x),
{
    let s = seq![x];
    assert(s.drop_first() =~= Seq::<u8>::empty());
    assert(expand_seq(t, s) == expand_byte(t, x) + expand_seq(t, s.drop_first()));
    assert(expand_byte(t, x) + Seq::<u8>::empty() =~= expand_byte(t, x));
}

/// A two-element buffer expands to the two expansions in order.
proof fn lemma_expand_pair(t: Map<u8, (u8, u8)>, x: u8, y: u8)
    ensures
        expand_seq(t, seq![x, y]) == expand_byte(t, x) + expand_byte(t, y),
{
    let s = seq![x, y];
    assert(s.drop_first() =~= seq![y]);
    lemma_expand_single(t, y);
    assert(expand_seq(t, s) == expand_byte(t, x) + expand_seq(t, s.drop_first()));
}

/// Adding an entry for a byte that the table never mentions does not change
/// the expansion of any other byte.
proof fn lemma_expand_insert_byte(t: Map<u8, (u8, u8)>, e: u8, x: u8, y: u8, b: u8)
    requires
        table_wf(t),
        table_wf(t.insert(e, (x, y))),
        !t.contains_key(e),
        forall|d: u8| #[trigger] t.contains_key(d) ==> t[d].0 != e && t[d].1 != e,
        b != e,
    ensures
        expand_byte(t.insert(e, (x, y)), b) == expand_byte(t, b),
    decreases (if t.contains_key(b) {
        b as int + 1
    } else {
        0int
    }),
{
    let t2 = t.insert(e, (x, y));
    if t.contains_key(b) {
        assert(t2.contains_key(b) && t2[b] == t[b]);
        lemma_expand_insert_byte(t, e, x, y, t[b].0);
        lemma_expand_insert_byte(t, e, x, y, t[b].1);
    } else {
        assert(!t2.contains_key(b));
    }
}

/// Seq form of `lemma_expand_insert_byte`.
proof fn lemma_expand_insert_seq(t: Map<u8, (u8, u8)>, e: u8, x: u8, y: u8, s: Seq<u8>)
    requires
        table_wf(t),
        table_wf(t.insert(e, (x, y))),
        !t.contains_key(e),
        forall|d: u8| #[trigger] t.contains_key(d) ==> t[d].0 != e && t[d].1 != e,
        forall|j: int| 0 <= j < s.len() ==> #[trigger] s[j] != e,
    ensures
        expand_seq(t.insert(e, (x, y)), s) == expand_seq(t, s),
    decreases s.len(),
{
    if s.len() > 0 {
        lemma_expand_insert_byte(t, e, x, y, s[0]);
        assert(forall|j: int| 0 <= j < s.drop_first().len() ==> #[trigger] s.drop_first()[j] != e);
        lemma_expand_insert_seq(t, e, x, y, s.drop_first());
    }
}

/// A pair count before `n` never exceeds `n`.
proof fn lemma_pair_count_bound(s: Seq<u8>, a: u8, b: u8, n: int)
    ensures
        pair_count_upto(s, a, b, n) <= (if n <= 0 {
            0int
        } else {
            n
        }),
    decreases n,
{
    if n > 0 {
        lemma_pair_count_bound(s, a, b, n - 1);
    }
}

/// The number of `false` entries of a boolean sequence.
pub open spec fn count_false(s: Seq<bool>) -> nat
    decreases s.len(),
{
    if s.len() == 0 {
        0
    } else {
        count_false(s.drop_last()) + (if s.last() {
            0nat
        } else {
            1nat
        })
    }
}

/// Setting a `false` entry to `true` lowers the count by exactly one.
proof fn lemma_count_false_set_true(s: Seq<bool>, i: int)
    requires
        0 <= i < s.len(),
        !s[i],
    ensures
        count_false(s.update(i, true)) + 1 == count_false(s),
    decreases s.len(),
{
    let s2 = s.update(i, true);
    if i == s.len() - 1 {
        assert(s2.drop_last() =~= s.drop_last());
    } else {
        assert(s2.drop_last() =~= s.drop_last().update(i, true));
        assert(s2.last() == s.last());
        lemma_count_false_set_true(s.drop_last(), i);
    }
}

/// Find the smallest byte value whose slot is still free.
fn first_free(used: &Vec<bool>) -> (r: Option<u8>)
    requires
        used@.len() == 256,
    ensures
        match r {
            Some(e) => !used@[e as int] && forall|b: int| 0 <= b < e ==> used@[b],
            None => forall|b: int| 0 <= b < 256 ==> used@[b],
        },
{
    let mut i: usize = 0;
    while i < 256
        invariant
            used@.len() == 256,
            0 <= i <= 256,
            forall|b: int| 0 <= b < i ==> used@[b],
        decreases 256 - i,
    {
        if !used[i] {
            return Some(i as u8);
        }
        i = i + 1;
    }
    None
}

/// Expand one byte of compressed data onto the end of `out`.
fn expand_one(table: &HashMap<u8, (u8, u8)>, b: u8, out: &mut Vec<u8>)
    requires
        table_wf(table@),
    ensures
        final(out)@ == old(out)@ + expand_byte(table@, b),
    decreases (if table@.contains_key(b) {
        b as int + 1
    } else {
        0int
    }),
{
    match table.get(&b) {
        Some(pair) => {
            let x = pair.0;
            let y = pair.1;
            assert(table@.contains_key(b) && table@[b] == (x, y));
            let ghost mid = out@;
            expand_one(table, x, out);
            expand_one(table, y, out);
            assert(out@ =~= mid + (expand_byte(table@, x) + expand_byte(table@, y)));
        },
        None => {
            assert(!table@.contains_key(b));
            out.push(b);
            assert(out@ =~= old(out)@ + seq![b]);
        },
    }
}

/// Is the pair `(x, y)` already recorded as assigned?
fn pair_assigned(assigned: &Vec<(u8, u8)>, x: u8, y: u8) -> (r: bool)
    ensures
        r == assigned@.contains((x, y)),
{
    let n = assigned.len();
    let mut i: usize = 0;
    while i < n
        invariant
            n == assigned@.len(),
            0 <= i <= n,
            forall|j: int| 0 <= j < i ==> #[trigger] assigned@[j] != (x, y),
        decreases n - i,
    {
        let p = assigned[i];
        if p.0 == x && p.1 == y {
            assert(assigned@[i as int] == (x, y));
            return true;
        }
        i = i + 1;
    }
    assert(!assigned@.contains((x, y))) by {
        if assigned@.contains((x, y)) {
            let j = choose|j: int| 0 <= j < assigned@.len() && assigned@[j] == (x, y);
            assert(assigned@[j] != (x, y));
        }
    }
    false
}

/// Compress `data` by assigning byte values that do not occur in it to
/// adjacent pairs whose frequency reaches `max_freq` (read as an unsigned
/// 32-bit count), replacing one occurrence per assignment and repeating
/// until a pass makes no change.  On success the result expands back to
/// `data` under the returned table, every table key is a byte value that
/// `data` does not contain, no frequent pair was left unassigned, and when
/// no pair reaches the threshold the buffer comes back untouched with an
/// empty table.  `None` surfaces the one failure: every byte value was
/// claimed while a frequent pair remained, so compression could not finish;
/// that never happens when some adjacent pair falls short of the threshold
/// everywhere.
pub fn compress(data: &[u8], max_freq: i8) -> (r: Option<(Vec<u8>, HashMap<u8, (u8, u8)>)>)
    ensures
        match r {
            Some(ct) => {
                &&& table_wf(ct.1@)
                &&& expand_seq(ct.1@, ct.0@) == data@
                &&& ct.0@.len() <= data@.len()
                &&& (forall|e: u8| #[trigger] ct.1@.contains_key(e) ==> !data@.contains(e))
                &&& no_frequent_unassigned(ct.0@, ct.1@, spec_threshold(max_freq))
            },
            None => !no_pair_frequent(data@, spec_threshold(max_freq)),
        },
        no_pair_frequent(data@, spec_threshold(max_freq)) ==> (r matches Some(ct) && ct.0@ == data@
            && ct.1@ == Map::<u8, (u8, u8)>::empty()),
        data@.len() < 2 ==> (r matches Some(ct) && ct.0@ == data@ && ct.1@ == Map::<
            u8,
            (u8, u8),
        >::empty()),
{
    let n = data.len();
    let threshold: u64 = if max_freq >= 0 {
        max_freq as u64
    } else {
        ((max_freq as i64) + 0x1_0000_0000i64) as u64
    };
    proof {
        assert(threshold as int == spec_threshold(max_freq));
    }

    // Mark which byte values occur in the input; the rest are free slots.
    let mut used: Vec<bool> = Vec::new();
    let mut z: usize = 0;
    while z < 256
        invariant
            used@.len() == z,
            0 <= z <= 256,
            forall|q: int| 0 <= q < z ==> !(#[trigger] used@[q]),
        decreases 256 - z,
    {
        used.push(false);
        z = z + 1;
    }
    let mut j: usize = 0;
    while j < n
        invariant
            used@.len() == 256,
            n == data@.len(),
            0 <= j <= n,
            forall|b: int|
                0 <= b < 256 ==> (#[trigger] used@[b] <==> data@.take(j as int).contains(b as u8)),
        decreases n - j,
    {
        let d = data[j];
        used[d as usize] = true;
        proof {
            assert(data@.take(j + 1) =~= data@.take(j as int).push(d));
            assert forall|b: int| 0 <= b < 256 implies (#[trigger] used@[b] <==> data@.take(
                j + 1,
            ).contains(b as u8)) by {
                let s = data@.take(j as int);
                if b == d as int {
                    assert(s.push(d)[s.len() as int] == d);
                    assert(s.push(d).contains(d));
                } else {
                    if s.push(d).contains(b as u8) {
                        let k = choose|k: int|
                            0 <= k < s.push(d).len() && s.push(d)[k] == b as u8;
                        assert(s[k] == b as u8);
                        assert(s.contains(b as u8));
                    }
                    if s.contains(b as u8) {
                        let k = choose|k: int| 0 <= k < s.len() && s[k] == b as u8;
                        assert(s.push(d)[k] == b as u8);
                    }
                }
            }
        }
        j = j + 1;
    }
    proof {
        assert(data@.take(n as int) =~= data@);
    }

    // The working buffer starts as a copy of the input.
    let mut c: Vec<u8> = Vec::new();
    let mut j2: usize = 0;
    while j2 < n
        invariant
            n == data@.len(),
            0 <= j2 <= n,
            c@ == data@.take(j2 as int),
        decreases n - j2,
    {
        c.push(data[j2]);
        proof {
            assert(data@.take(j2 + 1) =~= data@.take(j2 as int).push(data@[j2 as int]));
        }
        j2 = j2 + 1;
    }
    proof {
        assert(data@.take(n as int) =~= data@);
    }

    let mut table: HashMap<u8, (u8, u8)> = HashMap::new();
    let mut assigned: Vec<(u8, u8)> = Vec::new();
    proof {
        lemma_expand_empty(data@);
    }

    loop
        invariant
            used@.len() == 256,
            n == data@.len(),
            threshold as int == spec_threshold(max_freq),
            forall|b: int|
                0 <= b < 256 ==> (#[trigger] used@[b] <==> (data@.contains(b as u8)
                    || table@.contains_key(b as u8))),
            forall|j: int| 0 <= j < c@.len() ==> used@[#[trigger] c@[j] as int],
            forall|e: u8| #[trigger] table@.contains_key(e) ==> !data@.contains(e),
            forall|e: u8|
                #[trigger] table@.contains_key(e) ==> used@[table@[e].0 as int] && used@[
                    table@[e].1 as int
                ],
            table_wf(table@),
            forall|e: u8, b: int|
                #![trigger table@.contains_key(e), used@[b]]
                table@.contains_key(e) && 0 <= b < e ==> used@[b],
            expand_seq(table@, c@) == data@,
            c@.len() <= data@.len(),
            forall|p: (u8, u8)|
                #[trigger] assigned@.contains(p) <==> exists|e: u8|
                    table@.contains_key(e) && #[trigger] table@[e] == p,
            no_pair_frequent(data@, spec_threshold(max_freq)) ==> c@ == data@ && table@ == Map::<
                u8,
                (u8, u8),
            >::empty(),
            data@.len() < 2 ==> c@ == data@ && table@ == Map::<u8, (u8, u8)>::empty(),
        ensures
            table_wf(table@),
            expand_seq(table@, c@) == data@,
            c@.len() <= data@.len(),
            forall|e: u8| #[trigger] table@.contains_key(e) ==> !data@.contains(e),
            no_frequent_unassigned(c@, table@, spec_threshold(max_freq)),
            no_pair_frequent(data@, spec_threshold(max_freq)) ==> c@ == data@ && table@ == Map::<
                u8,
                (u8, u8),
            >::empty(),
            data@.len() < 2 ==> c@ == data@ && table@ == Map::<u8, (u8, u8)>::empty(),
        decreases count_false(used@),
    {
        let m = c.len();

        // Count the frequency of every adjacent pair of the current buffer.
        let mut freq: Vec<usize> = Vec::new();
        let mut z2: usize = 0;
        while z2 < 65536
            invariant
                freq@.len() == z2,
                0 <= z2 <= 65536,
                forall|q: int| 0 <= q < z2 ==> #[trigger] freq@[q] == 0,
            decreases 65536 - z2,
        {
            freq.push(0);
            z2 = z2 + 1;
        }
        let mut j3: usize = 0;
        while j3 < m
            invariant
                m == c@.len(),
                freq@.len() == 65536,
                0 <= j3 <= m,
                forall|a: u8, b: u8|
                    #[trigger] pair_count_upto(c@, a, b, j3 as int) == freq@[(a as int) * 256
                        + (b as int)],
            decreases m - j3,
        {
            let ghost jj = j3 as int;
            if j3 + 1 < m {
                let x = c[j3];
                let y = c[j3 + 1];
                let idx = (x as usize) * 256 + (y as usize);
                proof {
                    lemma_pair_count_bound(c@, x, y, jj);
                }
                let v = freq[idx];
                freq[idx] = v + 1;
                proof {
                    assert forall|a: u8, b: u8| #[trigger] pair_count_upto(c@, a, b, jj + 1)
                        == freq@[(a as int) * 256 + (b as int)] by {
                        if a == x && b == y {
                            assert(pair_count_upto(c@, a, b, jj + 1) == pair_count_upto(
                                c@,
                                a,
                                b,
                                jj,
                            ) + 1);
                        } else {
                            assert((a as int) * 256 + (b as int) != idx as int);
                            assert(pair_count_upto(c@, a, b, jj + 1) == pair_count_upto(
                                c@,
                                a,
                                b,
                                jj,
                            ));
                        }
                    }
                }
            } else {
                proof {
                    assert forall|a: u8, b: u8| #[trigger] pair_count_upto(c@, a, b, jj + 1)
                        == freq@[(a as int) * 256 + (b as int)] by {
                        assert(pair_count_upto(c@, a, b, jj + 1) == pair_count_upto(c@, a, b, jj));
                    }
                }
            }
            j3 = j3 + 1;
        }

        // Scan for pairs that reach the threshold and replace the first
        // occurrence of each with a fresh slot.
        let ghost c0 = c@;
        let ghost t0 = table@;
        let ghost used_start = used@;
        let ghost assigned0 = assigned@;
        let mut found = false;
        let mut slots_full = false;
        let mut i: usize = 0;
        while i < c.len() && i + 1 < c.len()
            invariant_except_break
                !slots_full,
            invariant
                used@.len() == 256,
                n == data@.len(),
                threshold as int == spec_threshold(max_freq),
                m == c0.len(),
                freq@.len() == 65536,
                forall|a: u8, b: u8|
                    #[trigger] pair_count_upto(c0, a, b, m as int) == freq@[(a as int) * 256
                        + (b as int)],
                forall|b: int|
                    0 <= b < 256 ==> (#[trigger] used@[b] <==> (data@.contains(b as u8)
                        || table@.contains_key(b as u8))),
                forall|j: int| 0 <= j < c@.len() ==> used@[#[trigger] c@[j] as int],
                forall|e: u8| #[trigger] table@.contains_key(e) ==> !data@.contains(e),
                forall|e: u8|
                    #[trigger] table@.contains_key(e) ==> used@[table@[e].0 as int] && used@[
                        table@[e].1 as int
                    ],
                table_wf(table@),
                forall|e: u8, b: int|
                    #![trigger table@.contains_key(e), used@[b]]
                    table@.contains_key(e) && 0 <= b < e ==> used@[b],
                expand_seq(table@, c@) == data@,
                c@.len() <= data@.len(),
                forall|p: (u8, u8)|
                    #[trigger] assigned@.contains(p) <==> exists|e: u8|
                        table@.contains_key(e) && #[trigger] table@[e] == p,
                0 <= i <= c@.len(),
                !found ==> c@ == c0 && table@ == t0 && used@ == used_start && assigned@
                    == assigned0,
                !found ==> forall|j: int|
                    0 <= j < i && j + 1 < c0.len() ==> ((#[trigger] pair_count(
                        c0,
                        c0[j],
                        c0[j + 1],
                    )) as int) < spec_threshold(max_freq) || (exists|e: u8|
                        t0.contains_key(e) && (#[trigger] t0[e]) == (c0[j], c0[j + 1])),
                found ==> count_false(used@) < count_false(used_start),
                found ==> exists|a: u8, b: u8|
                    ((#[trigger] pair_count(c0, a, b)) as int) >= spec_threshold(max_freq),
                c@.len() <= c0.len(),
                found ==> c0.len() >= 2,
            ensures
                used@.len() == 256,
                forall|b: int|
                    0 <= b < 256 ==> (#[trigger] used@[b] <==> (data@.contains(b as u8)
                        || table@.contains_key(b as u8))),
                forall|j: int| 0 <= j < c@.len() ==> used@[#[trigger] c@[j] as int],
                forall|e: u8| #[trigger] table@.contains_key(e) ==> !data@.contains(e),
                forall|e: u8|
                    #[trigger] table@.contains_key(e) ==> used@[table@[e].0 as int] && used@[
                        table@[e].1 as int
                    ],
                table_wf(table@),
                forall|e: u8, b: int|
                    #![trigger table@.contains_key(e), used@[b]]
                    table@.contains_key(e) && 0 <= b < e ==> used@[b],
                expand_seq(table@, c@) == data@,
                c@.len() <= data@.len(),
                forall|p: (u8, u8)|
                    #[trigger] assigned@.contains(p) <==> exists|e: u8|
                        table@.contains_key(e) && #[trigger] table@[e] == p,
                slots_full ==> c0.len() >= 2,
                found ==> c0.len() >= 2,
                !found && !slots_full ==> c@ == c0 && table@ == t0 && no_frequent_unassigned(
                    c0,
                    t0,
                    spec_threshold(max_freq),
                ),
                found ==> count_false(used@) < count_false(used_start),
                (found || slots_full) ==> exists|a: u8, b: u8|
                    ((#[trigger] pair_count(c0, a, b)) as int) >= spec_threshold(max_freq),
            decreases c@.len() - i,
        {
            let x = c[i];
            let y = c[i + 1];
            let idx = (x as usize) * 256 + (y as usize);
            let fv = freq[idx];
            let ghost th = spec_threshold(max_freq);
            let qualified = (fv as u64) >= threshold;
            let already = if qualified {
                pair_assigned(&assigned, x, y)
            } else {
                false
            };
            if qualified && !already {
                match first_free(&used) {
                    None => {
                        proof {
                            assert(pair_count(c0, x, y) == pair_count_upto(
                                c0,
                                x,
                                y,
                                c0.len() as int,
                            ));
                            assert((pair_count(c0, x, y) as int) >= spec_threshold(max_freq));
                            assert(c0.len() >= 2);
                        }
                        slots_full = true;
                        break ;
                    },
                    Some(e) => {
                        let ghost tpre = table@;
                        let ghost cpre = c@;
                        let ghost upre = used@;
                        let ghost apre = assigned@;
                        proof {
                            assert(cpre.len() >= 2);
                            assert(c0.len() >= 2);
                            assert(!upre[e as int]);
                            assert(!tpre.contains_key(e));
                            assert(!data@.contains(e));
                            assert(cpre[i as int] == x && cpre[i + 1] == y);
                            assert(upre[x as int] && upre[y as int]);
                            assert(x != e && y != e);
                            assert forall|d: u8| #[trigger] tpre.contains_key(d) implies d < e
                                && tpre[d].0 != e && tpre[d].1 != e by {
                                assert(upre[tpre[d].0 as int] && upre[tpre[d].1 as int]);
                                if d == e {
                                    assert(upre[d as int]);
                                }
                                if d > e {
                                    assert(tpre.contains_key(d) && (e as int) < (d as int));
                                    assert(upre[e as int]);
                                }
                            }
                            assert forall|j: int| 0 <= j < cpre.len() implies #[trigger] cpre[j]
                                != e by {
                                assert(upre[cpre[j] as int]);
                            }
                        }
                        table.insert(e, (x, y));
                        assigned.push((x, y));
                        c[i] = e;
                        let _removed = c.remove(i + 1);
                        used[e as usize] = true;
                        proof {
                            let t2 = tpre.insert(e, (x, y));
                            let c2 = cpre.update(i as int, e).remove(i + 1);
                            assert(table@ == t2);
                            assert(c@ == c2);
                            assert(used@ == upre.update(e as int, true));
                            assert(assigned@ == apre.push((x, y)));
                            let front = cpre.take(i as int);
                            let back = cpre.skip(i + 2);
                            assert(cpre =~= front + seq![x, y] + back);
                            assert(c2 =~= front + seq![e] + back);
                            // Well-formedness of the grown table.
                            assert(table_wf(t2)) by {
                                assert forall|d: u8| #[trigger] t2.contains_key(d) implies (
                                t2.contains_key(t2[d].0) ==> t2[d].0 < d) && (t2.contains_key(
                                    t2[d].1,
                                ) ==> t2[d].1 < d) by {
                                    if d == e {
                                        if t2.contains_key(x) {
                                            assert(tpre.contains_key(x));
                                        }
                                        if t2.contains_key(y) {
                                            assert(tpre.contains_key(y));
                                        }
                                    } else {
                                        assert(tpre.contains_key(d) && t2[d] == tpre[d]);
                                        if t2.contains_key(t2[d].0) {
                                            assert(tpre.contains_key(tpre[d].0));
                                        }
                                        if t2.contains_key(t2[d].1) {
                                            assert(tpre.contains_key(tpre[d].1));
                                        }
                                    }
                                }
                            }
                            // Expansion of the rewritten buffer is unchanged.
                            lemma_expand_insert_seq(tpre, e, x, y, cpre);
                            lemma_expand_concat(t2, front + seq![x, y], back);
                            lemma_expand_concat(t2, front, seq![x, y]);
                            lemma_expand_concat(t2, front + seq![e], back);
                            lemma_expand_concat(t2, front, seq![e]);
                            lemma_expand_pair(t2, x, y);
                            lemma_expand_single(t2, e);
                            assert(t2.contains_key(e) && t2[e] == (x, y));
                            assert(expand_byte(t2, e) == expand_byte(t2, x) + expand_byte(t2, y));
                            assert(expand_seq(t2, c2) == expand_seq(t2, cpre));
                            assert(expand_seq(table@, c@) == data@);
                            // Slot bookkeeping still matches the table.
                            assert forall|b: int| 0 <= b < 256 implies (#[trigger] used@[b] <==> (
                            data@.contains(b as u8) || table@.contains_key(b as u8))) by {
                                if b != e as int {
                                    assert(used@[b] == upre[b]);
                                    assert(t2.contains_key(b as u8) == tpre.contains_key(b as u8));
                                }
                            }
                            assert forall|j: int| 0 <= j < c@.len() implies used@[#[trigger] c@[j]
                                as int] by {
                                assert(c@ == front + seq![e] + back);
                                if j < i as int {
                                    assert(c@[j] == cpre[j]);
                                    assert(upre[cpre[j] as int]);
                                } else if j == i as int {
                                    assert(c@[j] == e);
                                } else {
                                    assert(c@[j] == cpre[j + 1]);
                                    assert(upre[cpre[j + 1] as int]);
                                }
                            }
                            assert forall|d: u8| #[trigger] table@.contains_key(d) implies
                                !data@.contains(d) by {
                                if d != e {
                                    assert(tpre.contains_key(d));
                                }
                            }
                            assert forall|d: u8| #[trigger] table@.contains_key(d) implies used@[
                                table@[d].0 as int] && used@[table@[d].1 as int] by {
                                if d == e {
                                    assert(table@[d] == (x, y));
                                } else {
                                    assert(tpre.contains_key(d) && table@[d] == tpre[d]);
                                    assert(upre[tpre[d].0 as int] && upre[tpre[d].1 as int]);
                                }
                            }
                            assert forall|d: u8, b: int|
                                #![trigger table@.contains_key(d), used@[b]]
                                table@.contains_key(d) && 0 <= b < d implies used@[b] by {
                                if d == e {
                                    assert(upre[b]);
                                } else {
                                    assert(tpre.contains_key(d));
                                    assert(upre[b]);
                                }
                            }
                            // The assigned list mirrors the table values.
                            assert forall|p: (u8, u8)| #[trigger] assigned@.contains(p) implies (
                            exists|d: u8| table@.contains_key(d) && #[trigger] table@[d] == p) by {
                                let k = choose|k: int|
                                    0 <= k < assigned@.len() && assigned@[k] == p;
                                if k == apre.len() as int {
                                    assert(table@[e] == p);
                                } else {
                                    assert(apre[k] == p);
                                    assert(apre.contains(p));
                                    let d = choose|d: u8| tpre.contains_key(d) && tpre[d] == p;
                                    assert(d != e);
                                    assert(table@.contains_key(d) && table@[d] == p);
                                }
                            }
                            assert forall|p: (u8, u8)| (exists|d: u8|
                                table@.contains_key(d) && #[trigger] table@[d] == p) implies
                                assigned@.contains(p) by {
                                let d = choose|d: u8| table@.contains_key(d) && table@[d] == p;
                                if d == e {
                                    assert(assigned@[apre.len() as int] == p);
                                } else {
                                    assert(tpre.contains_key(d) && tpre[d] == p);
                                    assert(apre.contains(p));
                                    let k = choose|k: int| 0 <= k < apre.len() && apre[k] == p;
                                    assert(assigned@[k] == p);
                                }
                            }
                            // One slot fewer is free.
                            lemma_count_false_set_true(upre, e as int);
                            if found {
                                assert(count_false(upre) < count_false(used_start));
                            } else {
                                assert(upre == used_start);
                            }
                            assert(count_false(used@) < count_false(used_start));
                        }
                        proof {
                            assert(pair_count(c0, x, y) == pair_count_upto(
                                c0,
                                x,
                                y,
                                c0.len() as int,
                            ));
                            assert((pair_count(c0, x, y) as int) >= spec_threshold(max_freq));
                        }
                        found = true;
                    },
                }
            }
            proof {
                if !found {
                    assert(c@ == c0 && table@ == t0);
                    assert forall|j: int| 0 <= j < i + 1 && j + 1 < c0.len() implies ((
                    #[trigger] pair_count(c0, c0[j], c0[j + 1])) as int) < spec_threshold(max_freq)
                        || (exists|e: u8|
                        t0.contains_key(e) && (#[trigger] t0[e]) == (c0[j], c0[j + 1])) by {
                        if j == i as int {
                            assert(c0[j] == x && c0[j + 1] == y);
                            if qualified {
                                assert(already);
                                assert(assigned@.contains((x, y)));
                                let d = choose|d: u8|
                                    table@.contains_key(d) && table@[d] == (x, y);
                                assert(t0.contains_key(d) && t0[d] == (x, y));
                            } else {
                                assert(pair_count_upto(c0, x, y, m as int) == fv as int);
                                assert(pair_count(c0, x, y) == pair_count_upto(
                                    c0,
                                    x,
                                    y,
                                    c0.len() as int,
                                ));
                                assert((pair_count(c0, c0[j], c0[j + 1]) as int) < th);
                            }
                        }
                    }
                }
            }
            i = i + 1;
        }
        if slots_full {
            proof {
                if no_pair_frequent(data@, spec_threshold(max_freq)) {
                    let (a, b) = choose|a: u8, b: u8|
                        ((#[trigger] pair_count(c0, a, b)) as int) >= spec_threshold(max_freq);
                    assert((pair_count(data@, a, b) as int) < spec_threshold(max_freq));
                }
                if data@.len() < 2 {
                    assert(c0 == data@);
                }
            }
            return None;
        }
        if !found {
            proof {
                if no_pair_frequent(data@, spec_threshold(max_freq)) {
                    assert(c@ == c0 && table@ == t0);
                }
                if data@.len() < 2 {
                    assert(c@ == c0 && table@ == t0);
                }
            }
            break ;
        }
        proof {
            if no_pair_frequent(data@, spec_threshold(max_freq)) {
                let (a, b) = choose|a: u8, b: u8|
                    ((#[trigger] pair_count(c0, a, b)) as int) >= spec_threshold(max_freq);
                assert((pair_count(data@, a, b) as int) < spec_threshold(max_freq));
            }
            if data@.len() < 2 {
                assert(c0 == data@);
            }
        }
    }
    Some((c, table))
}

/// Reconstruct the original buffer from compressed data and the table that
/// `compress` produced: every table key expands, recursively, to the pair of
/// bytes that was assigned to it.  The precondition asks that an entry's
/// components, where they are themselves keys, be numerically smaller than
/// the key; `compress` assigns slots in increasing order, so every table it
/// returns has this shape, and it gives expansion a termination measure.
pub fn decompress(compressed_data: &[u8], table: &HashMap<u8, (u8, u8)>) -> (r: Vec<u8>)
    requires
        table_wf(table@),
    ensures
        r@ == expand_seq(table@, compressed_data@),
{
    let mut out: Vec<u8> = Vec::new();
    let n = compressed_data.len();
    let mut i: usize = 0;
    while i < n
        invariant
            table_wf(table@),
            n == compressed_data@.len(),
            0 <= i <= n,
            out@ == expand_seq(table@, compressed_data@.take(i as int)),
        decreases n - i,
    {
        let b = compressed_data[i];
        expand_one(table, b, &mut out);
        proof {
            let s = compressed_data@;
            assert(s.take(i + 1) =~= s.take(i as int) + seq![b]);
            lemma_expand_concat(table@, s.take(i as int), seq![b]);
            lemma_expand_single(table@, b);
        }
        i = i + 1;
    }
    proof {
        assert(compressed_data@.take(n as int) =~= compressed_data@);
    }
    out
}

} // verus!
