//! The merge table and the greedy merge loop.
//!
//! A rule fuses the adjacent symbol pair `(left, right)` into `merged`;
//! its rank is its position in the table, and a lower rank is applied
//! first.  One round of the loop picks, among the adjacent pairs of the
//! word that some rule covers, the pair of lowest rank — leftmost on a
//! tie — and replaces it by the rule's merged symbol; the loop stops
//! when no rule applies ([`merge_all`]).  When the table agrees with a
//! vocabulary ([`merges_wf`]) and no continuing-subword prefix rewrites
//! merged tokens, a merge never changes what the word decodes back to
//! ([`lemma_merge_step_decode`]) — which also bounds what the dropout
//! variant of the loop can produce.

use vstd::prelude::*;
use crate::errors::BpeError;
use crate::vocab::lookup_id;
use crate::vocab::spec_decode;

verus! {

/// One merge rule, with symbols resolved to vocabulary ids.
#[derive(Clone, Copy, Debug, PartialEq, Eq, Structural)]
pub struct MergeEntry {
    pub left: u32,
    pub right: u32,
    pub merged: u32,
}

/// Rank and merged id of the first rule at or after `k` that fuses
/// `(a, b)`.
pub open spec fn lookup_merge_from(ms: Seq<MergeEntry>, a: u32, b: u32, k: int) -> Option<
    (int, u32),
>
    decreases ms.len() - k,
{
    if k < 0 || k >= ms.len() {
        None
    } else if ms[k].left == a && ms[k].right == b {
        Some((k, ms[k].merged))
    } else {
        lookup_merge_from(ms, a, b, k + 1)
    }
}

/// Rank and merged id of the lowest-rank rule that fuses `(a, b)`.
pub open spec fn lookup_merge(ms: Seq<MergeEntry>, a: u32, b: u32) -> Option<(int, u32)> {
    lookup_merge_from(ms, a, b, 0)
}

/// A successful rule lookup names an actual table entry of that rank.
pub proof fn lemma_lookup_merge_mem(ms: Seq<MergeEntry>, a: u32, b: u32)
    requires
        lookup_merge(ms, a, b) is Some,
    ensures
        ({
            let (r, m) = lookup_merge(ms, a, b)->Some_0;
            0 <= r < ms.len() && ms[r] == (MergeEntry { left: a, right: b, merged: m })
        }),
{
    lemma_lookup_merge_from_mem(ms, a, b, 0);
}

proof fn lemma_lookup_merge_from_mem(ms: Seq<MergeEntry>, a: u32, b: u32, k: int)
    requires
        0 <= k,
        lookup_merge_from(ms, a, b, k) is Some,
    ensures
        ({
            let (r, m) = lookup_merge_from(ms, a, b, k)->Some_0;
            k <= r < ms.len() && ms[r] == (MergeEntry { left: a, right: b, merged: m })
        }),
    decreases ms.len() - k,
{
    if !(k >= ms.len()) && !(ms[k].left == a && ms[k].right == b) {
        lemma_lookup_merge_from_mem(ms, a, b, k + 1);
    }
}

/// Lowest-rank applicable pair of the word at or after position `i`:
/// position, rank and merged id, the leftmost position on a rank tie.
pub open spec fn best_from(ms: Seq<MergeEntry>, w: Seq<u32>, i: int) -> Option<(int, int, u32)>
    decreases w.len() - i,
{
    if i < 0 || i + 1 >= w.len() {
        None
    } else {
        let rest = best_from(ms, w, i + 1);
        match lookup_merge(ms, w[i], w[i + 1]) {
            None => rest,
            Some((r, m)) => match rest {
                None => Some((i, r, m)),
                Some((j, r2, m2)) => if r <= r2 {
                    Some((i, r, m))
                } else {
                    Some((j, r2, m2))
                },
            },
        }
    }
}

/// Lowest-rank applicable pair of the whole word.
pub open spec fn best_pair(ms: Seq<MergeEntry>, w: Seq<u32>) -> Option<(int, int, u32)> {
    best_from(ms, w, 0)
}

proof fn lemma_best_from_props(ms: Seq<MergeEntry>, w: Seq<u32>, i: int)
    requires
        0 <= i,
    ensures
        match best_from(ms, w, i) {
            None => forall|j: int|
                i <= j && j + 1 < w.len() ==> (#[trigger] lookup_merge(ms, w[j], w[j + 1]))
                    is None,
            Some((pos, r, m)) => i <= pos && pos + 1 < w.len() && lookup_merge(
                ms,
                w[pos],
                w[pos + 1],
            ) == Some((r, m)) && (forall|j: int|
                i <= j && j + 1 < w.len() && (#[trigger] lookup_merge(ms, w[j], w[j + 1])) is Some
                    ==> r <= lookup_merge(ms, w[j], w[j + 1])->Some_0.0) && (forall|j: int|
                i <= j < pos && (#[trigger] lookup_merge(ms, w[j], w[j + 1])) is Some
                    ==> lookup_merge(ms, w[j], w[j + 1])->Some_0.0 > r),
        },
    decreases w.len() - i,
{
    if i + 1 < w.len() {
        lemma_best_from_props(ms, w, i + 1);
    }
}

/// Rank monotonicity of the merge loop's selection: a selected pair is
/// applicable, carries the lowest rank among all currently applicable
/// adjacent pairs, and is the leftmost pair of that rank; and when no
/// pair is selected, no rule applies anywhere in the word.
pub proof fn lemma_best_pair_minimal(ms: Seq<MergeEntry>, w: Seq<u32>)
    ensures
        match best_pair(ms, w) {
            None => forall|j: int|
                0 <= j && j + 1 < w.len() ==> (#[trigger] lookup_merge(ms, w[j], w[j + 1]))
                    is None,
            Some((pos, r, m)) => 0 <= pos && pos + 1 < w.len() && lookup_merge(
                ms,
                w[pos],
                w[pos + 1],
            ) == Some((r, m)) && (forall|j: int|
                0 <= j && j + 1 < w.len() && (#[trigger] lookup_merge(ms, w[j], w[j + 1])) is Some
                    ==> r <= lookup_merge(ms, w[j], w[j + 1])->Some_0.0) && (forall|j: int|
                0 <= j < pos && (#[trigger] lookup_merge(ms, w[j], w[j + 1])) is Some
                    ==> lookup_merge(ms, w[j], w[j + 1])->Some_0.0 > r),
        },
{
    lemma_best_from_props(ms, w, 0);
}

/// The word after fusing the pair at `pos` into `m`.
pub open spec fn apply_merge_spec(w: Seq<u32>, pos: int, m: u32) -> Seq<u32>
    recommends
        0 <= pos,
        pos + 2 <= w.len(),
{
    w.subrange(0, pos) + seq![m] + w.subrange(pos + 2, w.len() as int)
}

/// The fixed point of the merge loop: applies the best pair until no
/// rule applies.
pub open spec fn merge_all(ms: Seq<MergeEntry>, w: Seq<u32>) -> Seq<u32>
    decreases w.len(),
{
    match best_pair(ms, w) {
        None => w,
        Some((pos, r, m)) => if 0 <= pos && pos + 2 <= w.len() {
            merge_all(ms, apply_merge_spec(w, pos, m))
        } else {
            w
        },
    }
}

/// Rank and merged id of the lowest-rank rule fusing `(a, b)`.
pub fn find_merge(merges: &Vec<MergeEntry>, a: u32, b: u32) -> (r: Option<(usize, u32)>)
    ensures
        match r {
            None => lookup_merge(merges@, a, b) is None,
            Some((rank, m)) => lookup_merge(merges@, a, b) == Some((rank as int, m)),
        },
{
    let ghost ms = merges@;
    let mut k: usize = 0;
    while k < merges.len()
        invariant
            merges@ == ms,
            0 <= k <= ms.len(),
            lookup_merge_from(ms, a, b, k as int) == lookup_merge(ms, a, b),
        decreases ms.len() - k,
    {
        let e = merges[k];
        if e.left == a && e.right == b {
            return Some((k, e.merged));
        }
        k += 1;
    }
    None
}

/// Position, rank and merged id of the best pair of `w`, as
/// [`best_pair`] selects it.
pub fn find_best_pair(merges: &Vec<MergeEntry>, w: &Vec<u32>) -> (r: Option<(usize, usize, u32)>)
    ensures
        match r {
            None => best_pair(merges@, w@) is None,
            Some((pos, rank, m)) => best_pair(merges@, w@) == Some((pos as int, rank as int, m)),
        },
{
    let ghost ms = merges@;
    if w.len() < 2 {
        return None;
    }
    let mut best: Option<(usize, usize, u32)> = None;
    let mut i: usize = w.len() - 1;
    while i > 0
        invariant
            merges@ == ms,
            w@.len() >= 2,
            0 <= i <= w@.len() - 1,
            match best {
                None => best_from(ms, w@, i as int) is None,
                Some((pos, rank, m)) => best_from(ms, w@, i as int) == Some(
                    (pos as int, rank as int, m),
                ),
            },
        decreases i,
    {
        i -= 1;
        match find_merge(merges, w[i], w[i + 1]) {
            None => {},
            Some((rank, m)) => {
                let replace = match best {
                    None => true,
                    Some((_, best_rank, _)) => rank <= best_rank,
                };
                if replace {
                    best = Some((i, rank, m));
                }
            },
        }
    }
    best
}

/// Fuses the pair at `pos` into `m`.
fn apply_merge(w: &mut Vec<u32>, pos: usize, m: u32)
    requires
        pos + 2 <= old(w).len(),
    ensures
        final (w)@ == apply_merge_spec(old(w)@, pos as int, m),
{
    w.set(pos, m);
    w.remove(pos + 1);
    proof {
        assert(w@ =~= apply_merge_spec(old(w)@, pos as int, m));
    }
}

/// Runs the merge loop to its fixed point, in place.
pub fn merge_word(merges: &Vec<MergeEntry>, w: &mut Vec<u32>)
    ensures
        final (w)@ == merge_all(merges@, old(w)@),
{
    let ghost ms = merges@;
    let ghost w0 = w@;
    let mut done = false;
    while !done
        invariant
            merges@ == ms,
            merge_all(ms, w@) == merge_all(ms, w0),
            done ==> best_pair(ms, w@) is None,
        decreases w@.len(), (if done {
            0int
        } else {
            1int
        }),
    {
        match find_best_pair(merges, w) {
            None => {
                done = true;
            },
            Some((pos, rank, m)) => {
                proof {
                    lemma_best_pair_minimal(ms, w@);
                }
                apply_merge(w, pos, m);
            },
        }
    }
}

/// The merge loop runs to completion: no rule applies anywhere in
/// its result, so it never stops while an applicable pair — of any
/// rank — is left.
pub proof fn lemma_merge_all_no_rule_left(ms: Seq<MergeEntry>, w: Seq<u32>)
    ensures
        best_pair(ms, merge_all(ms, w)) is None,
    decreases w.len(),
{
    match best_pair(ms, w) {
        None => {},
        Some((pos, r, m)) => {
            lemma_best_pair_minimal(ms, w);
            lemma_merge_all_no_rule_left(ms, apply_merge_spec(w, pos, m));
        },
    }
}

/// `t` with the leading `p` removed, when `t` starts with `p`.
pub open spec fn strip_prefix(p: Seq<char>, t: Seq<char>) -> Seq<char> {
    if p.len() <= t.len() && t.take(p.len() as int) == p {
        t.skip(p.len() as int)
    } else {
        t
    }
}

/// The merge table agrees with the vocabulary: every rule's three ids
/// are vocabulary entries, and the merged token spells the left token
/// followed by the right token with the continuing-subword prefix
/// stripped.
pub open spec fn merges_wf(v: Seq<(String, u32)>, prefix: Seq<char>, ms: Seq<MergeEntry>) -> bool {
    forall|k: int|
        0 <= k < ms.len() ==> {
            let e = #[trigger] ms[k];
            lookup_id(v, e.left) is Some && lookup_id(v, e.right) is Some && lookup_id(v, e.merged)
                == Some(lookup_id(v, e.left)->Some_0 + strip_prefix(
                prefix,
                lookup_id(v, e.right)->Some_0,
            ))
        }
}

/// Decoding succeeds when every id is a vocabulary id.
pub(crate) proof fn lemma_decode_all_ok(v: Seq<(String, u32)>, ids: Seq<u32>)
    requires
        forall|i: int| 0 <= i < ids.len() ==> lookup_id(v, #[trigger] ids[i]) is Some,
    ensures
        spec_decode(v, ids) is Ok,
    decreases ids.len(),
{
    if ids.len() > 0 {
        assert(lookup_id(v, ids[0]) is Some);
        assert forall|i: int| 0 <= i < ids.drop_first().len() implies lookup_id(
            v,
            #[trigger] ids.drop_first()[i],
        ) is Some by {
            assert(ids.drop_first()[i] == ids[i + 1]);
        }
        lemma_decode_all_ok(v, ids.drop_first());
    }
}

/// Decoding distributes over concatenation when both halves decode.
pub(crate) proof fn lemma_decode_append(v: Seq<(String, u32)>, s1: Seq<u32>, s2: Seq<u32>)
    requires
        spec_decode(v, s1) is Ok,
        spec_decode(v, s2) is Ok,
    ensures
        spec_decode(v, s1 + s2) == Ok::<Seq<char>, BpeError>(
            spec_decode(v, s1)->Ok_0 + spec_decode(v, s2)->Ok_0,
        ),
    decreases s1.len(),
{
    if s1.len() == 0 {
        assert(s1 + s2 =~= s2);
        assert(spec_decode(v, s1)->Ok_0 + spec_decode(v, s2)->Ok_0 =~= spec_decode(v, s2)->Ok_0);
    } else {
        assert((s1 + s2)[0] == s1[0]);
        assert((s1 + s2).len() > 0);
        assert((s1 + s2).drop_first() =~= s1.drop_first() + s2);
        lemma_decode_append(v, s1.drop_first(), s2);
        let t = lookup_id(v, s1[0])->Some_0;
        let d1 = spec_decode(v, s1.drop_first())->Ok_0;
        let d2 = spec_decode(v, s2)->Ok_0;
        assert(t + (d1 + d2) =~= (t + d1) + d2);
    }
}

/// The empty prefix strips nothing.
pub(crate) proof fn lemma_strip_prefix_empty(t: Seq<char>)
    ensures
        strip_prefix(Seq::<char>::empty(), t) == t,
{
    assert(t.take(0) =~= Seq::<char>::empty());
    assert(t.skip(0) =~= t);
}

/// One merge with no continuing-subword prefix configured keeps the
/// decoded text: the merged token spells the two it replaces.
pub(crate) proof fn lemma_merge_step_decode(
    v: Seq<(String, u32)>,
    ms: Seq<MergeEntry>,
    w: Seq<u32>,
    pos: int,
    r: int,
    m: u32,
)
    requires
        merges_wf(v, Seq::<char>::empty(), ms),
        lookup_merge(ms, w[pos], w[pos + 1]) == Some((r, m)),
        0 <= pos,
        pos + 2 <= w.len(),
        forall|i: int| 0 <= i < w.len() ==> lookup_id(v, #[trigger] w[i]) is Some,
    ensures
        forall|i: int|
            0 <= i < apply_merge_spec(w, pos, m).len() ==> lookup_id(
                v,
                #[trigger] apply_merge_spec(w, pos, m)[i],
            ) is Some,
        spec_decode(v, apply_merge_spec(w, pos, m)) == spec_decode(v, w),
{
    lemma_lookup_merge_mem(ms, w[pos], w[pos + 1]);
    let e = ms[r];
    let a = w[pos];
    let b = w[pos + 1];
    let ta = lookup_id(v, a)->Some_0;
    let tb = lookup_id(v, b)->Some_0;
    lemma_strip_prefix_empty(tb);
    assert(lookup_id(v, m) == Some(ta + tb));
    let fore = w.subrange(0, pos);
    let aft = w.subrange(pos + 2, w.len() as int);
    let w2 = apply_merge_spec(w, pos, m);
    assert forall|i: int| 0 <= i < w2.len() implies lookup_id(v, #[trigger] w2[i]) is Some by {
        if i < pos {
            assert(w2[i] == w[i]);
        } else if i == pos {
            assert(w2[i] == m);
        } else {
            assert(w2[i] == w[i + 1]);
        }
    }
    assert forall|i: int| 0 <= i < fore.len() implies lookup_id(v, #[trigger] fore[i]) is Some by {
        assert(fore[i] == w[i]);
    }
    assert forall|i: int| 0 <= i < aft.len() implies lookup_id(v, #[trigger] aft[i]) is Some by {
        assert(aft[i] == w[i + pos + 2]);
    }
    lemma_decode_all_ok(v, fore);
    lemma_decode_all_ok(v, aft);
    let pair = seq![a] + (seq![b] + aft);
    assert(lookup_id(v, w[pos]) is Some);
    assert(lookup_id(v, w[pos + 1]) is Some);
    assert(seq![b][0] == b);
    assert(seq![b].drop_first() =~= Seq::<u32>::empty());
    assert(spec_decode(v, Seq::<u32>::empty()) == Ok::<Seq<char>, BpeError>(Seq::<char>::empty()));
    assert(spec_decode(v, seq![b]) == Ok::<Seq<char>, BpeError>(tb + Seq::<char>::empty()));
    lemma_decode_append(v, seq![b], aft);
    assert((seq![b] + aft).drop_first() =~= aft);
    assert(seq![a] + (seq![b] + aft) =~= (seq![a] + seq![b]) + aft);
    let da = spec_decode(v, aft)->Ok_0;
    assert(spec_decode(v, seq![b] + aft) == Ok::<Seq<char>, BpeError>((tb + Seq::<char>::empty())
        + da));
    assert(pair.drop_first() =~= seq![b] + aft);
    assert(pair[0] == a);
    assert(spec_decode(v, pair) == Ok::<Seq<char>, BpeError>(ta + ((tb + Seq::<char>::empty())
        + da)));
    assert(w =~= fore + pair);
    lemma_decode_append(v, fore, pair);
    let one = seq![m] + aft;
    assert(one[0] == m);
    assert(one.drop_first() =~= aft);
    assert(spec_decode(v, one) == Ok::<Seq<char>, BpeError>((ta + tb) + da));
    assert(w2 =~= fore + one);
    lemma_decode_append(v, fore, one);
    let df = spec_decode(v, fore)->Ok_0;
    assert(df + (ta + ((tb + Seq::<char>::empty()) + da)) =~= df + ((ta + tb) + da));
}

/// Number of unmasked positions.
pub open spec fn count_false(s: Seq<bool>) -> nat
    decreases s.len(),
{
    if s.len() == 0 {
        0
    } else {
        (if s[0] {
            0nat
        } else {
            1nat
        }) + count_false(s.drop_first())
    }
}

proof fn lemma_count_false_update(s: Seq<bool>, i: int)
    requires
        0 <= i < s.len(),
        !s[i],
    ensures
        count_false(s.update(i, true)) < count_false(s),
    decreases s.len(),
{
    let su = s.update(i, true);
    if i == 0 {
        assert(su.drop_first() =~= s.drop_first());
    } else {
        assert(su[0] == s[0]);
        assert(su.drop_first() =~= s.drop_first().update(i - 1, true));
        lemma_count_false_update(s.drop_first(), i - 1);
    }
}

fn make_mask(n: usize) -> (r: Vec<bool>)
    ensures
        r@.len() == n,
        forall|i: int| 0 <= i < n ==> !r@[i],
{
    let mut m: Vec<bool> = Vec::new();
    let mut i: usize = 0;
    while i < n
        invariant
            0 <= i <= n,
            m@.len() == i,
            forall|k: int| 0 <= k < i ==> !m@[k],
        decreases n - i,
    {
        m.push(false);
        i += 1;
    }
    m
}

/// The unmasked applicable pair of lowest rank, if one is left.
fn find_best_pair_masked(merges: &Vec<MergeEntry>, w: &Vec<u32>, mask: &Vec<bool>) -> (r: Option<
    (usize, usize, u32),
>)
    requires
        mask@.len() == w@.len(),
    ensures
        match r {
            None => forall|j: int|
                0 <= j && j + 1 < w@.len() && !mask@[j] ==> (#[trigger] lookup_merge(
                    merges@,
                    w@[j],
                    w@[j + 1],
                )) is None,
            Some((pos, rank, m)) => pos + 1 < w@.len() && !mask@[pos as int] && lookup_merge(
                merges@,
                w@[pos as int],
                w@[pos as int + 1],
            ) == Some((rank as int, m)) && (forall|j: int|
                0 <= j && j + 1 < w@.len() && !mask@[j] && (#[trigger] lookup_merge(
                    merges@,
                    w@[j],
                    w@[j + 1],
                )) is Some ==> rank <= lookup_merge(merges@, w@[j], w@[j + 1])->Some_0.0),
        },
{
    let ghost ms = merges@;
    let mut best: Option<(usize, usize, u32)> = None;
    let mut i: usize = 0;
    if w.len() < 1 {
        return None;
    }
    while i < w.len() - 1
        invariant
            merges@ == ms,
            mask@.len() == w@.len(),
            w@.len() >= 1,
            0 <= i <= w@.len(),
            match best {
                None => forall|j: int|
                    0 <= j < i && j + 1 < w@.len() && !mask@[j] ==> (#[trigger] lookup_merge(
                        ms,
                        w@[j],
                        w@[j + 1],
                    )) is None,
                Some((pos, rank, m)) => pos + 1 < w@.len() && pos < i && !mask@[pos as int]
                    && lookup_merge(ms, w@[pos as int], w@[pos as int + 1]) == Some(
                    (rank as int, m),
                ) && (forall|j: int|
                    0 <= j < i && j + 1 < w@.len() && !mask@[j] && (#[trigger] lookup_merge(
                        ms,
                        w@[j],
                        w@[j + 1],
                    )) is Some ==> rank <= lookup_merge(ms, w@[j], w@[j + 1])->Some_0.0),
            },
        decreases w@.len() - i,
    {
        if !mask[i] {
            match find_merge(merges, w[i], w[i + 1]) {
                None => {},
                Some((rank, m)) => {
                    let replace = match best {
                        None => true,
                        Some((_, best_rank, _)) => rank < best_rank,
                    };
                    if replace {
                        best = Some((i, rank, m));
                    }
                },
            }
        }
        i += 1;
    }
    best
}

/// One merge round with dropout: while candidates are left, the best
/// unmasked pair is chosen and then, with the coin's weight, either
/// skipped (masked for this round) or applied, which starts a fresh
/// round.  The loop stops when every applicable pair of the round is
/// masked or no rule applies.  Whatever the coin does, every symbol
/// that comes out is a symbol that went in or the merged id of some
/// rule.
pub(crate) fn merge_word_dropout(
    merges: &Vec<MergeEntry>,
    w: &mut Vec<u32>,
    rng: &mut crate::prng::XorShift,
    threshold: u32,
    Ghost(v): Ghost<Seq<(String, u32)>>,
)
    ensures
        forall|i: int|
            0 <= i < final (w)@.len() ==> old(w)@.contains(#[trigger] final (w)@[i]) || exists|
                k: int,
            |
                0 <= k < merges@.len() && merges@[k].merged == final (w)@[i],
        (merges_wf(v, Seq::<char>::empty(), merges@) && (forall|i: int|
            0 <= i < old(w)@.len() ==> lookup_id(v, #[trigger] old(w)@[i]) is Some)) ==> (
        spec_decode(v, final (w)@) == spec_decode(v, old(w)@) && (forall|i: int|
            0 <= i < final (w)@.len() ==> lookup_id(v, #[trigger] final (w)@[i]) is Some)),
{
    let ghost ms = merges@;
    let ghost w0 = w@;
    let mut mask = make_mask(w.len());
    let mut done = false;
    while !done
        invariant
            merges@ == ms,
            w0 == old(w)@,
            mask@.len() == w@.len(),
            forall|i: int|
                0 <= i < w@.len() ==> w0.contains(#[trigger] w@[i]) || exists|k: int|
                    0 <= k < ms.len() && ms[k].merged == w@[i],
            (merges_wf(v, Seq::<char>::empty(), ms) && (forall|i: int|
                0 <= i < w0.len() ==> lookup_id(v, #[trigger] w0[i]) is Some)) ==> (spec_decode(
                v,
                w@,
            ) == spec_decode(v, w0) && (forall|i: int|
                0 <= i < w@.len() ==> lookup_id(v, #[trigger] w@[i]) is Some)),
        decreases w@.len(), count_false(mask@), (if done {
            0int
        } else {
            1int
        }),
    {
        match find_best_pair_masked(merges, w, &mask) {
            None => {
                done = true;
            },
            Some((pos, rank, m)) => {
                if rng.coin(threshold) {
                    proof {
                        lemma_count_false_update(mask@, pos as int);
                    }
                    mask.set(pos, true);
                } else {
                    proof {
                        lemma_lookup_merge_mem(ms, w@[pos as int], w@[pos as int + 1]);
                    }
                    let ghost wprev = w@;
                    proof {
                        if merges_wf(v, Seq::<char>::empty(), ms) && (forall|i: int|
                            0 <= i < w0.len() ==> lookup_id(v, #[trigger] w0[i]) is Some) {
                            lemma_merge_step_decode(v, ms, wprev, pos as int, rank as int, m);
                        }
                    }
                    apply_merge(w, pos, m);
                    proof {
                        assert forall|i: int| 0 <= i < w@.len() implies w0.contains(
                            #[trigger] w@[i],
                        ) || exists|k: int| 0 <= k < ms.len() && ms[k].merged == w@[i] by {
                            if i < pos {
                                assert(w@[i] == wprev[i]);
                            } else if i == pos {
                                assert(w@[i] == m);
                            } else {
                                assert(w@[i] == wprev[i + 1]);
                            }
                        }
                    }
                    let n = w.len();
                    mask = make_mask(n);
                }
            },
        }
    }
}

} // verus!
