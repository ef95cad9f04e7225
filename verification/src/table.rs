use crate::rng::SplitMix64;
use vstd::prelude::*;

verus! {

/// Total weight that `entries` credits to the successor handle `h`.
pub open spec fn count_in(entries: Seq<(usize, u64)>, h: int) -> nat
    decreases entries.len(),
{
    if entries.len() == 0 {
        0
    } else {
        (if entries[0].0 == h {
            entries[0].1 as nat
        } else {
            0nat
        }) + count_in(entries.skip(1), h)
    }
}

/// Sum of all counts held by `entries`.
pub open spec fn total_of(entries: Seq<(usize, u64)>) -> nat
    decreases entries.len(),
{
    if entries.len() == 0 {
        0
    } else {
        entries[0].1 as nat + total_of(entries.skip(1))
    }
}

/// A well-formed row for an arena of `n` tokens: every successor handle is a
/// valid arena index, every retained count is positive, and each successor
/// appears at most once.
pub open spec fn row_wf(entries: Seq<(usize, u64)>, n: int) -> bool {
    &&& forall|i: int| 0 <= i < entries.len() ==> (#[trigger] entries[i]).0 < n && entries[i].1 >= 1
    &&& forall|i: int, j: int|
        0 <= i < j < entries.len() ==> (#[trigger] entries[i]).0 != (#[trigger] entries[j]).0
}

/// One more observation: counts grow by one until they would no longer fit
/// in their machine word, where they stay put.
pub open spec fn bump(c: nat) -> nat {
    if c < u64::MAX {
        c + 1
    } else {
        c
    }
}

pub proof fn lemma_count_concat(a: Seq<(usize, u64)>, b: Seq<(usize, u64)>, h: int)
    ensures
        count_in(a + b, h) == count_in(a, h) + count_in(b, h),
    decreases a.len(),
{
    if a.len() == 0 {
        assert(a + b =~= b);
    } else {
        assert((a + b).skip(1) =~= a.skip(1) + b);
        lemma_count_concat(a.skip(1), b, h);
    }
}

pub proof fn lemma_total_concat(a: Seq<(usize, u64)>, b: Seq<(usize, u64)>)
    ensures
        total_of(a + b) == total_of(a) + total_of(b),
    decreases a.len(),
{
    if a.len() == 0 {
        assert(a + b =~= b);
    } else {
        assert((a + b).skip(1) =~= a.skip(1) + b);
        lemma_total_concat(a.skip(1), b);
    }
}

/// Each count is part of the total.
pub proof fn lemma_count_le_total(entries: Seq<(usize, u64)>, h: int)
    ensures
        count_in(entries, h) <= total_of(entries),
    decreases entries.len(),
{
    if entries.len() > 0 {
        lemma_count_le_total(entries.skip(1), h);
    }
}

/// Splitting a row at index `j` splits the count of any handle into the
/// part before `j`, entry `j`'s own contribution, and the part after `j`.
pub proof fn lemma_count_split(es: Seq<(usize, u64)>, j: int, h: int)
    requires
        0 <= j < es.len(),
    ensures
        count_in(es, h) == count_in(es.take(j), h) + (if es[j].0 == h {
            es[j].1 as nat
        } else {
            0nat
        }) + count_in(es.skip(j + 1), h),
{
    let mid = seq![es[j]];
    let right = es.skip(j + 1);
    assert(es =~= es.take(j) + (mid + right));
    lemma_count_concat(es.take(j), mid + right, h);
    lemma_count_concat(mid, right, h);
    assert(mid.skip(1) =~= Seq::<(usize, u64)>::empty());
    assert(mid[0] == es[j]);
    assert(count_in(mid.skip(1), h) == 0);
}

/// The same split for the total weight.
pub proof fn lemma_total_split(es: Seq<(usize, u64)>, j: int)
    requires
        0 <= j < es.len(),
    ensures
        total_of(es) == total_of(es.take(j)) + es[j].1 + total_of(es.skip(j + 1)),
{
    let mid = seq![es[j]];
    let right = es.skip(j + 1);
    assert(es =~= es.take(j) + (mid + right));
    lemma_total_concat(es.take(j), mid + right);
    lemma_total_concat(mid, right);
    assert(mid.skip(1) =~= Seq::<(usize, u64)>::empty());
    assert(mid[0] == es[j]);
    assert(total_of(mid.skip(1)) == 0);
}

/// The entry at index `j` contributes all of its count to its successor.
pub proof fn lemma_count_at_index(entries: Seq<(usize, u64)>, j: int)
    requires
        0 <= j < entries.len(),
    ensures
        count_in(entries, entries[j].0 as int) >= entries[j].1,
{
    lemma_count_split(entries, j, entries[j].0 as int);
}

/// A handle that no entry names receives no count.
pub proof fn lemma_count_absent(entries: Seq<(usize, u64)>, h: int)
    requires
        forall|i: int| 0 <= i < entries.len() ==> (#[trigger] entries[i]).0 != h,
    ensures
        count_in(entries, h) == 0,
    decreases entries.len(),
{
    if entries.len() > 0 {
        lemma_count_absent(entries.skip(1), h);
    }
}

/// In a duplicate-free row, the entry naming `h` holds exactly its count.
pub proof fn lemma_count_exact(entries: Seq<(usize, u64)>, n: int, j: int)
    requires
        row_wf(entries, n),
        0 <= j < entries.len(),
    ensures
        count_in(entries, entries[j].0 as int) == entries[j].1,
{
    let h = entries[j].0 as int;
    lemma_count_split(entries, j, h);
    assert forall|i: int| 0 <= i < entries.take(j).len() implies (#[trigger] entries.take(
        j,
    )[i]).0 != h by {
        assert(entries.take(j)[i] == entries[i]);
        assert(entries[i].0 != entries[j].0);
    }
    lemma_count_absent(entries.take(j), h);
    assert forall|i: int| 0 <= i < entries.skip(j + 1).len() implies (#[trigger] entries.skip(
        j + 1,
    )[i]).0 != h by {
        assert(entries.skip(j + 1)[i] == entries[j + 1 + i]);
        assert(entries[j].0 != entries[j + 1 + i].0);
    }
    lemma_count_absent(entries.skip(j + 1), h);
}

/// In a duplicate-free row every count fits its machine word.
pub proof fn lemma_count_le_max(es: Seq<(usize, u64)>, n: int, h: int)
    requires
        row_wf(es, n),
    ensures
        count_in(es, h) <= u64::MAX,
{
    if exists|j: int| 0 <= j < es.len() && (#[trigger] es[j]).0 == h {
        let j = choose|j: int| 0 <= j < es.len() && (#[trigger] es[j]).0 == h;
        lemma_count_exact(es, n, j);
    } else {
        lemma_count_absent(es, h);
    }
}

/// A well-formed row has positive total weight exactly when it is nonempty.
pub proof fn lemma_total_pos(entries: Seq<(usize, u64)>, n: int)
    requires
        row_wf(entries, n),
    ensures
        total_of(entries) > 0 <==> entries.len() > 0,
{
    if entries.len() > 0 {
        lemma_count_at_index(entries, 0);
        lemma_count_le_total(entries, entries[0].0 as int);
    }
}

/// The total weight of a row fits comfortably below the range used for draws.
pub proof fn lemma_total_le_len_scaled(entries: Seq<(usize, u64)>)
    ensures
        total_of(entries) <= entries.len() * (u64::MAX as nat),
    decreases entries.len(),
{
    if entries.len() > 0 {
        lemma_total_le_len_scaled(entries.skip(1));
        assert(entries.len() * (u64::MAX as nat) == (entries.len() - 1) * (u64::MAX as nat)
            + u64::MAX) by (nonlinear_arith);
    }
}

pub proof fn lemma_total_fits(entries: Seq<(usize, u64)>)
    requires
        entries.len() <= usize::MAX,
    ensures
        total_of(entries) <= u128::MAX,
{
    lemma_total_le_len_scaled(entries);
    assert(entries.len() * (u64::MAX as nat) <= (usize::MAX as nat) * (u64::MAX as nat))
        by (nonlinear_arith)
        requires
            entries.len() <= usize::MAX,
    ;
}

/// The per-token weighted transition record: for one source token, the
/// occurrence count of every successor observed so far, keyed by arena
/// handle.
pub struct TransitionTable {
    entries: Vec<(usize, u64)>,
}

impl TransitionTable {
    /// The row's contents, for specifications.
    pub closed spec fn rows(self) -> Seq<(usize, u64)> {
        self.entries@
    }

    /// An empty row: no successor has been observed.
    pub fn new() -> (r: TransitionTable)
        ensures
            r.rows() =~= Seq::<(usize, u64)>::empty(),
    {
        TransitionTable { entries: Vec::new() }
    }

    /// Whether no successor has been observed.
    pub fn is_empty(&self) -> (r: bool)
        ensures
            r == (self.rows().len() == 0),
    {
        self.entries.len() == 0
    }

    /// Records one more observation of the successor `h`: its count grows by
    /// one (saturating at the machine-word limit), every other count stays.
    #[verifier::loop_isolation(false)]
    pub fn record(&mut self, h: usize, Ghost(n): Ghost<int>)
        requires
            row_wf(old(self).rows(), n),
            h < n,
        ensures
            row_wf(final(self).rows(), n),
            count_in(final(self).rows(), h as int) == bump(count_in(old(self).rows(), h as int)),
            forall|x: int|
                x != h as int ==> count_in(final(self).rows(), x) == count_in(
                    old(self).rows(),
                    x,
                ),
            total_of(final(self).rows()) >= total_of(old(self).rows()),
            total_of(final(self).rows()) > 0,
    {
        let ghost es = self.entries@;
        let mut j: usize = 0;
        while j < self.entries.len()
            invariant
                j <= es.len(),
                self.entries@ == es,
                row_wf(es, n),
                h < n,
                forall|i: int| 0 <= i < j ==> (#[trigger] es[i]).0 != h,
            decreases es.len() - j,
        {
            if self.entries[j].0 == h {
                let c = self.entries[j].1;
                let c2 = if c < u64::MAX {
                    c + 1
                } else {
                    c
                };
                self.entries[j] = (h, c2);
                proof {
                    let es2 = es.update(j as int, (es[j as int].0, c2));
                    assert(self.entries@ == es2);
                    lemma_row_update(es, n, j as int, c2);
                    lemma_count_exact(es, n, j as int);
                    lemma_count_le_total(es2, h as int);
                    assert(count_in(es2, h as int) == bump(count_in(es, h as int)));
                    assert(forall|x: int|
                        x != h as int ==> count_in(es2, x) == count_in(es, x));
                }
                return ;
            }
            j = j + 1;
        }
        self.entries.push((h, 1));
        proof {
            let es2 = self.entries@;
            assert(es2 =~= es + seq![(h, 1u64)]);
            lemma_count_concat(es, seq![(h, 1u64)], h as int);
            lemma_count_absent(es, h as int);
            assert(count_in(seq![(h, 1u64)], h as int) == 1 + count_in(
                seq![(h, 1u64)].skip(1),
                h as int,
            ));
            assert(seq![(h, 1u64)].skip(1) =~= Seq::<(usize, u64)>::empty());
            assert forall|x: int| x != h as int implies count_in(es2, x) == count_in(es, x) by {
                lemma_count_concat(es, seq![(h, 1u64)], x);
                lemma_count_absent(seq![(h, 1u64)], x);
            }
            lemma_total_concat(es, seq![(h, 1u64)]);
            assert(total_of(seq![(h, 1u64)]) == 1 + total_of(seq![(h, 1u64)].skip(1)));
        }
    }

    /// Weighted choice among the observed successors: draws below the total
    /// weight and walks the entries accumulating counts until the draw falls
    /// inside an entry's interval, so each successor is returned with
    /// probability proportional to its count.
    ///
    /// A row with zero total weight admits no choice, so callers must never
    /// sample one; the chain only samples rows reached through at least one
    /// recorded transition, which are never empty.
    pub fn sample(&self, rng: &mut SplitMix64, Ghost(n): Ghost<int>) -> (r: usize)
        requires
            row_wf(self.rows(), n),
            total_of(self.rows()) > 0,
        ensures
            count_in(self.rows(), r as int) > 0,
            r < n,
    {
        let ghost es = self.entries@;
        let ne = self.entries.len();
        proof {
            assert(es.len() == ne);
            lemma_total_fits(es);
        }
        let mut total: u128 = 0;
        let mut j: usize = 0;
        while j < self.entries.len()
            invariant
                j <= es.len(),
                self.entries@ == es,
                total == total_of(es.take(j as int)),
                total_of(es) <= u128::MAX,
            decreases es.len() - j,
        {
            proof {
                lemma_take_step_total(es, j as int);
                lemma_total_prefix(es, j + 1);
            }
            total = total + self.entries[j].1 as u128;
            j = j + 1;
        }
        proof {
            assert(es.take(es.len() as int) =~= es);
        }
        let d = rng.next_below(total);
        let mut cum: u128 = 0;
        let mut k: usize = 0;
        while k < self.entries.len()
            invariant
                k <= es.len(),
                self.entries@ == es,
                row_wf(es, n),
                cum == total_of(es.take(k as int)),
                d >= cum,
                d < total_of(es),
                total_of(es) <= u128::MAX,
            decreases es.len() - k,
        {
            proof {
                lemma_take_step_total(es, k as int);
                lemma_total_prefix(es, k + 1);
            }
            let c = self.entries[k].1;
            if d < cum + c as u128 {
                proof {
                    lemma_count_at_index(es, k as int);
                }
                return self.entries[k].0;
            }
            cum = cum + c as u128;
            k = k + 1;
        }
        proof {
            assert(es.take(es.len() as int) =~= es);
            assert(false);
        }
        0
    }
}

/// One prefix step: the total of `take(j + 1)` adds entry `j` to the total of
/// `take(j)`.
pub proof fn lemma_take_step_total(entries: Seq<(usize, u64)>, j: int)
    requires
        0 <= j < entries.len(),
    ensures
        total_of(entries.take(j + 1)) == total_of(entries.take(j)) + entries[j].1,
{
    assert(entries.take(j + 1) =~= entries.take(j) + seq![entries[j]]);
    lemma_total_concat(entries.take(j), seq![entries[j]]);
    assert(total_of(seq![entries[j]]) == entries[j].1 + total_of(seq![entries[j]].skip(1)));
    assert(seq![entries[j]].skip(1) =~= Seq::<(usize, u64)>::empty());
}

/// A prefix never holds more weight than the whole row.
pub proof fn lemma_total_prefix(entries: Seq<(usize, u64)>, j: int)
    requires
        0 <= j <= entries.len(),
    ensures
        total_of(entries.take(j)) <= total_of(entries),
{
    assert(entries =~= entries.take(j) + entries.skip(j));
    lemma_total_concat(entries.take(j), entries.skip(j));
}

/// Updating entry `j` to carry count `c2` moves that entry's successor count
/// from its old to its new value and keeps every other count.
proof fn lemma_row_update(es: Seq<(usize, u64)>, n: int, j: int, c2: u64)
    requires
        row_wf(es, n),
        0 <= j < es.len(),
        c2 >= 1,
    ensures
        row_wf(es.update(j, (es[j].0, c2)), n),
        count_in(es.update(j, (es[j].0, c2)), es[j].0 as int) == count_in(es, es[j].0 as int)
            - es[j].1 + c2,
        forall|x: int|
            x != es[j].0 as int ==> count_in(es.update(j, (es[j].0, c2)), x) == count_in(es, x),
        total_of(es.update(j, (es[j].0, c2))) == total_of(es) - es[j].1 + c2,
{
    let es2 = es.update(j, (es[j].0, c2));
    assert(es2.take(j) =~= es.take(j));
    assert(es2.skip(j + 1) =~= es.skip(j + 1));
    assert(es2[j] == (es[j].0, c2));
    assert forall|x: int| true implies count_in(es2, x) == count_in(es, x) - (if es[j].0 == x {
        es[j].1 as nat
    } else {
        0nat
    }) + (if es[j].0 == x {
        c2 as nat
    } else {
        0nat
    }) by {
        lemma_count_split(es, j, x);
        lemma_count_split(es2, j, x);
    }
    lemma_total_split(es, j);
    lemma_total_split(es2, j);
}

} // verus!
