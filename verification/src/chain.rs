use crate::rng::SplitMix64;
use crate::table::TransitionTable;
use crate::table::{bump, count_in, lemma_count_absent, lemma_count_at_index,
    lemma_count_le_total, lemma_total_pos, row_wf, total_of};
use crate::token::Token;
use vstd::prelude::*;

verus! {

/// The error a chain reports to its caller.
#[derive(Clone, Copy, Debug, PartialEq, Eq, Structural)]
pub enum ChainError {
    /// A generation was asked to start from a token the chain has never seen.
    TokenNotFound,
}

/// Number of times the adjacent pair `(a, b)` occurs in `s`.
pub open spec fn pair_count<V>(s: Seq<V>, a: V, b: V) -> nat
    decreases s.len(),
{
    if s.len() < 2 {
        0
    } else {
        (if s[0] == a && s[1] == b {
            1nat
        } else {
            0nat
        }) + pair_count(s.skip(1), a, b)
    }
}

/// `k` observations added to a count of `c`, each saturating at the
/// machine-word limit.
pub open spec fn cap_add(c: nat, k: nat) -> nat {
    if c + k <= u64::MAX {
        c + k
    } else {
        u64::MAX as nat
    }
}

/// A first-order Markov chain: an arena of interned tokens, a transition
/// table per token, and the two sentinel handles.
///
/// Each distinct token value is stored once; everything else refers to it by
/// its arena index (its handle).
pub struct Chain<T: Token> {
    tokens: Vec<T>,
    table: Vec<TransitionTable>,
    start_h: usize,
    end_h: usize,
}

impl<T: Token> Chain<T> {
    /// The values interned so far, in arena order.
    pub closed spec fn toks(self) -> Seq<T::V> {
        self.tokens.deep_view()
    }

    /// Whether `v` is a token the chain has seen.
    pub open spec fn has_token(self, v: T::V) -> bool {
        self.toks().contains(v)
    }

    /// The arena handle of a seen token value.
    pub closed spec fn hidx(self, v: T::V) -> int {
        choose|i: int| 0 <= i < self.toks().len() && self.toks()[i] == v
    }

    /// The start sentinel's value.
    pub closed spec fn start_token(self) -> T::V {
        self.toks()[self.start_h as int]
    }

    /// The end sentinel's value.
    pub closed spec fn end_token(self) -> T::V {
        self.toks()[self.end_h as int]
    }

    /// The transition row of arena index `i`.
    pub closed spec fn row(self, i: int) -> Seq<(usize, u64)> {
        self.table@[i].rows()
    }

    /// How often the transition from `a` to `b` has been observed.
    pub closed spec fn trans_count(self, a: T::V, b: T::V) -> nat {
        if self.has_token(a) && self.has_token(b) {
            count_in(self.row(self.hidx(a)), self.hidx(b))
        } else {
            0
        }
    }

    /// Total weight of all transitions leaving `a`.
    pub closed spec fn succ_total(self, a: T::V) -> nat {
        if self.has_token(a) {
            total_of(self.row(self.hidx(a)))
        } else {
            0
        }
    }

    /// Arena and table shape: each value interned once, one well-formed row
    /// per token, valid sentinel handles.
    pub closed spec fn arena_wf(self) -> bool {
        &&& self.table@.len() == self.toks().len()
        &&& forall|i: int, j: int|
            0 <= i < j < self.toks().len() ==> self.toks()[i] != self.toks()[j]
        &&& forall|i: int|
            0 <= i < self.table@.len() ==> row_wf(#[trigger] self.row(i), self.toks().len() as int)
    }

    /// Shape plus sentinels.
    pub closed spec fn struct_wf(self) -> bool {
        &&& self.arena_wf()
        &&& self.toks().len() >= 1
        &&& (self.start_h as int) < self.toks().len()
        &&& (self.end_h as int) < self.toks().len()
    }

    /// A valid chain: well-shaped, and every token reached by a recorded
    /// transition — other than the end sentinel — has at least one outgoing
    /// transition of its own.  Feeding preserves this because every fed
    /// token is immediately followed by another token or by the end
    /// sentinel.
    pub closed spec fn wf(self) -> bool {
        &&& self.struct_wf()
        &&& forall|a: T::V, b: T::V|
            #[trigger] self.trans_count(a, b) > 0 && b != self.end_token() ==> self.succ_total(b)
                > 0
    }

    /// A seen value's handle is a valid index holding that value.
    proof fn lemma_has_idx(self, v: T::V)
        requires
            self.has_token(v),
        ensures
            0 <= self.hidx(v) < self.toks().len(),
            self.toks()[self.hidx(v)] == v,
    {
        let i = choose|i: int| 0 <= i < self.toks().len() && self.toks()[i] == v;
        assert(self.toks()[i] == v);
    }

    /// In a duplicate-free arena, the handle of the value at index `i` is
    /// `i` itself.
    proof fn lemma_idx_of(self, i: int)
        requires
            self.arena_wf(),
            0 <= i < self.toks().len(),
        ensures
            self.has_token(self.toks()[i]),
            self.hidx(self.toks()[i]) == i,
    {
        assert(self.toks()[i] == self.toks()[i]);
        self.lemma_has_idx(self.toks()[i]);
    }

    /// The handle of `t`'s value, if the chain has seen it.
    fn find_handle(&self, t: &T) -> (r: Option<usize>)
        ensures
            match r {
                Some(h) => (h as int) < self.toks().len() && self.toks()[h as int]
                    == t.deep_view(),
                None => !self.has_token(t.deep_view()),
            },
    {
        let n = self.tokens.len();
        let mut i: usize = 0;
        while i < n
            invariant
                n == self.toks().len(),
                i <= n,
                forall|k: int| 0 <= k < i ==> self.toks()[k] != t.deep_view(),
            decreases n - i,
        {
            if self.tokens[i].eq_token(t) {
                return Some(i);
            }
            i = i + 1;
        }
        None
    }

    /// Interns `t`: returns the handle of its value, registering the value
    /// with an empty transition row if it is new.  Recorded transitions are
    /// untouched.
    fn intern(&mut self, t: T) -> (h: usize)
        requires
            old(self).arena_wf(),
        ensures
            final(self).arena_wf(),
            (h as int) < final(self).toks().len(),
            final(self).toks()[h as int] == t.deep_view(),
            old(self).toks().is_prefix_of(final(self).toks()),
            final(self).toks().len() == old(self).toks().len() + (if old(self).has_token(
                t.deep_view(),
            ) {
                0int
            } else {
                1int
            }),
            forall|v: T::V|
                final(self).has_token(v) <==> old(self).has_token(v) || v == t.deep_view(),
            forall|a: T::V, b: T::V|
                final(self).trans_count(a, b) == old(self).trans_count(a, b),
            forall|a: T::V| final(self).succ_total(a) == old(self).succ_total(a),
            final(self).start_h == old(self).start_h,
            final(self).end_h == old(self).end_h,
            forall|i: int|
                0 <= i < old(self).toks().len() ==> final(self).row(i) == old(self).row(i),
    {
        let ghost pre = *self;
        match self.find_handle(&t) {
            Some(h) => {
                proof {
                    assert(pre.toks().is_prefix_of(pre.toks()));
                    assert forall|v: T::V|
                        pre.has_token(v) <==> pre.has_token(v) || v == t.deep_view() by {
                        if v == t.deep_view() {
                            assert(pre.toks()[h as int] == v);
                        }
                    }
                }
                h
            },
            None => {
                let h = self.tokens.len();
                self.tokens.push(t);
                self.table.push(TransitionTable::new());
                proof {
                    let post = *self;
                    assert(post.toks() =~= pre.toks() + seq![t.deep_view()]);
                    assert(post.toks()[h as int] == t.deep_view());
                    assert(pre.toks().is_prefix_of(post.toks()));
                    assert forall|i: int, j: int|
                        0 <= i < j < post.toks().len() implies post.toks()[i]
                        != post.toks()[j] by {
                        if j < h as int {
                        } else {
                            assert(j == h as int);
                            assert(post.toks()[i] == pre.toks()[i]);
                        }
                    }
                    assert forall|i: int| 0 <= i < post.table@.len() implies row_wf(
                        #[trigger] post.row(i),
                        post.toks().len() as int,
                    ) by {
                        if i < h as int {
                            assert(post.row(i) == pre.row(i));
                            assert(row_wf(pre.row(i), pre.toks().len() as int));
                        } else {
                            assert(post.row(i) =~= Seq::<(usize, u64)>::empty());
                        }
                    }
                    assert(post.arena_wf());
                    assert forall|v: T::V|
                        post.has_token(v) <==> pre.has_token(v) || v == t.deep_view() by {
                        if post.has_token(v) {
                            let i = choose|i: int|
                                0 <= i < post.toks().len() && post.toks()[i] == v;
                            if i < h as int {
                                assert(pre.toks()[i] == v);
                            }
                        }
                        if pre.has_token(v) {
                            let i = choose|i: int| 0 <= i < pre.toks().len() && pre.toks()[i] == v;
                            assert(post.toks()[i] == v);
                        }
                        if v == t.deep_view() {
                            assert(post.toks()[h as int] == v);
                        }
                    }
                    self.lemma_counts_after_push(pre, h);
                }
                h
            },
        }
    }

    /// Appending a fresh token with an empty row changes no transition
    /// count and no outgoing total.
    proof fn lemma_counts_after_push(self, pre: Chain<T>, h: usize)
        requires
            pre.arena_wf(),
            self.arena_wf(),
            self.toks().len() == pre.toks().len() + 1,
            h as int == pre.toks().len(),
            forall|i: int| 0 <= i < pre.toks().len() ==> self.toks()[i] == pre.toks()[i],
            !pre.has_token(self.toks()[h as int]),
            forall|i: int| 0 <= i < pre.toks().len() ==> self.row(i) == pre.row(i),
            self.row(h as int) == Seq::<(usize, u64)>::empty(),
        ensures
            forall|a: T::V, b: T::V| self.trans_count(a, b) == pre.trans_count(a, b),
            forall|a: T::V| self.succ_total(a) == pre.succ_total(a),
    {
        assert forall|a: T::V, b: T::V| self.trans_count(a, b) == pre.trans_count(a, b) by {
            self.lemma_count_push_one(pre, h, a, b);
        }
        assert forall|a: T::V| self.succ_total(a) == pre.succ_total(a) by {
            if pre.has_token(a) {
                let i = pre.hidx(a);
                pre.lemma_has_idx(a);
                self.lemma_idx_of(i);
                assert(self.hidx(a) == i);
            } else {
                if self.has_token(a) {
                    self.lemma_has_idx(a);
                    assert(self.hidx(a) == h as int);
                    assert(total_of(self.row(h as int)) == 0);
                }
            }
        }
    }

    /// The fed values bracketed by the sentinels: the sequence whose
    /// adjacent pairs a feed records.
    pub open spec fn walk_seq(self, fed: Seq<T::V>) -> Seq<T::V> {
        seq![self.start_token()] + fed + seq![self.end_token()]
    }

    /// A recorded transition out of `x` is part of `x`'s outgoing total.
    proof fn lemma_trans_le_succ(self, x: T::V, y: T::V)
        ensures
            self.trans_count(x, y) <= self.succ_total(x),
    {
        if self.has_token(x) && self.has_token(y) {
            lemma_count_le_total(self.row(self.hidx(x)), self.hidx(y));
        }
    }

    /// Every transition count of a well-shaped chain fits its machine word.
    proof fn lemma_trans_le_max(self, x: T::V, y: T::V)
        requires
            self.struct_wf(),
        ensures
            self.trans_count(x, y) <= u64::MAX,
    {
        if self.has_token(x) && self.has_token(y) {
            self.lemma_has_idx(x);
            crate::table::lemma_count_le_max(
                self.row(self.hidx(x)),
                self.toks().len() as int,
                self.hidx(y),
            );
        }
    }

    /// The token contents alone determine presence, counts and totals: two
    /// chains with the same arena and table agree on all of them.
    proof fn lemma_content_eq(self, other: Chain<T>)
        requires
            self.arena_wf(),
            self.toks() == other.toks(),
            self.table@ == other.table@,
        ensures
            forall|v: T::V| self.has_token(v) == other.has_token(v),
            forall|a: T::V, b: T::V|
                #[trigger] self.trans_count(a, b) == #[trigger] other.trans_count(a, b),
            forall|a: T::V| #[trigger] self.succ_total(a) == #[trigger] other.succ_total(a),
    {
        assert forall|a: T::V, b: T::V|
            #[trigger] self.trans_count(a, b) == #[trigger] other.trans_count(a, b) by {
            if self.has_token(a) && self.has_token(b) {
                self.lemma_has_idx(a);
                self.lemma_has_idx(b);
                other.lemma_has_idx(a);
                other.lemma_has_idx(b);
                assert(self.hidx(a) == other.hidx(a));
                assert(self.hidx(b) == other.hidx(b));
            }
        }
        assert forall|a: T::V| #[trigger] self.succ_total(a) == #[trigger] other.succ_total(a) by {
            if self.has_token(a) {
                self.lemma_has_idx(a);
                other.lemma_has_idx(a);
                assert(self.hidx(a) == other.hidx(a));
            }
        }
    }

    /// Constructs a chain that knows the two sentinel tokens and no
    /// transition at all.
    pub fn new(start: T, end: T) -> (c: Chain<T>)
        ensures
            c.wf(),
            c.start_token() == start.deep_view(),
            c.end_token() == end.deep_view(),
            forall|v: T::V| c.has_token(v) <==> v == start.deep_view() || v == end.deep_view(),
            forall|a: T::V, b: T::V| c.trans_count(a, b) == 0,
    {
        let mut c = Chain::<T> { tokens: Vec::new(), table: Vec::new(), start_h: 0, end_h: 0 };
        proof {
            assert(c.toks() =~= Seq::<T::V>::empty());
            assert forall|a: T::V, b: T::V| c.trans_count(a, b) == 0 by {
                assert(!c.has_token(a));
            }
            assert forall|a: T::V| c.succ_total(a) == 0 by {
                assert(!c.has_token(a));
            }
        }
        let sh = c.intern(start);
        let ghost c1 = c;
        let eh = c.intern(end);
        let ghost c2 = c;
        c.start_h = sh;
        c.end_h = eh;
        proof {
            assert(c2.arena_wf());
            assert(c.toks() == c2.toks());
            assert(c.table@ == c2.table@);
            assert forall|i: int| 0 <= i < c.table@.len() implies row_wf(
                #[trigger] c.row(i),
                c.toks().len() as int,
            ) by {
                assert(c.row(i) == c2.row(i));
                assert(row_wf(c2.row(i), c2.toks().len() as int));
            }
            assert(c.arena_wf());
            c2.lemma_content_eq(c);
            assert(c1.toks().is_prefix_of(c2.toks()));
            assert(c1.toks() =~= c2.toks().take(c1.toks().len() as int));
            assert(c2.toks()[sh as int] == c1.toks()[sh as int]);
            assert(c.start_token() == start.deep_view());
            assert(c.end_token() == end.deep_view());
            assert forall|a: T::V, b: T::V| #[trigger] c.trans_count(a, b) == 0 by {
                assert(c2.trans_count(a, b) == 0);
            }
            assert(c.wf());
        }
        c
    }

    /// Records one observation of the transition from the token at handle
    /// `a` to the token at handle `b`.
    fn record_pair(&mut self, a: usize, b: usize)
        requires
            old(self).struct_wf(),
            (a as int) < old(self).toks().len(),
            (b as int) < old(self).toks().len(),
        ensures
            final(self).struct_wf(),
            final(self).toks() == old(self).toks(),
            final(self).start_h == old(self).start_h,
            final(self).end_h == old(self).end_h,
            final(self).trans_count(old(self).toks()[a as int], old(self).toks()[b as int])
                == bump(
                old(self).trans_count(old(self).toks()[a as int], old(self).toks()[b as int]),
            ),
            forall|x: T::V, y: T::V|
                !(x == old(self).toks()[a as int] && y == old(self).toks()[b as int])
                    ==> final(self).trans_count(x, y) == old(self).trans_count(x, y),
            forall|v: T::V| final(self).succ_total(v) >= old(self).succ_total(v),
            final(self).succ_total(old(self).toks()[a as int]) > 0,
    {
        let ghost pre = *self;
        let ghost n = pre.toks().len() as int;
        proof {
            assert(row_wf(pre.row(a as int), n));
        }
        let row = &mut self.table[a];
        row.record(b, Ghost(n));
        proof {
            let post = *self;
            assert(post.toks() == pre.toks());
            assert forall|i: int| 0 <= i < post.table@.len() && i != a as int implies post.row(i)
                == pre.row(i) by {
                assert(post.table@[i] == pre.table@[i]);
            }
            assert forall|i: int| 0 <= i < post.table@.len() implies row_wf(
                #[trigger] post.row(i),
                n,
            ) by {
                if i != a as int {
                    assert(post.row(i) == pre.row(i));
                }
            }
            assert(post.struct_wf());
            pre.lemma_idx_of(a as int);
            pre.lemma_idx_of(b as int);
            let av = pre.toks()[a as int];
            let bv = pre.toks()[b as int];
            assert forall|x: T::V, y: T::V| !(x == av && y == bv) implies post.trans_count(x, y)
                == pre.trans_count(x, y) by {
                if pre.has_token(x) && pre.has_token(y) {
                    pre.lemma_has_idx(x);
                    pre.lemma_has_idx(y);
                    if pre.hidx(x) == a as int {
                        assert(x == av);
                        assert(pre.hidx(y) != b as int || y == bv);
                        if y != bv {
                            assert(pre.hidx(y) != b as int);
                        }
                    } else {
                        assert(post.row(pre.hidx(x)) == pre.row(pre.hidx(x)));
                    }
                }
            }
            assert(post.trans_count(av, bv) == bump(pre.trans_count(av, bv)));
            assert forall|v: T::V| post.succ_total(v) >= pre.succ_total(v) by {
                if pre.has_token(v) {
                    pre.lemma_has_idx(v);
                    if pre.hidx(v) != a as int {
                        assert(post.row(pre.hidx(v)) == pre.row(pre.hidx(v)));
                    }
                }
            }
            assert(post.succ_total(av) > 0);
        }
    }

    /// Feeds one training sequence.
    ///
    /// An empty sequence changes nothing.  Otherwise every value is
    /// interned, and every adjacent pair of the fed values bracketed by the
    /// sentinels has its transition count raised by one observation per
    /// occurrence.
    pub fn feed(&mut self, tokens: Vec<T>)
        requires
            old(self).wf(),
        ensures
            final(self).wf(),
            tokens@.len() == 0 ==> *final(self) == *old(self),
            tokens@.len() > 0 ==> ({
                let fed = tokens.deep_view();
                let ws = old(self).walk_seq(fed);
                &&& final(self).start_token() == old(self).start_token()
                &&& final(self).end_token() == old(self).end_token()
                &&& forall|v: T::V|
                    #[trigger] final(self).has_token(v) <==> old(self).has_token(v)
                        || fed.contains(v)
                &&& forall|a: T::V, b: T::V|
                    #[trigger] final(self).trans_count(a, b) == cap_add(
                        old(self).trans_count(a, b),
                        pair_count(ws, a, b),
                    )
            }),
    {
        if tokens.len() == 0 {
            return ;
        }
        let ghost pre = *self;
        let ghost fed = tokens.deep_view();
        let ghost ws = pre.walk_seq(fed);
        let n_t = tokens.len();
        let mut hs: Vec<usize> = Vec::new();
        hs.push(self.start_h);
        proof {
            pre.lemma_idx_of(pre.start_h as int);
            assert(ws[0] == pre.start_token());
            assert(fed.take(0) =~= Seq::<T::V>::empty());
        }
        let mut i: usize = 0;
        while i < n_t
            invariant
                n_t == tokens@.len(),
                fed == tokens.deep_view(),
                ws == pre.walk_seq(fed),
                ws.len() == n_t + 2,
                i <= n_t,
                hs@.len() == i + 1,
                self.struct_wf(),
                self.start_h == pre.start_h,
                self.end_h == pre.end_h,
                pre.toks().is_prefix_of(self.toks()),
                self.start_token() == pre.start_token(),
                self.end_token() == pre.end_token(),
                forall|k: int|
                    0 <= k < hs@.len() ==> ((#[trigger] hs@[k]) as int) < self.toks().len()
                        && self.toks()[hs@[k] as int] == ws[k],
                forall|v: T::V|
                    self.has_token(v) <==> pre.has_token(v) || fed.take(i as int).contains(v),
                forall|a: T::V, b: T::V| self.trans_count(a, b) == pre.trans_count(a, b),
                forall|a: T::V| self.succ_total(a) == pre.succ_total(a),
            decreases n_t - i,
        {
            let h = self.intern(tokens[i].clone_token());
            hs.push(h);
            proof {
                assert(fed[i as int] == tokens@[i as int].deep_view());
                assert(ws[i + 1] == fed[i as int]);
                let f1 = fed.take(i + 1);
                let f0 = fed.take(i as int);
                assert(f1 =~= f0.push(fed[i as int]));
                assert forall|v: T::V| f1.contains(v) <==> f0.contains(v) || v == fed[i as int] by {
                    if f1.contains(v) {
                        let k = choose|k: int| 0 <= k < f1.len() && f1[k] == v;
                        if k < i {
                            assert(f0[k] == v);
                        }
                    }
                    if f0.contains(v) {
                        let k = choose|k: int| 0 <= k < f0.len() && f0[k] == v;
                        assert(f1[k] == v);
                    }
                    if v == fed[i as int] {
                        assert(f1[i as int] == v);
                    }
                }
            }
            i = i + 1;
        }
        hs.push(self.end_h);
        let ghost mid = *self;
        proof {
            mid.lemma_idx_of(mid.end_h as int);
            assert(ws[n_t + 1] == pre.end_token());
            assert(fed.take(n_t as int) =~= fed);
            assert(ws.take(1).len() == 1);
            assert forall|a: T::V, b: T::V| #[trigger] mid.trans_count(a, b) == cap_add(
                mid.trans_count(a, b),
                pair_count(ws.take(1), a, b),
            ) by {
                mid.lemma_trans_le_max(a, b);
                assert(pair_count(ws.take(1), a, b) == 0);
            }
        }
        let m = hs.len();
        let mut j: usize = 0;
        while j + 1 < m
            invariant
                m == hs@.len(),
                m == ws.len(),
                m == n_t + 2,
                j + 1 <= m,
                self.struct_wf(),
                self.toks() == mid.toks(),
                self.start_h == mid.start_h,
                self.end_h == mid.end_h,
                forall|k: int|
                    0 <= k < m ==> ((#[trigger] hs@[k]) as int) < self.toks().len()
                        && self.toks()[hs@[k] as int] == ws[k],
                forall|a: T::V, b: T::V|
                    self.trans_count(a, b) == cap_add(
                        mid.trans_count(a, b),
                        pair_count(ws.take(j + 1), a, b),
                    ),
                forall|a: T::V| self.succ_total(a) >= mid.succ_total(a),
            decreases m - j,
        {
            let ghost before = *self;
            self.record_pair(hs[j], hs[j + 1]);
            proof {
                let av = ws[j as int];
                let bv = ws[j + 1];
                assert(before.toks()[hs@[j as int] as int] == av);
                assert(before.toks()[hs@[j + 1] as int] == bv);
                lemma_pair_count_step(ws, j as int);
                assert forall|a: T::V, b: T::V| self.trans_count(a, b) == cap_add(
                    mid.trans_count(a, b),
                    pair_count(ws.take(j + 2), a, b),
                ) by {
                    if a == av && b == bv {
                        assert(pair_count(ws.take(j + 2), a, b) == pair_count(ws.take(j + 1), a, b)
                            + 1);
                        assert(self.trans_count(a, b) == bump(before.trans_count(a, b)));
                    } else {
                        assert(pair_count(ws.take(j + 2), a, b) == pair_count(
                            ws.take(j + 1),
                            a,
                            b,
                        ));
                        assert(self.trans_count(a, b) == before.trans_count(a, b));
                    }
                }
            }
            j = j + 1;
        }
        proof {
            assert(j + 1 == m);
            assert(ws.take(m as int) =~= ws);
            let post = *self;
            assert forall|v: T::V| post.has_token(v) <==> pre.has_token(v) || fed.contains(v) by {
                assert(post.toks() == mid.toks());
            }
            assert(post.start_token() == pre.start_token());
            assert(post.end_token() == pre.end_token());
            assert forall|a: T::V, b: T::V|
                #[trigger] post.trans_count(a, b) > 0 && b != post.end_token() implies post
                .succ_total(b) > 0 by {
                if mid.trans_count(a, b) > 0 {
                    assert(pre.trans_count(a, b) > 0);
                    assert(pre.succ_total(b) > 0);
                    assert(mid.succ_total(b) == pre.succ_total(b));
                } else {
                    assert(pair_count(ws, a, b) > 0);
                    lemma_pair_count_next(ws, a, b);
                    assert(ws.last() == pre.end_token());
                    let c = choose|c: T::V| pair_count(ws, b, c) > 0;
                    assert(post.trans_count(b, c) == cap_add(
                        mid.trans_count(b, c),
                        pair_count(ws, b, c),
                    ));
                    assert(post.trans_count(b, c) > 0);
                    post.lemma_trans_le_succ(b, c);
                }
            }
            assert(post.wf());
        }
    }
}

impl<T: Token> Chain<T> {
    /// A sequence whose every adjacent pair is a recorded transition.
    pub open spec fn is_step_seq(self, path: Seq<T::V>) -> bool {
        forall|i: int|
            1 <= i < path.len() ==> self.trans_count(path[i - 1], #[trigger] path[i]) > 0
    }

    /// `out` is a completed sampled walk from `from`: every step is a
    /// recorded transition, the end sentinel never occurs inside the output,
    /// and a recorded transition closes the walk into the end sentinel.
    pub open spec fn is_emission(self, from: T::V, out: Seq<T::V>) -> bool {
        &&& self.is_step_seq(seq![from] + out + seq![self.end_token()])
        &&& forall|i: int| 0 <= i < out.len() ==> (#[trigger] out[i]) != self.end_token()
    }

    /// Everything `generate` may return: the empty sequence where the walk
    /// cannot move (the sentinels coincide, or no feed ever recorded a
    /// transition out of the start sentinel), else a complete emission from
    /// the start sentinel.
    pub open spec fn can_generate(self, out: Seq<T::V>) -> bool {
        if self.start_token() == self.end_token() || self.succ_total(self.start_token()) == 0 {
            out == Seq::<T::V>::empty()
        } else {
            self.is_emission(self.start_token(), out)
        }
    }

    /// Everything `generate_from_token` may return for the seed value
    /// `from`: nothing past an end-sentinel seed, the seed alone where no
    /// transition leaves it, else the seed followed by a complete emission.
    pub open spec fn can_generate_from(self, from: T::V, out: Seq<T::V>) -> bool {
        if from == self.end_token() {
            out == Seq::<T::V>::empty()
        } else if self.succ_total(from) == 0 {
            out == seq![from]
        } else {
            &&& out.len() >= 1
            &&& out[0] == from
            &&& self.is_emission(from, out.drop_first())
        }
    }

    /// The weighted random walk shared by the generators: starting at the
    /// token with handle `from`, repeatedly samples a successor, stopping
    /// when the end sentinel is drawn.
    #[verifier::rlimit(50)]
    fn walk_from(&self, from: usize, rng: &mut SplitMix64) -> (out: Vec<T>)
        requires
            self.wf(),
            (from as int) < self.toks().len(),
            self.toks()[from as int] != self.end_token(),
            total_of(self.row(from as int)) > 0,
        ensures
            self.is_emission(self.toks()[from as int], out.deep_view()),
    {
        let ghost fv = self.toks()[from as int];
        let mut out: Vec<T> = Vec::new();
        let mut cur: usize = from;
        proof {
            assert(out.deep_view() =~= Seq::<T::V>::empty());
            assert((seq![fv] + out.deep_view()) =~= seq![fv]);
        }
        loop
            invariant
                self.wf(),
                (cur as int) < self.toks().len(),
                self.toks()[cur as int] != self.end_token(),
                total_of(self.row(cur as int)) > 0,
                (from as int) < self.toks().len(),
                fv == self.toks()[from as int],
                (seq![fv] + out.deep_view()).last() == self.toks()[cur as int],
                forall|i: int|
                    0 <= i < out.deep_view().len() ==> (#[trigger] out.deep_view()[i])
                        != self.end_token(),
                self.is_step_seq(seq![fv] + out.deep_view()),
            ensures
                self.is_emission(fv, out.deep_view()),
            decreases usize::MAX - out.len(),
        {
            let ghost walked = seq![fv] + out.deep_view();
            let ghost n = self.toks().len() as int;
            proof {
                assert(row_wf(self.row(cur as int), n));
            }
            let s = self.table[cur].sample(rng, Ghost(n));
            proof {
                self.lemma_idx_of(cur as int);
                self.lemma_idx_of(s as int);
                assert(self.trans_count(self.toks()[cur as int], self.toks()[s as int])
                    == count_in(self.row(cur as int), s as int));
            }
            if s == self.end_h {
                proof {
                    assert(self.toks()[s as int] == self.end_token());
                    let p = seq![fv] + out.deep_view() + seq![self.end_token()];
                    assert(p.len() == walked.len() + 1);
                    assert forall|i: int| 1 <= i < p.len() implies self.trans_count(
                        p[i - 1],
                        #[trigger] p[i],
                    ) > 0 by {
                        if i < walked.len() {
                            assert(p[i - 1] == walked[i - 1]);
                            assert(p[i] == walked[i]);
                            assert(self.trans_count(walked[i - 1], walked[i]) > 0);
                        } else {
                            assert(p[i - 1] == walked.last());
                            assert(p[i] == self.end_token());
                        }
                    }
                }
                break ;
            }
            let ghost prev = out.deep_view();
            out.push(self.tokens[s].clone_token());
            cur = s;
            proof {
                assert(out.deep_view() =~= prev.push(self.toks()[s as int]));
                assert(self.toks()[s as int] != self.end_token()) by {
                    self.lemma_idx_of(self.end_h as int);
                    if self.toks()[s as int] == self.end_token() {
                        assert(s as int == self.end_h as int);
                    }
                }
                let w2 = seq![fv] + out.deep_view();
                assert(w2 =~= walked.push(self.toks()[s as int]));
                assert(w2.last() == self.toks()[cur as int]);
                assert forall|i: int| 1 <= i < w2.len() implies self.trans_count(
                    w2[i - 1],
                    #[trigger] w2[i],
                ) > 0 by {
                    if i < walked.len() {
                        assert(w2[i - 1] == walked[i - 1]);
                        assert(w2[i] == walked[i]);
                        assert(self.trans_count(walked[i - 1], walked[i]) > 0);
                    } else {
                        assert(w2[i - 1] == walked.last());
                        assert(w2[i] == self.toks()[s as int]);
                    }
                }
                assert(total_of(self.row(cur as int)) > 0) by {
                    assert(self.trans_count(walked.last(), self.toks()[s as int]) > 0);
                    assert(self.succ_total(self.toks()[s as int]) > 0);
                    assert(self.hidx(self.toks()[s as int]) == s as int);
                }
            }
        }
        out
    }

    /// Generates a sequence by weighted random walk from the start
    /// sentinel, stopping when the end sentinel is drawn; neither sentinel
    /// is part of the output.  A chain that was never fed generates the
    /// empty sequence.
    ///
    /// The walk runs for as long as the draws keep it going: on a trained
    /// graph whose cycles can avoid the end sentinel it terminates with
    /// probability one, not certainly.
    pub fn generate(&self, rng: &mut SplitMix64) -> (out: Vec<T>)
        requires
            self.wf(),
        ensures
            self.can_generate(out.deep_view()),
    {
        proof {
            self.lemma_idx_of(self.start_h as int);
            self.lemma_idx_of(self.end_h as int);
            assert(row_wf(self.row(self.start_h as int), self.toks().len() as int));
            lemma_total_pos(self.row(self.start_h as int), self.toks().len() as int);
        }
        if self.start_h == self.end_h {
            let out: Vec<T> = Vec::new();
            proof {
                assert(out.deep_view() =~= Seq::<T::V>::empty());
            }
            return out;
        }
        if self.table[self.start_h].is_empty() {
            let out: Vec<T> = Vec::new();
            proof {
                assert(out.deep_view() =~= Seq::<T::V>::empty());
            }
            return out;
        }
        self.walk_from(self.start_h, rng)
    }

    /// Generates a sequence by weighted random walk starting from the seed
    /// token, which is the first element of the output.  Returns
    /// `TokenNotFound` exactly when the chain has never seen the seed's
    /// value.
    pub fn generate_from_token(&self, token: T, rng: &mut SplitMix64) -> (r: Result<
        Vec<T>,
        ChainError,
    >)
        requires
            self.wf(),
        ensures
            match r {
                Ok(out) => self.has_token(token.deep_view()) && self.can_generate_from(
                    token.deep_view(),
                    out.deep_view(),
                ),
                Err(e) => !self.has_token(token.deep_view()) && e == ChainError::TokenNotFound,
            },
    {
        let ghost tv = token.deep_view();
        match self.find_handle(&token) {
            None => Err(ChainError::TokenNotFound),
            Some(h) => {
                proof {
                    self.lemma_idx_of(h as int);
                    self.lemma_idx_of(self.end_h as int);
                    assert(row_wf(self.row(h as int), self.toks().len() as int));
                    lemma_total_pos(self.row(h as int), self.toks().len() as int);
                }
                if h == self.end_h {
                    let out: Vec<T> = Vec::new();
                    proof {
                        assert(out.deep_view() =~= Seq::<T::V>::empty());
                    }
                    Ok(out)
                } else if self.table[h].is_empty() {
                    let mut out: Vec<T> = Vec::new();
                    out.push(self.tokens[h].clone_token());
                    proof {
                        assert(tv != self.end_token());
                        assert(self.succ_total(tv) == 0);
                        assert(out.deep_view() =~= seq![tv]);
                    }
                    Ok(out)
                } else {
                    let mut out: Vec<T> = Vec::new();
                    out.push(self.tokens[h].clone_token());
                    let ghost single = out@;
                    let mut rest = self.walk_from(h, rng);
                    let ghost restv = rest.deep_view();
                    let ghost restraw = rest@;
                    out.append(&mut rest);
                    proof {
                        assert(tv != self.end_token());
                        assert(self.succ_total(tv) > 0);
                        assert(out@ == single + restraw);
                        assert forall|i: int| 0 <= i < out@.len() implies (#[trigger] out.deep_view()[i])
                            == (seq![tv] + restv)[i] by {
                            if i == 0 {
                                assert(out@[0] == single[0]);
                            } else {
                                assert(out@[i] == restraw[i - 1]);
                                assert(restv[i - 1] == restraw[i - 1].deep_view());
                            }
                        }
                        assert(out.deep_view().len() == out@.len());
                        assert(out.deep_view() =~= seq![tv] + restv);
                        assert(out.deep_view().drop_first() =~= restv);
                        assert(out.deep_view()[0] == tv);
                    }
                    Ok(out)
                }
            },
        }
    }
}

impl<T: Token> Chain<T> {
    /// At most one successor has been recorded for any token.
    pub open spec fn unbranching(self) -> bool {
        forall|a: T::V, b1: T::V, b2: T::V|
            #[trigger] self.trans_count(a, b1) > 0 && #[trigger] self.trans_count(a, b2) > 0
                ==> b1 == b2
    }

    /// In an unbranching chain a completed walk from a fixed token is
    /// unique: at every position the recorded successor admits no
    /// alternative, and neither walk can stop before the other.
    proof fn lemma_emission_unique(self, from: T::V, o1: Seq<T::V>, o2: Seq<T::V>)
        requires
            self.unbranching(),
            self.is_emission(from, o1),
            self.is_emission(from, o2),
        ensures
            o1 == o2,
        decreases o1.len(),
    {
        let e = self.end_token();
        let p1 = seq![from] + o1 + seq![e];
        let p2 = seq![from] + o2 + seq![e];
        assert(p1[0] == from);
        assert(p2[0] == from);
        assert(self.trans_count(p1[0], p1[1]) > 0);
        assert(self.trans_count(p2[0], p2[1]) > 0);
        assert(p1[1] == p2[1]);
        if o1.len() == 0 {
            assert(p1[1] == e);
            if o2.len() > 0 {
                assert(p2[1] == o2[0]);
                assert(o2[0] != e);
                assert(false);
            }
            assert(o1 =~= o2);
        } else {
            assert(p1[1] == o1[0]);
            if o2.len() == 0 {
                assert(p2[1] == e);
                assert(o1[0] != e);
                assert(false);
            }
            assert(p2[1] == o2[0]);
            self.lemma_emission_tail(from, o1);
            self.lemma_emission_tail(from, o2);
            self.lemma_emission_unique(o1[0], o1.drop_first(), o2.drop_first());
            assert forall|i: int| 0 <= i < o1.len() implies o1[i] == o2[i] by {
                if i > 0 {
                    assert(o1.drop_first()[i - 1] == o2.drop_first()[i - 1]);
                }
            }
            assert(o1 =~= o2);
        }
    }

    /// Dropping the first step of a completed walk leaves a completed walk
    /// from that step's target.
    proof fn lemma_emission_tail(self, from: T::V, o: Seq<T::V>)
        requires
            self.is_emission(from, o),
            o.len() >= 1,
        ensures
            self.is_emission(o[0], o.drop_first()),
    {
        let e = self.end_token();
        let p = seq![from] + o + seq![e];
        let q = seq![o[0]] + o.drop_first() + seq![e];
        assert(q =~= p.drop_first());
        assert forall|i: int| 1 <= i < q.len() implies self.trans_count(q[i - 1], #[trigger] q[i])
            > 0 by {
            assert(q[i - 1] == p[i]);
            assert(q[i] == p[i + 1]);
            assert(self.trans_count(p[i], p[i + 1]) > 0);
        }
        assert forall|i: int| 0 <= i < o.drop_first().len() implies (#[trigger] o.drop_first()[i])
            != e by {
            assert(o.drop_first()[i] == o[i + 1]);
        }
    }
}

/// A chain holding no recorded transition at all — in particular a freshly
/// constructed one — can only generate the empty sequence.
pub proof fn lemma_untrained_generates_empty<T: Token>(c: Chain<T>, out: Seq<T::V>)
    requires
        c.wf(),
        forall|a: T::V, b: T::V| c.trans_count(a, b) == 0,
        c.can_generate(out),
    ensures
        out == Seq::<T::V>::empty(),
{
    if c.start_token() != c.end_token() && c.succ_total(c.start_token()) > 0 {
        c.lemma_succ_pos_has_trans(c.start_token());
        let b = choose|b: T::V| c.trans_count(c.start_token(), b) > 0;
        assert(c.trans_count(c.start_token(), b) == 0);
        assert(false);
    }
}

/// Where generation can branch nowhere — every token has at most one
/// recorded successor, as after feeding a single sequence that repeats no
/// token — generation is deterministic: any two sequences the chain can
/// generate are equal, whatever the random draws were.
pub proof fn lemma_unbranching_generate_deterministic<T: Token>(
    c: Chain<T>,
    o1: Seq<T::V>,
    o2: Seq<T::V>,
)
    requires
        c.wf(),
        c.unbranching(),
        c.can_generate(o1),
        c.can_generate(o2),
    ensures
        o1 == o2,
{
    if !(c.start_token() == c.end_token() || c.succ_total(c.start_token()) == 0) {
        c.lemma_emission_unique(c.start_token(), o1, o2);
    }
}

impl<T: Token> Chain<T> {
    /// A token with outgoing weight has a recorded successor.
    proof fn lemma_succ_pos_has_trans(self, a: T::V)
        requires
            self.struct_wf(),
            self.succ_total(a) > 0,
        ensures
            exists|b: T::V| #[trigger] self.trans_count(a, b) > 0,
    {
        assert(self.has_token(a));
        self.lemma_has_idx(a);
        let i = self.hidx(a);
        let es = self.row(i);
        assert(row_wf(es, self.toks().len() as int));
        lemma_total_pos(es, self.toks().len() as int);
        assert(es.len() > 0);
        lemma_count_at_index(es, 0);
        let j = es[0].0;
        self.lemma_idx_of(j as int);
        let b = self.toks()[j as int];
        assert(self.trans_count(a, b) == count_in(es, j as int)) by {
            assert(self.hidx(b) == j as int);
        }
        assert(self.trans_count(a, b) > 0);
    }
}

/// One step of the pair tally along a prefix: extending the prefix past
/// position `j + 1` adds the pair at `(j, j + 1)`.
proof fn lemma_pair_count_append<V>(s: Seq<V>, x: V, a: V, b: V)
    requires
        s.len() >= 1,
    ensures
        pair_count(s.push(x), a, b) == pair_count(s, a, b) + (if s.last() == a && x == b {
            1nat
        } else {
            0nat
        }),
    decreases s.len(),
{
    if s.len() == 1 {
        assert(s.push(x)[0] == s[0]);
        assert(s.push(x)[1] == x);
        assert(s.push(x).skip(1) =~= seq![x]);
        assert(pair_count(seq![x], a, b) == 0);
    } else {
        assert(s.push(x).skip(1) =~= s.skip(1).push(x));
        lemma_pair_count_append(s.skip(1), x, a, b);
        assert(s.skip(1).last() == s.last());
    }
}

proof fn lemma_pair_count_step<V>(s: Seq<V>, j: int)
    requires
        0 <= j,
        j + 1 < s.len(),
    ensures
        forall|a: V, b: V|
            #[trigger] pair_count(s.take(j + 2), a, b) == pair_count(s.take(j + 1), a, b) + (
            if s[j] == a && s[j + 1] == b {
                1nat
            } else {
                0nat
            }),
{
    assert forall|a: V, b: V|
        #[trigger] pair_count(s.take(j + 2), a, b) == pair_count(s.take(j + 1), a, b) + (if s[j]
            == a && s[j + 1] == b {
            1nat
        } else {
            0nat
        }) by {
        assert(s.take(j + 2) =~= s.take(j + 1).push(s[j + 1]));
        lemma_pair_count_append(s.take(j + 1), s[j + 1], a, b);
        assert(s.take(j + 1).last() == s[j]);
    }
}

/// A pair's source continues: where `(a, b)` occurs adjacently, `b` is the
/// final element or itself starts a pair.
proof fn lemma_pair_count_next<V>(s: Seq<V>, a: V, b: V)
    requires
        pair_count(s, a, b) > 0,
    ensures
        s.len() >= 2,
        b == s.last() || exists|c: V| pair_count(s, b, c) > 0,
    decreases s.len(),
{
    if s[0] == a && s[1] == b {
        if s.len() == 2 {
            assert(b == s.last());
        } else {
            assert(s.skip(1)[0] == s[1]);
            assert(s.skip(1)[1] == s[2]);
            assert(pair_count(s.skip(1), s[1], s[2]) >= 1) by {
                lemma_pair_count_head(s.skip(1));
            }
            assert(pair_count(s, b, s[2]) >= pair_count(s.skip(1), b, s[2]));
        }
    } else {
        assert(pair_count(s.skip(1), a, b) > 0);
        lemma_pair_count_next(s.skip(1), a, b);
        assert(s.skip(1).last() == s.last());
        if b != s.last() {
            let c = choose|c: V| pair_count(s.skip(1), b, c) > 0;
            assert(pair_count(s, b, c) >= pair_count(s.skip(1), b, c));
        }
    }
}

/// A sequence of at least two elements counts its head pair.
proof fn lemma_pair_count_head<V>(s: Seq<V>)
    requires
        s.len() >= 2,
    ensures
        pair_count(s, s[0], s[1]) >= 1,
{
}

impl<T: Token> Chain<T> {
    proof fn lemma_count_push_one(self, pre: Chain<T>, h: usize, a: T::V, b: T::V)
        requires
            pre.arena_wf(),
            self.arena_wf(),
            self.toks().len() == pre.toks().len() + 1,
            h as int == pre.toks().len(),
            forall|i: int| 0 <= i < pre.toks().len() ==> self.toks()[i] == pre.toks()[i],
            !pre.has_token(self.toks()[h as int]),
            forall|i: int| 0 <= i < pre.toks().len() ==> self.row(i) == pre.row(i),
            self.row(h as int) == Seq::<(usize, u64)>::empty(),
        ensures
            self.trans_count(a, b) == pre.trans_count(a, b),
    {
        if pre.has_token(a) && pre.has_token(b) {
            pre.lemma_has_idx(a);
            pre.lemma_has_idx(b);
            self.lemma_idx_of(pre.hidx(a));
            self.lemma_idx_of(pre.hidx(b));
            assert(self.hidx(a) == pre.hidx(a));
            assert(self.hidx(b) == pre.hidx(b));
            assert(self.row(self.hidx(a)) == pre.row(pre.hidx(a)));
        } else if self.has_token(a) && self.has_token(b) {
            self.lemma_has_idx(a);
            self.lemma_has_idx(b);
            if !pre.has_token(a) {
                assert(self.hidx(a) == h as int);
                assert(self.trans_count(a, b) == count_in(Seq::<(usize, u64)>::empty(),
                    self.hidx(b)));
            } else {
                assert(!pre.has_token(b));
                assert(self.hidx(b) == h as int);
                pre.lemma_has_idx(a);
                self.lemma_idx_of(pre.hidx(a));
                assert(self.hidx(a) == pre.hidx(a));
                assert(row_wf(self.row(self.hidx(a)), pre.toks().len() as int));
                lemma_count_absent(self.row(self.hidx(a)), h as int);
            }
        }
    }
}

} // verus!
