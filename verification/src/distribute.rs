//! Token-balanced, order-preserving distribution of an index sequence
//! into packs: a left-to-right walk closes the current pack once its
//! running token sum reaches the pack's share of the total, provided
//! enough files remain for the remaining packs; empty packs are dropped.

use vstd::prelude::*;

verus! {

/// Sum of the token weights of the listed file indices.
pub open spec fn sum_toks(tc: Seq<usize>, s: Seq<usize>) -> int
    decreases s.len(),
{
    if s.len() == 0 {
        0
    } else {
        sum_toks(tc, s.drop_last()) + tc[s.last() as int] as int
    }
}

pub proof fn lemma_sum_nonneg(tc: Seq<usize>, s: Seq<usize>)
    ensures
        0 <= sum_toks(tc, s),
    decreases s.len(),
{
    if s.len() > 0 {
        lemma_sum_nonneg(tc, s.drop_last());
    }
}

pub proof fn lemma_sum_concat(tc: Seq<usize>, a: Seq<usize>, b: Seq<usize>)
    ensures
        sum_toks(tc, a + b) == sum_toks(tc, a) + sum_toks(tc, b),
    decreases b.len(),
{
    if b.len() == 0 {
        assert(a + b =~= a);
    } else {
        assert((a + b).drop_last() =~= a + b.drop_last());
        assert((a + b).last() == b.last());
        lemma_sum_concat(tc, a, b.drop_last());
    }
}

pub proof fn lemma_sum_take_succ(tc: Seq<usize>, s: Seq<usize>, i: int)
    requires
        0 <= i < s.len(),
    ensures
        sum_toks(tc, s.take(i + 1)) == sum_toks(tc, s.take(i)) + tc[s[i] as int] as int,
{
    assert(s.take(i + 1).drop_last() =~= s.take(i));
    assert(s.take(i + 1).last() == s[i]);
}

pub proof fn lemma_sum_take_le(tc: Seq<usize>, s: Seq<usize>, i: int)
    requires
        0 <= i <= s.len(),
    ensures
        sum_toks(tc, s.take(i)) <= sum_toks(tc, s),
{
    assert(s =~= s.take(i) + s.skip(i));
    lemma_sum_concat(tc, s.take(i), s.skip(i));
    lemma_sum_nonneg(tc, s.skip(i));
}

/// The concatenation of all packs, in order.
pub open spec fn concat_all(bs: Seq<Seq<usize>>) -> Seq<usize>
    decreases bs.len(),
{
    if bs.len() == 0 {
        Seq::empty()
    } else {
        bs[0] + concat_all(bs.skip(1))
    }
}

/// The packs with empty packs removed, order kept.
pub open spec fn drop_empty(bs: Seq<Seq<usize>>) -> Seq<Seq<usize>>
    decreases bs.len(),
{
    if bs.len() == 0 {
        Seq::empty()
    } else if bs[0].len() == 0 {
        drop_empty(bs.skip(1))
    } else {
        seq![bs[0]] + drop_empty(bs.skip(1))
    }
}

pub proof fn lemma_drop_empty_concat(bs: Seq<Seq<usize>>)
    ensures
        concat_all(drop_empty(bs)) == concat_all(bs),
    decreases bs.len(),
{
    if bs.len() > 0 {
        lemma_drop_empty_concat(bs.skip(1));
        if bs[0].len() == 0 {
            assert(bs[0] + concat_all(bs.skip(1)) =~= concat_all(bs.skip(1)));
        } else {
            let d = drop_empty(bs.skip(1));
            assert((seq![bs[0]] + d)[0] == bs[0]);
            assert((seq![bs[0]] + d).skip(1) =~= d);
            assert(concat_all(seq![bs[0]] + d) == bs[0] + concat_all(d));
        }
    }
}

pub proof fn lemma_drop_empty_props(bs: Seq<Seq<usize>>)
    ensures
        drop_empty(bs).len() <= bs.len(),
        forall|k: int| 0 <= k < drop_empty(bs).len() ==> (#[trigger] drop_empty(bs)[k]).len() > 0,
    decreases bs.len(),
{
    if bs.len() > 0 {
        lemma_drop_empty_props(bs.skip(1));
        if bs[0].len() != 0 {
            let d = drop_empty(bs.skip(1));
            assert forall|k: int|
                0 <= k < drop_empty(bs).len() implies (#[trigger] drop_empty(bs)[k]).len() > 0 by {
                if k == 0 {
                    assert(drop_empty(bs)[0] == bs[0]);
                } else {
                    assert(drop_empty(bs)[k] == d[k - 1]);
                }
            }
        }
    }
}

/// The non-empty prefix-sum walk: place the file at position `p` into
/// pack `cur`, then move to the next pack when the running sum has
/// reached this pack's share and enough files remain.
pub open spec fn dist_walk(
    ordered: Seq<usize>,
    tc: Seq<usize>,
    pc: int,
    total: int,
    p: int,
    cur: int,
    cum: int,
    acc: Seq<Seq<usize>>,
) -> Seq<Seq<usize>>
    decreases ordered.len() - p,
{
    if p < 0 || p >= ordered.len() || cur < 0 || cur >= acc.len() {
        acc
    } else {
        let idx = ordered[p];
        let acc2 = acc.update(cur, acc[cur].push(idx));
        let cum2 = cum + tc[idx as int] as int;
        let boundary = (total * (cur + 1) + pc - 1) / pc;
        let advance = cur < pc - 1 && cum2 >= boundary && ordered.len() - p - 1 >= pc - cur - 1;
        dist_walk(
            ordered,
            tc,
            pc,
            total,
            p + 1,
            if advance {
                cur + 1
            } else {
                cur
            },
            cum2,
            acc2,
        )
    }
}

/// The effective pack count: at least one, at most one per file.
pub open spec fn effective_packs(num_packs: int, n: int) -> int {
    let m = if num_packs < n {
        num_packs
    } else {
        n
    };
    if m < 1 {
        1
    } else {
        m
    }
}

/// What `distribute_files` returns: the whole sequence as one pack when
/// one pack is asked for, otherwise the non-empty packs of the walk.
pub open spec fn distribute_spec(ordered: Seq<usize>, tc: Seq<usize>, num_packs: int) -> Seq<
    Seq<usize>,
> {
    let n = ordered.len() as int;
    if n == 0 {
        Seq::empty()
    } else {
        let pc = effective_packs(num_packs, n);
        if pc == 1 {
            seq![ordered]
        } else {
            drop_empty(
                dist_walk(
                    ordered,
                    tc,
                    pc,
                    sum_toks(tc, ordered),
                    0,
                    0,
                    0,
                    Seq::new(pc as nat, |i: int| Seq::<usize>::empty()),
                ),
            )
        }
    }
}

proof fn lemma_walk_flatten(
    ordered: Seq<usize>,
    tc: Seq<usize>,
    pc: int,
    total: int,
    p: int,
    cur: int,
    cum: int,
    acc: Seq<Seq<usize>>,
)
    requires
        0 <= p <= ordered.len(),
        0 <= cur < acc.len(),
        acc.len() == pc,
        forall|b: int| cur < b < acc.len() ==> (#[trigger] acc[b]).len() == 0,
        concat_all(acc) == ordered.take(p),
    ensures
        concat_all(dist_walk(ordered, tc, pc, total, p, cur, cum, acc)) == ordered,
    decreases ordered.len() - p,
{
    if p >= ordered.len() {
        assert(ordered.take(p) =~= ordered);
    } else {
        let idx = ordered[p];
        let acc2 = acc.update(cur, acc[cur].push(idx));
        lemma_concat_update_push(acc, cur, idx);
        assert(concat_all(acc2) =~= ordered.take(p).push(ordered[p]));
        assert(ordered.take(p).push(ordered[p]) =~= ordered.take(p + 1));
        let cum2 = cum + tc[idx as int] as int;
        let boundary = (total * (cur + 1) + pc - 1) / pc;
        let advance = cur < pc - 1 && cum2 >= boundary && ordered.len() - p - 1 >= pc - cur - 1;
        let cur2 = if advance {
            cur + 1
        } else {
            cur
        };
        assert(forall|b: int| cur2 < b < acc2.len() ==> (#[trigger] acc2[b]).len() == 0);
        lemma_walk_flatten(ordered, tc, pc, total, p + 1, cur2, cum2, acc2);
    }
}

/// Appending to the last occupied pack appends to the concatenation.
proof fn lemma_concat_update_push(acc: Seq<Seq<usize>>, cur: int, idx: usize)
    requires
        0 <= cur < acc.len(),
        forall|b: int| cur < b < acc.len() ==> (#[trigger] acc[b]).len() == 0,
    ensures
        concat_all(acc.update(cur, acc[cur].push(idx))) == concat_all(acc).push(idx),
    decreases acc.len(),
{
    let acc2 = acc.update(cur, acc[cur].push(idx));
    if cur == 0 {
        assert(acc2[0] == acc[0].push(idx));
        assert(acc2.skip(1) =~= acc.skip(1));
        lemma_concat_all_empty(acc.skip(1));
        assert(concat_all(acc) =~= acc[0]);
        assert(concat_all(acc2) =~= acc[0].push(idx));
        assert(acc[0].push(idx) =~= concat_all(acc).push(idx));
    } else {
        assert(acc2[0] == acc[0]);
        assert(acc2.skip(1) =~= acc.skip(1).update(cur - 1, acc.skip(1)[cur - 1].push(idx)));
        assert(forall|b: int|
            cur - 1 < b < acc.skip(1).len() ==> (#[trigger] acc.skip(1)[b]).len() == 0);
        lemma_concat_update_push(acc.skip(1), cur - 1, idx);
        assert(concat_all(acc2) == acc[0] + concat_all(acc.skip(1)).push(idx));
        assert(acc[0] + concat_all(acc.skip(1)).push(idx) =~= (acc[0] + concat_all(
            acc.skip(1),
        )).push(idx));
    }
}

proof fn lemma_concat_all_empty(bs: Seq<Seq<usize>>)
    requires
        forall|b: int| 0 <= b < bs.len() ==> (#[trigger] bs[b]).len() == 0,
    ensures
        concat_all(bs).len() == 0,
    decreases bs.len(),
{
    if bs.len() > 0 {
        lemma_concat_all_empty(bs.skip(1));
    }
}

proof fn lemma_walk_len(
    ordered: Seq<usize>,
    tc: Seq<usize>,
    pc: int,
    total: int,
    p: int,
    cur: int,
    cum: int,
    acc: Seq<Seq<usize>>,
)
    ensures
        dist_walk(ordered, tc, pc, total, p, cur, cum, acc).len() == acc.len(),
    decreases ordered.len() - p,
{
    if !(p < 0 || p >= ordered.len() || cur < 0 || cur >= acc.len()) {
        let idx = ordered[p];
        let acc2 = acc.update(cur, acc[cur].push(idx));
        let cum2 = cum + tc[idx as int] as int;
        let boundary = (total * (cur + 1) + pc - 1) / pc;
        let advance = cur < pc - 1 && cum2 >= boundary && ordered.len() - p - 1 >= pc - cur - 1;
        lemma_walk_len(
            ordered,
            tc,
            pc,
            total,
            p + 1,
            if advance {
                cur + 1
            } else {
                cur
            },
            cum2,
            acc2,
        );
    }
}

/// The packs concatenate back to the distributed sequence: every index
/// appears exactly once, in its original position.
pub proof fn lemma_distribute_flatten(ordered: Seq<usize>, tc: Seq<usize>, num_packs: int)
    ensures
        concat_all(distribute_spec(ordered, tc, num_packs)) == ordered,
{
    let n = ordered.len() as int;
    if n == 0 {
        assert(concat_all(distribute_spec(ordered, tc, num_packs)) =~= ordered);
    } else {
        let pc = effective_packs(num_packs, n);
        if pc == 1 {
            let bs = seq![ordered];
            assert(bs.skip(1) =~= Seq::<Seq<usize>>::empty());
            assert(bs[0] == ordered);
            assert(concat_all(bs) == bs[0] + concat_all(bs.skip(1)));
            assert(concat_all(bs.skip(1)) == Seq::<usize>::empty());
            assert(concat_all(bs) =~= ordered);
        } else {
            let acc0 = Seq::new(pc as nat, |i: int| Seq::<usize>::empty());
            lemma_concat_all_empty(acc0);
            assert(concat_all(acc0) =~= ordered.take(0));
            lemma_walk_flatten(ordered, tc, pc, sum_toks(tc, ordered), 0, 0, 0, acc0);
            lemma_drop_empty_concat(
                dist_walk(ordered, tc, pc, sum_toks(tc, ordered), 0, 0, 0, acc0),
            );
        }
    }
}

/// The returned packs: never empty, never more than the effective
/// count, and at least one whenever there is a file.
pub proof fn lemma_distribute_counts(ordered: Seq<usize>, tc: Seq<usize>, num_packs: int)
    ensures
        forall|k: int|
            0 <= k < distribute_spec(ordered, tc, num_packs).len() ==> (
            #[trigger] distribute_spec(ordered, tc, num_packs)[k]).len() > 0,
        distribute_spec(ordered, tc, num_packs).len() <= effective_packs(
            num_packs,
            ordered.len() as int,
        ),
        ordered.len() > 0 ==> distribute_spec(ordered, tc, num_packs).len() >= 1,
{
    let n = ordered.len() as int;
    let r = distribute_spec(ordered, tc, num_packs);
    if n == 0 {
    } else {
        let pc = effective_packs(num_packs, n);
        if pc == 1 {
            assert(r[0] == ordered);
        } else {
            let acc0 = Seq::new(pc as nat, |i: int| Seq::<usize>::empty());
            let w = dist_walk(ordered, tc, pc, sum_toks(tc, ordered), 0, 0, 0, acc0);
            lemma_walk_len(ordered, tc, pc, sum_toks(tc, ordered), 0, 0, 0, acc0);
            lemma_drop_empty_props(w);
            lemma_distribute_flatten(ordered, tc, num_packs);
            if r.len() == 0 {
                assert(concat_all(r).len() == 0);
            }
        }
    }
}

/// Asking for one pack returns the whole sequence as one pack, in its
/// original order.
pub proof fn lemma_distribute_single_pack(ordered: Seq<usize>, tc: Seq<usize>)
    requires
        ordered.len() > 0,
    ensures
        distribute_spec(ordered, tc, 1) == seq![ordered],
{
    assert(effective_packs(1, ordered.len() as int) == 1);
}

proof fn lemma_walk_singletons(
    ordered: Seq<usize>,
    tc: Seq<usize>,
    p: int,
    acc: Seq<Seq<usize>>,
)
    requires
        ordered.len() >= 2,
        0 <= p <= ordered.len() - 1,
        acc.len() == ordered.len(),
        forall|b: int| 0 <= b < p ==> acc[b] == seq![ordered[b]],
        forall|b: int| p <= b < acc.len() ==> (#[trigger] acc[b]).len() == 0,
        forall|q: int|
            0 <= q < ordered.len() - 1 ==> #[trigger] sum_toks(tc, ordered.take(q + 1)) * (
            ordered.len() as int) >= sum_toks(tc, ordered) * (q + 1),
    ensures
        forall|b: int|
            0 <= b < acc.len() ==> #[trigger] dist_walk(
                ordered,
                tc,
                ordered.len() as int,
                sum_toks(tc, ordered),
                p,
                p,
                sum_toks(tc, ordered.take(p)),
                acc,
            )[b] == seq![ordered[b]],
        dist_walk(
            ordered,
            tc,
            ordered.len() as int,
            sum_toks(tc, ordered),
            p,
            p,
            sum_toks(tc, ordered.take(p)),
            acc,
        ).len() == ordered.len(),
    decreases ordered.len() - p,
{
    let n = ordered.len() as int;
    let total = sum_toks(tc, ordered);
    let idx = ordered[p];
    let acc2 = acc.update(p, acc[p].push(idx));
    assert(acc[p].push(idx) =~= seq![ordered[p]]);
    lemma_sum_take_succ(tc, ordered, p);
    let cum2 = sum_toks(tc, ordered.take(p)) + tc[idx as int] as int;
    assert(cum2 == sum_toks(tc, ordered.take(p + 1)));
    let boundary = (total * (p + 1) + n - 1) / n;
    if p < n - 1 {
        // the prefix condition makes the walk advance at every step
        assert(cum2 >= boundary) by {
            assert(cum2 * n >= total * (p + 1));
            assert(total * (p + 1) + n - 1 < n * (cum2 + 1)) by (nonlinear_arith)
                requires
                    cum2 * n >= total * (p + 1),
                    n >= 2,
            {}
            vstd::arithmetic::div_mod::lemma_multiply_divide_lt(
                total * (p + 1) + n - 1,
                n,
                cum2 + 1,
            );
        }
        assert(n - p - 1 >= n - p - 1);
        assert(dist_walk(ordered, tc, n, total, p, p, sum_toks(tc, ordered.take(p)), acc)
            == dist_walk(ordered, tc, n, total, p + 1, p + 1, cum2, acc2));
        lemma_walk_singletons(ordered, tc, p + 1, acc2);
    } else {
        // the final file completes the final pack
        assert(p == n - 1);
        let w = dist_walk(ordered, tc, n, total, p, p, sum_toks(tc, ordered.take(p)), acc);
        assert(w == dist_walk(
            ordered,
            tc,
            n,
            total,
            p + 1,
            if (p < n - 1 && cum2 >= boundary && n - p - 1 >= n - p - 1) {
                p + 1
            } else {
                p
            },
            cum2,
            acc2,
        ));
        assert(w == acc2);
        assert(forall|b: int| 0 <= b < acc2.len() ==> acc2[b] == seq![ordered[b]]);
    }
}

/// Asking for at least one pack per file returns exactly one pack per
/// file, in order, whenever every prefix of the sequence carries at
/// least its proportional share of the total weight.
pub proof fn lemma_distribute_one_file_each(ordered: Seq<usize>, tc: Seq<usize>, num_packs: int)
    requires
        ordered.len() > 0,
        num_packs >= ordered.len(),
        forall|q: int|
            0 <= q < ordered.len() - 1 ==> #[trigger] sum_toks(tc, ordered.take(q + 1)) * (
            ordered.len() as int) >= sum_toks(tc, ordered) * (q + 1),
    ensures
        distribute_spec(ordered, tc, num_packs).len() == ordered.len(),
        forall|k: int|
            0 <= k < ordered.len() ==> #[trigger] distribute_spec(ordered, tc, num_packs)[k]
                == seq![ordered[k]],
{
    let n = ordered.len() as int;
    let pc = effective_packs(num_packs, n);
    assert(pc == n);
    if n == 1 {
        assert(distribute_spec(ordered, tc, num_packs) == seq![ordered]);
        assert(ordered =~= seq![ordered[0]]);
    } else {
        let acc0 = Seq::new(pc as nat, |i: int| Seq::<usize>::empty());
        assert(sum_toks(tc, ordered.take(0)) == 0) by {
            assert(ordered.take(0) =~= Seq::<usize>::empty());
        }
        lemma_walk_singletons(ordered, tc, 0, acc0);
        let w = dist_walk(ordered, tc, n, sum_toks(tc, ordered), 0, 0, 0, acc0);
        assert(w == dist_walk(
            ordered,
            tc,
            n,
            sum_toks(tc, ordered),
            0,
            0,
            sum_toks(tc, ordered.take(0)),
            acc0,
        ));
        lemma_drop_empty_full(w);
    }
}

proof fn lemma_sum_equal_weights(tc: Seq<usize>, ordered: Seq<usize>, t: usize, q: int)
    requires
        0 <= q <= ordered.len(),
        forall|j: int| 0 <= j < ordered.len() ==> tc[(#[trigger] ordered[j]) as int] == t,
    ensures
        sum_toks(tc, ordered.take(q)) == q * t,
    decreases q,
{
    if q == 0 {
        assert(ordered.take(0) =~= Seq::<usize>::empty());
    } else {
        lemma_sum_equal_weights(tc, ordered, t, q - 1);
        lemma_sum_take_succ(tc, ordered, q - 1);
        assert(q * t == (q - 1) * t + t) by (nonlinear_arith) {}
    }
}

/// With equally weighted files, asking for at least one pack per file
/// returns exactly one pack per file, in order.
pub proof fn lemma_distribute_one_file_each_equal(
    ordered: Seq<usize>,
    tc: Seq<usize>,
    num_packs: int,
    t: usize,
)
    requires
        ordered.len() > 0,
        num_packs >= ordered.len(),
        forall|j: int| 0 <= j < ordered.len() ==> tc[(#[trigger] ordered[j]) as int] == t,
    ensures
        distribute_spec(ordered, tc, num_packs).len() == ordered.len(),
        forall|k: int|
            0 <= k < ordered.len() ==> #[trigger] distribute_spec(ordered, tc, num_packs)[k]
                == seq![ordered[k]],
{
    let n = ordered.len() as int;
    assert forall|q: int|
        0 <= q < n - 1 implies #[trigger] sum_toks(tc, ordered.take(q + 1)) * n >= sum_toks(
        tc,
        ordered,
    ) * (q + 1) by {
        lemma_sum_equal_weights(tc, ordered, t, q + 1);
        lemma_sum_equal_weights(tc, ordered, t, n);
        assert(ordered.take(n) =~= ordered);
        assert(((q + 1) * (t as int)) * n == (n * (t as int)) * (q + 1)) by (nonlinear_arith) {}
    }
    lemma_distribute_one_file_each(ordered, tc, num_packs);
}

proof fn lemma_drop_empty_full(bs: Seq<Seq<usize>>)
    requires
        forall|b: int| 0 <= b < bs.len() ==> (#[trigger] bs[b]).len() > 0,
    ensures
        drop_empty(bs) == bs,
    decreases bs.len(),
{
    if bs.len() > 0 {
        lemma_drop_empty_full(bs.skip(1));
        assert(drop_empty(bs) =~= bs) by {
            assert(drop_empty(bs) == seq![bs[0]] + drop_empty(bs.skip(1)));
        }
    } else {
        assert(drop_empty(bs) =~= bs);
    }
}

/// What `distribute_with_doc_strategy` returns: in mixed mode the pack
/// budget is split between documentation and code in proportion to
/// their token weights (at least one pack each), and the two sequences
/// are distributed independently, documentation first; otherwise the
/// two sequences are concatenated and distributed as one.
pub open spec fn strategy_spec(
    docs: Seq<usize>,
    code: Seq<usize>,
    num_packs: int,
    tc: Seq<usize>,
) -> Seq<Seq<usize>> {
    let total = sum_toks(tc, docs) + sum_toks(tc, code);
    if docs.len() == 0 || code.len() == 0 || num_packs <= 1 || total == 0 {
        distribute_spec(docs + code, tc, num_packs)
    } else {
        let dt = sum_toks(tc, docs);
        let dpc0 = (dt * num_packs + total / 2) / total;
        let dpc = if dpc0 < 1 {
            1
        } else if dpc0 > num_packs - 1 {
            num_packs - 1
        } else {
            dpc0
        };
        distribute_spec(docs, tc, dpc) + distribute_spec(code, tc, num_packs - dpc)
    }
}

/// Distribute documentation and code, keeping documentation packs first
/// and sharing the requested pack count in proportion to token weight.
pub fn distribute_with_doc_strategy(
    docs: &Vec<usize>,
    code: &Vec<usize>,
    num_packs: usize,
    token_counts: &Vec<usize>,
) -> (r: Vec<Vec<usize>>)
    requires
        forall|j: int| 0 <= j < docs@.len() ==> (#[trigger] docs@[j]) < token_counts@.len(),
        forall|j: int| 0 <= j < code@.len() ==> (#[trigger] code@[j]) < token_counts@.len(),
        sum_toks(token_counts@, docs@) + sum_toks(token_counts@, code@) <= usize::MAX as int,
    ensures
        bin_views(r@) == strategy_spec(docs@, code@, num_packs as int, token_counts@),
        concat_all(bin_views(r@)) == docs@ + code@,
        forall|k: int| 0 <= k < r@.len() ==> (#[trigger] r@[k])@.len() > 0,
        num_packs >= 1 ==> r@.len() <= num_packs,
        num_packs >= 1 && docs@.len() + code@.len() > 0 ==> r@.len() >= 1,
{
    proof {
        lemma_strategy_flatten(docs@, code@, num_packs as int, token_counts@);
        if num_packs >= 1 {
            lemma_strategy_counts(docs@, code@, num_packs as int, token_counts@);
        }
    }
    let ghost tc = token_counts@;
    proof {
        lemma_sum_nonneg(tc, docs@);
        lemma_sum_nonneg(tc, code@);
        lemma_sum_concat(tc, docs@, code@);
    }
    let docs_tokens = sum_token_counts(docs, token_counts);
    let code_tokens = sum_token_counts(code, token_counts);
    let total_tokens = docs_tokens + code_tokens;

    if docs.len() == 0 || code.len() == 0 || num_packs <= 1 || total_tokens == 0 {
        let mut merged = copy_indices(docs);
        let mut tail = copy_indices(code);
        merged.append(&mut tail);
        proof {
            assert(merged@ == docs@ + code@);
            assert forall|j: int|
                0 <= j < merged@.len() implies (#[trigger] merged@[j]) < tc.len() by {
                if j < docs@.len() {
                    assert(merged@[j] == docs@[j]);
                } else {
                    assert(merged@[j] == code@[j - docs@.len()]);
                }
            }
        }
        return distribute_files(&merged, num_packs, token_counts);
    }

    proof {
        let dt = docs_tokens as int;
        assert(dt * (num_packs as int) <= (usize::MAX as int) * (usize::MAX as int))
            by (nonlinear_arith)
            requires
                0 <= dt <= usize::MAX as int,
                0 <= (num_packs as int) <= usize::MAX as int,
        {}
        assert(dt * (num_packs as int) >= 0) by (nonlinear_arith)
            requires
                dt >= 0,
                (num_packs as int) >= 0,
        {}
    }
    let dpc_w: u128 = ((docs_tokens as u128) * (num_packs as u128) + (total_tokens as u128) / 2)
        / (total_tokens as u128);
    proof {
        let dt = docs_tokens as int;
        let tot = total_tokens as int;
        assert(dpc_w as int == (dt * (num_packs as int) + tot / 2) / tot);
    }
    let docs_pack_count: usize = if dpc_w < 1 {
        1
    } else if dpc_w > (num_packs - 1) as u128 {
        num_packs - 1
    } else {
        dpc_w as usize
    };
    proof {
        let dt = docs_tokens as int;
        let tot = total_tokens as int;
        let dpc0 = (dt * (num_packs as int) + tot / 2) / tot;
        assert(docs_pack_count as int == if dpc0 < 1 {
            1int
        } else if dpc0 > (num_packs as int) - 1 {
            (num_packs as int) - 1
        } else {
            dpc0
        });
    }
    let code_pack_count = num_packs - docs_pack_count;
    let mut bins = distribute_files(docs, docs_pack_count, token_counts);
    let mut code_bins = distribute_files(code, code_pack_count, token_counts);
    let ghost doc_views = bin_views(bins@);
    let ghost code_views = bin_views(code_bins@);
    bins.append(&mut code_bins);
    proof {
        assert(bin_views(bins@) =~= doc_views + code_views);
    }
    bins
}

pub proof fn lemma_concat_all_app(a: Seq<Seq<usize>>, b: Seq<Seq<usize>>)
    ensures
        concat_all(a + b) == concat_all(a) + concat_all(b),
    decreases a.len(),
{
    if a.len() == 0 {
        assert(a + b =~= b);
        assert(concat_all(a) =~= Seq::<usize>::empty());
        assert(concat_all(a) + concat_all(b) =~= concat_all(b));
    } else {
        assert((a + b)[0] == a[0]);
        assert((a + b).skip(1) =~= a.skip(1) + b);
        lemma_concat_all_app(a.skip(1), b);
        assert(a[0] + (concat_all(a.skip(1)) + concat_all(b)) =~= (a[0] + concat_all(a.skip(1)))
            + concat_all(b));
    }
}

/// Each pack weighs no more than the whole.
pub proof fn lemma_sum_bin_le(tc: Seq<usize>, bs: Seq<Seq<usize>>, k: int)
    requires
        0 <= k < bs.len(),
    ensures
        sum_toks(tc, bs[k]) <= sum_toks(tc, concat_all(bs)),
    decreases bs.len(),
{
    lemma_sum_concat(tc, bs[0], concat_all(bs.skip(1)));
    if k == 0 {
        lemma_sum_nonneg(tc, concat_all(bs.skip(1)));
    } else {
        lemma_sum_bin_le(tc, bs.skip(1), k - 1);
        lemma_sum_nonneg(tc, bs[0]);
    }
}

/// Each pack member appears in the concatenation.
pub proof fn lemma_concat_contains(bs: Seq<Seq<usize>>, k: int, j: int)
    requires
        0 <= k < bs.len(),
        0 <= j < bs[k].len(),
    ensures
        concat_all(bs).contains(bs[k][j]),
    decreases bs.len(),
{
    if k == 0 {
        assert(concat_all(bs)[j] == bs[0][j]);
    } else {
        lemma_concat_contains(bs.skip(1), k - 1, j);
        let c = concat_all(bs.skip(1));
        let i = choose|i: int| 0 <= i < c.len() && #[trigger] c[i] == bs.skip(1)[k - 1][j];
        assert(concat_all(bs)[bs[0].len() + i] == c[i]);
    }
}

/// The strategy's packs concatenate to documentation then code.
pub proof fn lemma_strategy_flatten(
    docs: Seq<usize>,
    code: Seq<usize>,
    num_packs: int,
    tc: Seq<usize>,
)
    ensures
        concat_all(strategy_spec(docs, code, num_packs, tc)) == docs + code,
{
    let total = sum_toks(tc, docs) + sum_toks(tc, code);
    if docs.len() == 0 || code.len() == 0 || num_packs <= 1 || total == 0 {
        lemma_distribute_flatten(docs + code, tc, num_packs);
    } else {
        let dt = sum_toks(tc, docs);
        let dpc0 = (dt * num_packs + total / 2) / total;
        let dpc = if dpc0 < 1 {
            1int
        } else if dpc0 > num_packs - 1 {
            num_packs - 1
        } else {
            dpc0
        };
        lemma_distribute_flatten(docs, tc, dpc);
        lemma_distribute_flatten(code, tc, num_packs - dpc);
        lemma_concat_all_app(distribute_spec(docs, tc, dpc), distribute_spec(code, tc, num_packs - dpc));
    }
}

/// The strategy's pack counts: every pack non-empty, at most the
/// requested number (once clamped to at least one), and at least one
/// whenever there is a file.
pub proof fn lemma_strategy_counts(
    docs: Seq<usize>,
    code: Seq<usize>,
    num_packs: int,
    tc: Seq<usize>,
)
    requires
        num_packs >= 1,
    ensures
        forall|k: int|
            0 <= k < strategy_spec(docs, code, num_packs, tc).len() ==> (
            #[trigger] strategy_spec(docs, code, num_packs, tc)[k]).len() > 0,
        strategy_spec(docs, code, num_packs, tc).len() <= num_packs,
        docs.len() + code.len() > 0 ==> strategy_spec(docs, code, num_packs, tc).len() >= 1,
{
    let total = sum_toks(tc, docs) + sum_toks(tc, code);
    let r = strategy_spec(docs, code, num_packs, tc);
    if docs.len() == 0 || code.len() == 0 || num_packs <= 1 || total == 0 {
        lemma_distribute_counts(docs + code, tc, num_packs);
        assert(effective_packs(num_packs, (docs + code).len() as int) <= num_packs);
    } else {
        let dt = sum_toks(tc, docs);
        let dpc0 = (dt * num_packs + total / 2) / total;
        let dpc = if dpc0 < 1 {
            1int
        } else if dpc0 > num_packs - 1 {
            num_packs - 1
        } else {
            dpc0
        };
        let a = distribute_spec(docs, tc, dpc);
        let b = distribute_spec(code, tc, num_packs - dpc);
        lemma_distribute_counts(docs, tc, dpc);
        lemma_distribute_counts(code, tc, num_packs - dpc);
        assert(effective_packs(dpc, docs.len() as int) <= dpc);
        assert(effective_packs(num_packs - dpc, code.len() as int) <= num_packs - dpc);
        assert forall|k: int| 0 <= k < r.len() implies (#[trigger] r[k]).len() > 0 by {
            if k < a.len() {
                assert(r[k] == a[k]);
            } else {
                assert(r[k] == b[k - a.len()]);
            }
        }
        assert(a.len() >= 1);
    }
}

/// Copy an index sequence.
fn copy_indices(v: &Vec<usize>) -> (r: Vec<usize>)
    ensures
        r@ == v@,
{
    let mut out: Vec<usize> = Vec::new();
    let mut i: usize = 0;
    while i < v.len()
        invariant
            0 <= i <= v@.len(),
            out@ == v@.take(i as int),
        decreases v@.len() - i,
    {
        out.push(v[i]);
        proof {
            assert(v@.take(i + 1) =~= v@.take(i as int).push(v@[i as int]));
        }
        i += 1;
    }
    proof {
        assert(v@.take(v@.len() as int) =~= v@);
    }
    out
}

/// The views of a pack list.
pub open spec fn bin_views(v: Seq<Vec<usize>>) -> Seq<Seq<usize>> {
    v.map_values(|b: Vec<usize>| b@)
}

/// Sum the token weights of a list of file indices.
pub fn sum_token_counts(ordered: &Vec<usize>, token_counts: &Vec<usize>) -> (r: usize)
    requires
        forall|j: int| 0 <= j < ordered@.len() ==> (#[trigger] ordered@[j]) < token_counts@.len(),
        sum_toks(token_counts@, ordered@) <= usize::MAX as int,
    ensures
        r as int == sum_toks(token_counts@, ordered@),
{
    let mut total: usize = 0;
    let mut i: usize = 0;
    proof {
        assert(ordered@.take(0) =~= Seq::<usize>::empty());
    }
    while i < ordered.len()
        invariant
            forall|j: int|
                0 <= j < ordered@.len() ==> (#[trigger] ordered@[j]) < token_counts@.len(),
            sum_toks(token_counts@, ordered@) <= usize::MAX as int,
            0 <= i <= ordered@.len(),
            total as int == sum_toks(token_counts@, ordered@.take(i as int)),
        decreases ordered@.len() - i,
    {
        proof {
            lemma_sum_take_succ(token_counts@, ordered@, i as int);
            lemma_sum_take_le(token_counts@, ordered@, i + 1);
            lemma_sum_nonneg(token_counts@, ordered@.take(i as int));
        }
        total = total + token_counts[ordered[i]];
        i += 1;
    }
    proof {
        assert(ordered@.take(ordered@.len() as int) =~= ordered@);
    }
    total
}

/// Preserve relative order and split into near-equal token packs; packs
/// that would stay empty are dropped.
pub fn distribute_files(ordered: &Vec<usize>, num_packs: usize, token_counts: &Vec<usize>) -> (r:
    Vec<Vec<usize>>)
    requires
        forall|j: int| 0 <= j < ordered@.len() ==> (#[trigger] ordered@[j]) < token_counts@.len(),
        sum_toks(token_counts@, ordered@) <= usize::MAX as int,
    ensures
        bin_views(r@) == distribute_spec(ordered@, token_counts@, num_packs as int),
        concat_all(bin_views(r@)) == ordered@,
        forall|k: int| 0 <= k < r@.len() ==> (#[trigger] r@[k])@.len() > 0,
        r@.len() <= effective_packs(num_packs as int, ordered@.len() as int),
        ordered@.len() > 0 ==> r@.len() >= 1,
{
    let r = distribute_core(ordered, num_packs, token_counts);
    proof {
        lemma_distribute_flatten(ordered@, token_counts@, num_packs as int);
        lemma_distribute_counts(ordered@, token_counts@, num_packs as int);
        assert forall|k: int| 0 <= k < r@.len() implies (#[trigger] r@[k])@.len() > 0 by {
            assert(bin_views(r@)[k] == r@[k]@);
            assert(distribute_spec(ordered@, token_counts@, num_packs as int)[k].len() > 0);
        }
    }
    r
}

/// The distribution walk itself.
fn distribute_core(ordered: &Vec<usize>, num_packs: usize, token_counts: &Vec<usize>) -> (r: Vec<
    Vec<usize>,
>)
    requires
        forall|j: int| 0 <= j < ordered@.len() ==> (#[trigger] ordered@[j]) < token_counts@.len(),
        sum_toks(token_counts@, ordered@) <= usize::MAX as int,
    ensures
        bin_views(r@) == distribute_spec(ordered@, token_counts@, num_packs as int),
{
    let n = ordered.len();
    if n == 0 {
        let r: Vec<Vec<usize>> = Vec::new();
        proof {
            assert(bin_views(r@) =~= distribute_spec(ordered@, token_counts@, num_packs as int));
        }
        return r;
    }
    let pack_count: usize = if num_packs < n {
        if num_packs < 1 {
            1
        } else {
            num_packs
        }
    } else {
        n
    };
    proof {
        assert(pack_count as int == effective_packs(num_packs as int, n as int));
    }
    if pack_count == 1 {
        let mut r: Vec<Vec<usize>> = Vec::new();
        r.push(copy_indices(ordered));
        proof {
            assert(bin_views(r@) =~= seq![ordered@]);
        }
        return r;
    }

    let total = sum_token_counts(ordered, token_counts);
    let ghost tc = token_counts@;
    let ghost tot = total as int;
    let ghost pcg = pack_count as int;

    let mut bins: Vec<Vec<usize>> = Vec::new();
    let mut i: usize = 0;
    while i < pack_count
        invariant
            0 <= i <= pack_count,
            bins@.len() == i,
            forall|b: int| 0 <= b < i ==> (#[trigger] bins@[b])@.len() == 0,
        decreases pack_count - i,
    {
        bins.push(Vec::new());
        i += 1;
    }
    let ghost acc0 = Seq::new(pcg as nat, |b: int| Seq::<usize>::empty());
    proof {
        assert(bin_views(bins@) =~~= acc0);
    }

    let mut cumulative: usize = 0;
    let mut current_bin: usize = 0;
    let mut p: usize = 0;
    while p < n
        invariant
            n == ordered@.len(),
            tc == token_counts@,
            forall|j: int| 0 <= j < n ==> (#[trigger] ordered@[j]) < tc.len(),
            sum_toks(tc, ordered@) <= usize::MAX as int,
            tot == sum_toks(tc, ordered@),
            total as int == tot,
            0 <= tot,
            2 <= pcg == pack_count,
            0 <= p <= n,
            0 <= current_bin < pcg,
            bins@.len() == pcg,
            cumulative as int == sum_toks(tc, ordered@.take(p as int)),
            dist_walk(ordered@, tc, pcg, tot, 0, 0, 0, acc0) == dist_walk(
                ordered@,
                tc,
                pcg,
                tot,
                p as int,
                current_bin as int,
                cumulative as int,
                bin_views(bins@),
            ),
        decreases n - p,
    {
        let idx = ordered[p];
        let ghost pre_bins = bin_views(bins@);
        let ghost old_cur = current_bin as int;
        let ghost old_cum = cumulative as int;
        bins[current_bin].push(idx);
        proof {
            assert(bin_views(bins@) =~= pre_bins.update(
                current_bin as int,
                pre_bins[current_bin as int].push(idx),
            ));
            lemma_sum_take_succ(tc, ordered@, p as int);
            lemma_sum_take_le(tc, ordered@, p + 1);
            lemma_sum_nonneg(tc, ordered@.take(p as int));
        }
        cumulative = cumulative + token_counts[idx];

        if current_bin < pack_count - 1 {
            proof {
                let c1 = (current_bin + 1) as int;
                assert(tot * c1 <= (usize::MAX as int) * pcg) by (nonlinear_arith)
                    requires
                        0 <= tot <= usize::MAX as int,
                        0 < c1 <= pcg,
                {}
                assert((usize::MAX as int) * pcg <= (usize::MAX as int) * (usize::MAX as int))
                    by (nonlinear_arith)
                    requires
                        0 < pcg <= usize::MAX as int,
                {}
                assert(tot * c1 >= 0) by (nonlinear_arith)
                    requires
                        tot >= 0,
                        c1 > 0,
                {}
            }
            let boundary: u128 = ((total as u128) * ((current_bin + 1) as u128) + (pack_count
                as u128) - 1) / (pack_count as u128);
            let remaining_files = n - p - 1;
            let remaining_bins = pack_count - current_bin - 1;
            proof {
                let c1 = (current_bin + 1) as int;
                assert(boundary as int == (tot * c1 + pcg - 1) / pcg);
            }
            if (cumulative as u128) >= boundary && remaining_files >= remaining_bins {
                current_bin = current_bin + 1;
            }
        }
        proof {
            let idxg = ordered@[p as int];
            let acc2 = pre_bins.update(old_cur, pre_bins[old_cur].push(idxg));
            assert(bin_views(bins@) == acc2);
            let cum2 = old_cum + tc[idxg as int] as int;
            assert(cumulative as int == cum2);
            let boundaryg = (tot * (old_cur + 1) + pcg - 1) / pcg;
            let advanceg = old_cur < pcg - 1 && cum2 >= boundaryg && n - p - 1 >= pcg - old_cur
                - 1;
            assert(current_bin as int == if advanceg {
                old_cur + 1
            } else {
                old_cur
            });
            assert(dist_walk(ordered@, tc, pcg, tot, p as int, old_cur, old_cum, pre_bins)
                == dist_walk(ordered@, tc, pcg, tot, p + 1, current_bin as int, cum2, acc2));
        }
        p += 1;
    }
    proof {
        assert(ordered@.take(n as int) =~= ordered@);
        assert(dist_walk(
            ordered@,
            tc,
            pcg,
            tot,
            n as int,
            current_bin as int,
            cumulative as int,
            bin_views(bins@),
        ) == bin_views(bins@));
    }

    // drop packs that stayed empty
    let mut out: Vec<Vec<usize>> = Vec::new();
    let mut k: usize = 0;
    let ghost walked = bin_views(bins@);
    proof {
        assert(walked.skip(0) =~= walked);
        assert(bin_views(out@) + drop_empty(walked) =~= drop_empty(walked));
    }
    while k < bins.len()
        invariant
            walked == bin_views(bins@),
            0 <= k <= bins@.len(),
            drop_empty(walked) == bin_views(out@) + drop_empty(walked.skip(k as int)),
        decreases bins@.len() - k,
    {
        proof {
            assert(walked.skip(k as int)[0] == walked[k as int]);
            assert(walked.skip(k as int).skip(1) =~= walked.skip(k + 1));
        }
        if bins[k].len() > 0 {
            let ghost pre_out = bin_views(out@);
            out.push(copy_indices(&bins[k]));
            proof {
                assert(bin_views(out@) =~= pre_out.push(walked[k as int]));
                assert(drop_empty(walked.skip(k as int)) == seq![walked[k as int]] + drop_empty(
                    walked.skip(k + 1),
                ));
                assert(pre_out + (seq![walked[k as int]] + drop_empty(walked.skip(k + 1)))
                    =~= bin_views(out@) + drop_empty(walked.skip(k + 1)));
            }
        } else {
            proof {
                assert(walked[k as int].len() == 0);
                assert(drop_empty(walked.skip(k as int)) == drop_empty(walked.skip(k + 1)));
            }
        }
        k += 1;
    }
    proof {
        assert(walked.skip(walked.len() as int) =~= Seq::<Seq<usize>>::empty());
        assert(bin_views(out@) + drop_empty(walked.skip(walked.len() as int)) =~= bin_views(
            out@,
        ));
    }
    out
}

} // verus!
