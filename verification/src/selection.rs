//! Ordering-based selection: a stable descending sort of the population by
//! the state order, an elite band kept in full, and a stride-sampled
//! remainder.

use vstd::prelude::*;
use vstd::multiset::Multiset;
use vstd::seq_lib::lemma_multiset_commutative;
use crate::process::Process;
use crate::script::{Dup, Order, Script};

verus! {

/// Descending order: no element ranks strictly above an earlier one.
pub open spec fn sorted_desc<C: Order, H, S: Script<C, H>>(s: Seq<Process<C, H, S>>) -> bool {
    forall|i: int, j: int| 0 <= i < j < s.len() ==> (#[trigger] s[j]).st().le((#[trigger] s[i]).st())
}

/// `p` inserted into the descending sequence `s`: after every element that
/// ranks at or above it, before the first that ranks strictly below it, so
/// a later arrival lands after its equals and the sort is stable.
pub open spec fn insert_desc<C: Order, H, S: Script<C, H>>(
    s: Seq<Process<C, H, S>>,
    p: Process<C, H, S>,
) -> Seq<Process<C, H, S>>
    decreases s.len(),
{
    if s.len() == 0 {
        seq![p]
    } else if p.st().le(s.first().st()) {
        seq![s.first()] + insert_desc(s.drop_first(), p)
    } else {
        seq![p] + s
    }
}

/// Stable descending sort by the state order: the greatest state first,
/// processes of equal rank keeping their prior relative order.
pub open spec fn sort_desc<C: Order, H, S: Script<C, H>>(s: Seq<Process<C, H, S>>) -> Seq<
    Process<C, H, S>,
>
    decreases s.len(),
{
    if s.len() == 0 {
        s
    } else {
        insert_desc(sort_desc(s.drop_last()), s.last())
    }
}

proof fn lemma_insert_desc_len<C: Order, H, S: Script<C, H>>(
    s: Seq<Process<C, H, S>>,
    p: Process<C, H, S>,
)
    ensures
        insert_desc(s, p).len() == s.len() + 1,
    decreases s.len(),
{
    if s.len() > 0 && p.st().le(s.first().st()) {
        lemma_insert_desc_len(s.drop_first(), p);
    }
}

/// Inserting adds exactly the new process to the sequence's contents.
proof fn lemma_insert_desc_multiset<C: Order, H, S: Script<C, H>>(
    s: Seq<Process<C, H, S>>,
    p: Process<C, H, S>,
)
    ensures
        insert_desc(s, p).to_multiset() == s.to_multiset().insert(p),
    decreases s.len(),
{
    broadcast use vstd::seq_lib::group_to_multiset_ensures;

    if s.len() == 0 {
        assert(seq![p] =~= Seq::empty().push(p));
        assert(s.to_multiset() =~= Multiset::empty());
        assert(insert_desc(s, p).to_multiset() =~= s.to_multiset().insert(p));
    } else if p.st().le(s.first().st()) {
        lemma_insert_desc_multiset(s.drop_first(), p);
        lemma_multiset_commutative(seq![s.first()], insert_desc(s.drop_first(), p));
        lemma_multiset_commutative(seq![s.first()], s.drop_first());
        assert(seq![s.first()] + s.drop_first() =~= s);
        assert(seq![s.first()].to_multiset() =~= Multiset::empty().insert(s.first()));
        assert(insert_desc(s, p).to_multiset() =~= s.to_multiset().insert(p));
    } else {
        lemma_multiset_commutative(seq![p], s);
        assert(seq![p].to_multiset() =~= Multiset::empty().insert(p));
        assert(insert_desc(s, p).to_multiset() =~= s.to_multiset().insert(p));
    }
}

/// The inserted sequence holds the old elements and the new one, nothing
/// else.
proof fn lemma_insert_desc_elems<C: Order, H, S: Script<C, H>>(
    s: Seq<Process<C, H, S>>,
    p: Process<C, H, S>,
)
    ensures
        forall|k: int|
            0 <= k < insert_desc(s, p).len() ==> (#[trigger] insert_desc(s, p)[k] == p
                || s.contains(insert_desc(s, p)[k])),
    decreases s.len(),
{
    if s.len() == 0 {
    } else if p.st().le(s.first().st()) {
        lemma_insert_desc_elems(s.drop_first(), p);
        assert forall|k: int| 0 <= k < insert_desc(s, p).len() implies (
        #[trigger] insert_desc(s, p)[k] == p || s.contains(insert_desc(s, p)[k])) by {
            if k == 0 {
                assert(insert_desc(s, p)[0] == s.first());
                assert(s.contains(s[0]));
            } else {
                let e = insert_desc(s.drop_first(), p)[k - 1];
                assert(insert_desc(s, p)[k] == e);
                if e != p {
                    let m = choose|m: int| 0 <= m < s.drop_first().len() && s.drop_first()[m] == e;
                    assert(s[m + 1] == e);
                }
            }
        }
    } else {
        assert forall|k: int| 1 <= k < insert_desc(s, p).len() implies s.contains(
            insert_desc(s, p)[k],
        ) by {
            assert(insert_desc(s, p)[k] == s[k - 1]);
        }
    }
}

/// Inserting into a descending sequence keeps it descending.
proof fn lemma_insert_desc_sorted<C: Order, H, S: Script<C, H>>(
    s: Seq<Process<C, H, S>>,
    p: Process<C, H, S>,
)
    requires
        sorted_desc(s),
    ensures
        sorted_desc(insert_desc(s, p)),
    decreases s.len(),
{
    let out = insert_desc(s, p);
    lemma_insert_desc_len(s, p);
    if s.len() == 0 {
    } else if p.st().le(s.first().st()) {
        let rest = s.drop_first();
        assert(sorted_desc(rest));
        lemma_insert_desc_sorted(rest, p);
        lemma_insert_desc_elems(rest, p);
        lemma_insert_desc_len(rest, p);
        let inner = insert_desc(rest, p);
        assert forall|i: int, j: int| 0 <= i < j < out.len() implies (#[trigger] out[j]).st().le(
            (#[trigger] out[i]).st(),
        ) by {
            if i == 0 {
                assert(out[0] == s.first());
                let e = inner[j - 1];
                assert(out[j] == e);
                if e == p {
                } else {
                    let m = choose|m: int| 0 <= m < rest.len() && rest[m] == e;
                    assert(s[m + 1] == e);
                    assert(e.st().le(s.first().st()));
                }
            } else {
                assert(out[i] == inner[i - 1]);
                assert(out[j] == inner[j - 1]);
            }
        }
    } else {
        C::le_total(p.st(), s.first().st());
        assert(s.first().st().le(p.st()));
        assert forall|i: int, j: int| 0 <= i < j < out.len() implies (#[trigger] out[j]).st().le(
            (#[trigger] out[i]).st(),
        ) by {
            if i == 0 {
                assert(out[0] == p);
                assert(out[j] == s[j - 1]);
                if j == 1 {
                } else {
                    assert(s[j - 1].st().le(s.first().st()));
                    C::le_trans(s[j - 1].st(), s.first().st(), p.st());
                }
            } else {
                assert(out[i] == s[i - 1]);
                assert(out[j] == s[j - 1]);
            }
        }
    }
}

/// The sort orders the population without changing its contents.
pub proof fn lemma_sort_desc_props<C: Order, H, S: Script<C, H>>(s: Seq<Process<C, H, S>>)
    ensures
        sort_desc(s).len() == s.len(),
        sorted_desc(sort_desc(s)),
        sort_desc(s).to_multiset() == s.to_multiset(),
    decreases s.len(),
{
    broadcast use vstd::seq_lib::group_to_multiset_ensures;

    if s.len() > 0 {
        lemma_sort_desc_props(s.drop_last());
        lemma_insert_desc_len(sort_desc(s.drop_last()), s.last());
        lemma_insert_desc_sorted(sort_desc(s.drop_last()), s.last());
        lemma_insert_desc_multiset(sort_desc(s.drop_last()), s.last());
        assert(s.drop_last().push(s.last()) =~= s);
        assert(s.drop_last().push(s.last()).to_multiset() == s.drop_last().to_multiset().insert(
            s.last(),
        ));
    }
}

/// Inserting lands exactly where the scan for the first strictly lower
/// rank stops.
proof fn lemma_insert_desc_split<C: Order, H, S: Script<C, H>>(
    s: Seq<Process<C, H, S>>,
    p: Process<C, H, S>,
    pos: int,
)
    requires
        0 <= pos <= s.len(),
        forall|k: int| 0 <= k < pos ==> p.st().le((#[trigger] s[k]).st()),
        pos < s.len() ==> !p.st().le(s[pos].st()),
    ensures
        insert_desc(s, p) == s.insert(pos, p),
    decreases s.len(),
{
    if s.len() == 0 {
        assert(seq![p] =~= s.insert(0, p));
    } else if p.st().le(s.first().st()) {
        assert(pos >= 1);
        let rest = s.drop_first();
        assert forall|k: int| 0 <= k < pos - 1 implies p.st().le((#[trigger] rest[k]).st()) by {
            assert(rest[k] == s[k + 1]);
        }
        assert(pos - 1 < rest.len() ==> !p.st().le(rest[pos - 1].st()));
        lemma_insert_desc_split(rest, p, pos - 1);
        assert(seq![s.first()] + rest.insert(pos - 1, p) =~= s.insert(pos, p));
    } else {
        assert(pos == 0);
        assert(seq![p] + s =~= s.insert(0, p));
    }
}

/// Sorts the population descending by state, stably: a stable insertion
/// sort, since the tie-break rule is that equals keep their prior order.
pub(crate) fn sort_vec<C: Dup + Order, H: Dup, S: Script<C, H>>(v: &mut Vec<Process<C, H, S>>)
    ensures
        final(v)@ == sort_desc(old(v)@),
{
    let mut out: Vec<Process<C, H, S>> = Vec::new();
    let mut idx: usize = 0;
    while idx < v.len()
        invariant
            idx <= v@.len(),
            v@ == old(v)@,
            out@ == sort_desc(v@.take(idx as int)),
            out@.len() == idx,
        decreases v@.len() - idx,
    {
        let p = v[idx].duplicate();
        let mut pos: usize = 0;
        loop
            invariant
                pos <= out@.len(),
                forall|k: int| 0 <= k < pos ==> p.st().le((#[trigger] out@[k]).st()),
            ensures
                pos <= out@.len(),
                forall|k: int| 0 <= k < pos ==> p.st().le((#[trigger] out@[k]).st()),
                pos < out@.len() ==> !p.st().le(out@[pos as int].st()),
            decreases out@.len() - pos,
        {
            if pos >= out.len() {
                break;
            }
            if !p.state_ref().leq(out[pos].state_ref()) {
                break;
            }
            pos = pos + 1;
        }
        proof {
            lemma_insert_desc_split(out@, p, pos as int);
            lemma_insert_desc_len(out@, p);
            assert(v@.take(idx + 1).drop_last() =~= v@.take(idx as int));
            assert(v@.take(idx + 1).last() == v@[idx as int]);
        }
        out.insert(pos, p);
        idx = idx + 1;
    }
    proof {
        assert(v@.take(v@.len() as int) =~= v@);
    }
    *v = out;
}

/// For `j` within the sampled count, the `j`-th sample index lies within
/// the suffix.
pub(crate) proof fn lemma_stride_index_bound(slen: int, step: int, j: int)
    requires
        step >= 1,
        0 <= j < (slen + step - 1) / step,
    ensures
        j * step < slen,
{
    let x = slen + step - 1;
    let count = x / step;
    vstd::arithmetic::div_mod::lemma_fundamental_div_mod(x, step);
    assert(count * step <= x);
    vstd::arithmetic::mul::lemma_mul_inequality(j, count - 1, step);
    assert(j * step <= (count - 1) * step);
    assert((count - 1) * step == count * step - step) by (nonlinear_arith);
}

/// How many samples a stride walk takes: the number `k` with
/// `(k-1)*step < slen <= k*step` is the rounded-up quotient.
pub(crate) proof fn lemma_stride_count(slen: int, step: int, k: int)
    requires
        step >= 1,
        k >= 0,
        (k - 1) * step < slen,
        slen <= k * step,
    ensures
        (slen + step - 1) / step == k,
{
    let x = slen + step - 1;
    let r = x - k * step;
    assert((k - 1) * step == k * step - step) by (nonlinear_arith);
    assert(0 <= r < step);
    vstd::arithmetic::div_mod::lemma_fundamental_div_mod_converse(x, step, k, r);
}

/// Every `step`-th element of `s`, starting with its first element.
pub open spec fn stride<C, H, S: Script<C, H>>(s: Seq<Process<C, H, S>>, step: int) -> Seq<
    Process<C, H, S>,
>
    recommends
        step >= 1,
{
    Seq::new((((s.len() + step - 1) / step) as nat), |i: int| s[i * step])
}

/// The width of the elite band: `range + step`, clamped to the population.
pub open spec fn band<C, H, S: Script<C, H>>(s: Seq<Process<C, H, S>>, range: int, step: int) -> int {
    if range + step < s.len() {
        range + step
    } else {
        s.len() as int
    }
}

/// The index of the best process: the greatest state under the order, the
/// last such index when several rank equal.
pub open spec fn best_idx<C: Order, H, S: Script<C, H>>(s: Seq<Process<C, H, S>>) -> int
    decreases s.len(),
{
    if s.len() <= 1 {
        0
    } else {
        let b = best_idx(s.drop_last());
        if s[b].st().le(s.last().st()) {
            s.len() - 1
        } else {
            b
        }
    }
}

/// The best index is in range and its state ranks at or above every
/// state in the population.
pub proof fn lemma_best_idx<C: Order, H, S: Script<C, H>>(s: Seq<Process<C, H, S>>)
    requires
        s.len() > 0,
    ensures
        0 <= best_idx(s) < s.len(),
        forall|i: int| 0 <= i < s.len() ==> (#[trigger] s[i]).st().le(s[best_idx(s)].st()),
    decreases s.len(),
{
    if s.len() == 1 {
        C::le_total(s[0].st(), s[0].st());
    } else {
        let head = s.drop_last();
        lemma_best_idx(head);
        let b = best_idx(head);
        C::le_total(s.last().st(), s.last().st());
        assert forall|i: int| 0 <= i < s.len() implies (#[trigger] s[i]).st().le(
            s[best_idx(s)].st(),
        ) by {
            if s[b].st().le(s.last().st()) {
                if i < s.len() - 1 {
                    assert(head[i] == s[i]);
                    assert(s[i].st().le(s[b].st()));
                    C::le_trans(s[i].st(), s[b].st(), s.last().st());
                }
            } else {
                C::le_total(s[b].st(), s.last().st());
                if i < s.len() - 1 {
                    assert(head[i] == s[i]);
                }
            }
        }
    }
}

/// The population after pruning: unchanged while it is not larger than
/// `range`; otherwise sorted descending by state, the elite band kept in
/// full, and every `step`-th element of the remainder appended after it.
pub open spec fn prune_spec<C: Order, H, S: Script<C, H>>(
    s: Seq<Process<C, H, S>>,
    range: int,
    step: int,
) -> Seq<Process<C, H, S>>
    recommends
        step >= 1,
{
    if s.len() <= range {
        s
    } else {
        let sorted = sort_desc(s);
        let cut = band(s, range, step);
        sorted.take(cut) + stride(sorted.skip(cut), step)
    }
}

/// Elite band: for a population larger than `range`, the survivors'
/// first `min(range + step, size)` members are exactly the pre-prune top
/// `min(range + step, size)` members under the state order — the same
/// processes in the same order, hence the same multiset; and the sort
/// they come from is a descending permutation of the population.
pub proof fn lemma_prune_elite<C: Order, H, S: Script<C, H>>(
    s: Seq<Process<C, H, S>>,
    range: int,
    step: int,
)
    requires
        step >= 1,
        0 <= range < s.len(),
    ensures
        prune_spec(s, range, step).len() >= band(s, range, step),
        prune_spec(s, range, step).take(band(s, range, step)) == sort_desc(s).take(
            band(s, range, step),
        ),
        prune_spec(s, range, step).take(band(s, range, step)).to_multiset() == sort_desc(s).take(
            band(s, range, step),
        ).to_multiset(),
        sorted_desc(sort_desc(s)),
        sort_desc(s).to_multiset() == s.to_multiset(),
{
    lemma_sort_desc_props(s);
    let sorted = sort_desc(s);
    let cut = band(s, range, step);
    assert((sorted.take(cut) + stride(sorted.skip(cut), step)).take(cut) =~= sorted.take(cut));
}

/// Stride sampling: every survivor past the elite band sat, before
/// pruning, a whole multiple of `step` past the band in the descending
/// order; the band is followed by exactly one survivor per started stride
/// of the sorted remainder.
pub proof fn lemma_prune_stride<C: Order, H, S: Script<C, H>>(
    s: Seq<Process<C, H, S>>,
    range: int,
    step: int,
)
    requires
        step >= 1,
        0 <= range < s.len(),
    ensures
        prune_spec(s, range, step).len() == band(s, range, step) + (s.len() - band(s, range, step)
            + step - 1) / step,
        forall|k: int|
            band(s, range, step) <= k < prune_spec(s, range, step).len()
                ==> #[trigger] prune_spec(s, range, step)[k] == sort_desc(s)[band(s, range, step) + (
            k - band(s, range, step)) * step],
{
    lemma_sort_desc_props(s);
    let sorted = sort_desc(s);
    let cut = band(s, range, step);
    let suf = sorted.skip(cut);
    let out = prune_spec(s, range, step);
    assert forall|k: int| cut <= k < out.len() implies #[trigger] out[k] == sorted[cut + (k - cut)
        * step] by {
        let j = k - cut;
        lemma_stride_index_bound(suf.len() as int, step, j);
        assert(out[k] == stride(suf, step)[j]);
        assert(stride(suf, step)[j] == suf[j * step]);
        assert(suf[j * step] == sorted[cut + j * step]);
    }
}

} // verus!
