//! The aggregator: many records reduced to one best record per scenario.
//!
//! The first record seen for a scenario is kept; a later record for the
//! same scenario replaces it only when its score is strictly greater, so
//! ties keep the earlier record.  Output order is the order in which the
//! scenarios were first seen.

use vstd::prelude::*;

use crate::numparse::dec_gt;
use crate::numparse::decimal_gt;
use crate::numparse::lemma_dec_order_trans;
use crate::record::stats_wf;
use crate::record::StatsResult;
use crate::record::StatsView;
use crate::scanner::stats_views;
use crate::strutil::str_eq;

verus! {

/// Every record of the sequence is well-formed.
pub open spec fn all_wf(s: Seq<StatsView>) -> bool {
    forall|i: int| 0 <= i < s.len() ==> stats_wf(#[trigger] s[i])
}

/// Index of the first record at or after `from` carrying scenario `s`, or
/// the length when there is none.
pub open spec fn find_key_from(acc: Seq<StatsView>, s: Seq<char>, from: int) -> int
    decreases acc.len() - from,
{
    if from < 0 || from >= acc.len() {
        acc.len() as int
    } else if acc[from].scenario_name == s {
        from
    } else {
        find_key_from(acc, s, from + 1)
    }
}

proof fn lemma_find_key_from_props(acc: Seq<StatsView>, s: Seq<char>, from: int)
    requires
        0 <= from,
    ensures
        from <= find_key_from(acc, s, from) <= acc.len() || find_key_from(acc, s, from)
            == acc.len(),
        find_key_from(acc, s, from) < acc.len() ==> acc[find_key_from(
            acc,
            s,
            from,
        )].scenario_name == s,
        forall|j: int|
            from <= j < find_key_from(acc, s, from) && j < acc.len() ==> (#[trigger] acc[j]).scenario_name
                != s,
    decreases acc.len() - from,
{
    if from >= acc.len() {
    } else if acc[from].scenario_name == s {
    } else {
        lemma_find_key_from_props(acc, s, from + 1);
    }
}

/// The reduction: a left fold that inserts a first-seen scenario and
/// replaces a seen one only on a strictly greater score.
pub open spec fn reduce_spec(rs: Seq<StatsView>) -> Seq<StatsView>
    decreases rs.len(),
{
    if rs.len() == 0 {
        Seq::empty()
    } else {
        let acc = reduce_spec(rs.drop_last());
        let r = rs.last();
        let j = find_key_from(acc, r.scenario_name, 0);
        if j == acc.len() {
            acc.push(r)
        } else if dec_gt(r.score, acc[j].score) {
            acc.update(j, r)
        } else {
            acc
        }
    }
}

/// Whether some record of `rs` carries scenario `s`.
pub open spec fn has_scen(rs: Seq<StatsView>, s: Seq<char>) -> bool {
    exists|i: int| 0 <= i < rs.len() && (#[trigger] rs[i]).scenario_name == s
}

/// Index of the record the fold retains for scenario `s`: the first record
/// of `s` that is strictly better than every earlier record of `s` and not
/// beaten by any later one.
pub open spec fn best_idx(rs: Seq<StatsView>, s: Seq<char>) -> int
    decreases rs.len(),
{
    if rs.len() == 0 {
        0
    } else {
        let prev = best_idx(rs.drop_last(), s);
        let li = rs.len() - 1;
        if rs[li].scenario_name != s {
            prev
        } else if !has_scen(rs.drop_last(), s) {
            li
        } else if dec_gt(rs[li].score, rs[prev].score) {
            li
        } else {
            prev
        }
    }
}

/// The retained record of a scenario has the maximum score among the
/// records of that scenario, and of equal maxima it is the first
/// encountered: it strictly beats every earlier one and is not beaten by
/// any.
pub proof fn lemma_best_idx_props(rs: Seq<StatsView>, s: Seq<char>)
    requires
        has_scen(rs, s),
    ensures
        0 <= best_idx(rs, s) < rs.len(),
        rs[best_idx(rs, s)].scenario_name == s,
        forall|i: int|
            0 <= i < rs.len() && (#[trigger] rs[i]).scenario_name == s ==> !dec_gt(
                rs[i].score,
                rs[best_idx(rs, s)].score,
            ),
        forall|i: int|
            0 <= i < best_idx(rs, s) && (#[trigger] rs[i]).scenario_name == s ==> dec_gt(
                rs[best_idx(rs, s)].score,
                rs[i].score,
            ),
    decreases rs.len(),
{
    let pre = rs.drop_last();
    let li = rs.len() - 1;
    let b = best_idx(rs, s);
    if rs[li].scenario_name != s {
        assert(has_scen(pre, s)) by {
            let w = choose|i: int| 0 <= i < rs.len() && (#[trigger] rs[i]).scenario_name == s;
            assert(w < li);
            assert(pre[w].scenario_name == s);
        }
        lemma_best_idx_props(pre, s);
        assert forall|i: int|
            0 <= i < rs.len() && (#[trigger] rs[i]).scenario_name == s implies !dec_gt(
            rs[i].score,
            rs[b].score,
        ) by {
            assert(i < li);
            assert(pre[i] == rs[i]);
        }
        assert forall|i: int|
            0 <= i < b && (#[trigger] rs[i]).scenario_name == s implies dec_gt(
            rs[b].score,
            rs[i].score,
        ) by {
            assert(pre[i] == rs[i]);
        }
    } else {
        if !has_scen(pre, s) {
            assert(b == li);
            assert forall|i: int|
                0 <= i < rs.len() && (#[trigger] rs[i]).scenario_name == s implies !dec_gt(
                rs[i].score,
                rs[b].score,
            ) by {
                if i < li {
                    assert(pre[i].scenario_name == s);
                }
            }
            assert forall|i: int|
                0 <= i < b && (#[trigger] rs[i]).scenario_name == s implies dec_gt(
                rs[b].score,
                rs[i].score,
            ) by {
                assert(pre[i].scenario_name == s);
            }
        } else {
            lemma_best_idx_props(pre, s);
            let prev = best_idx(pre, s);
            assert(rs[prev] == pre[prev]);
            if dec_gt(rs[li].score, rs[prev].score) {
                assert(b == li);
                assert forall|i: int|
                    0 <= i < li && (#[trigger] rs[i]).scenario_name == s implies dec_gt(
                    rs[b].score,
                    rs[i].score,
                ) by {
                    assert(pre[i] == rs[i]);
                    assert(!dec_gt(pre[i].score, pre[prev].score));
                    lemma_dec_order_trans(rs[li].score, rs[prev].score, rs[i].score);
                }
                assert forall|i: int|
                    0 <= i < rs.len() && (#[trigger] rs[i]).scenario_name == s implies !dec_gt(
                    rs[i].score,
                    rs[b].score,
                ) by {
                    if i < li {
                        assert(pre[i] == rs[i]);
                        assert(dec_gt(rs[b].score, rs[i].score));
                    }
                }
            } else {
                assert(b == prev);
                assert forall|i: int|
                    0 <= i < rs.len() && (#[trigger] rs[i]).scenario_name == s implies !dec_gt(
                    rs[i].score,
                    rs[b].score,
                ) by {
                    if i < li {
                        assert(pre[i] == rs[i]);
                    }
                }
                assert forall|i: int|
                    0 <= i < b && (#[trigger] rs[i]).scenario_name == s implies dec_gt(
                    rs[b].score,
                    rs[i].score,
                ) by {
                    assert(pre[i] == rs[i]);
                }
            }
        }
    }
}

/// Two sequences that agree on which positions carry scenario `s`, and on
/// the records at those positions, are scanned alike.
proof fn lemma_find_key_from_congr(a: Seq<StatsView>, b: Seq<StatsView>, s: Seq<char>, from: int)
    requires
        0 <= from,
        a.len() == b.len(),
        forall|i: int|
            0 <= i < a.len() ==> (((#[trigger] a[i]).scenario_name == s) <==> ((
            #[trigger] b[i]).scenario_name == s)),
        forall|i: int| 0 <= i < a.len() && (#[trigger] a[i]).scenario_name == s ==> a[i] == b[i],
    ensures
        find_key_from(a, s, from) == find_key_from(b, s, from),
    decreases a.len() - from,
{
    if from >= a.len() {
    } else if a[from].scenario_name == s {
    } else {
        lemma_find_key_from_congr(a, b, s, from + 1);
    }
}

/// What the fold's output holds for scenario `s`: an entry exactly when
/// some record carries `s`, and then exactly the record at `best_idx`.
pub proof fn lemma_reduce_spec_entries(rs: Seq<StatsView>, s: Seq<char>)
    ensures
        has_scen(rs, s) <==> find_key_from(reduce_spec(rs), s, 0) < reduce_spec(rs).len(),
        has_scen(rs, s) ==> reduce_spec(rs)[find_key_from(reduce_spec(rs), s, 0)] == rs[best_idx(
            rs,
            s,
        )],
    decreases rs.len(),
{
    if rs.len() == 0 {
        lemma_find_key_from_props(reduce_spec(rs), s, 0);
        if has_scen(rs, s) {
            let w = choose|i: int| 0 <= i < rs.len() && (#[trigger] rs[i]).scenario_name == s;
            assert(false);
        }
    } else {
        let pre = rs.drop_last();
        let li = rs.len() - 1;
        let r = rs.last();
        let acc = reduce_spec(pre);
        let j = find_key_from(acc, r.scenario_name, 0);
        let out = reduce_spec(rs);
        lemma_reduce_spec_entries(pre, s);
        lemma_reduce_spec_entries(pre, r.scenario_name);
        lemma_find_key_from_props(acc, s, 0);
        lemma_find_key_from_props(acc, r.scenario_name, 0);
        let fs = find_key_from(acc, s, 0);
        if r.scenario_name == s {
            if j == acc.len() {
                assert(out == acc.push(r));
                assert(!has_scen(pre, s));
                assert(best_idx(rs, s) == li);
                lemma_find_key_first(out, s, j);
                assert(find_key_from(out, s, 0) == j);
                assert(out[j] == r);
                assert(rs[li] == r);
                assert(has_scen(rs, s));
            } else {
                assert(has_scen(pre, s));
                lemma_best_idx_props(pre, s);
                let prev = best_idx(pre, s);
                assert(pre[prev] == rs[prev]);
                if dec_gt(r.score, acc[j].score) {
                    assert(out == acc.update(j, r));
                    assert(best_idx(rs, s) == li);
                    lemma_find_key_first(out, s, j);
                    assert(find_key_from(out, s, 0) == j);
                    assert(out[j] == r);
                    assert(rs[li] == r);
                } else {
                    assert(out == acc);
                    assert(pre[prev] == rs[prev]);
                    assert(best_idx(rs, s) == prev);
                }
                assert(has_scen(rs, s));
            }
        } else {
            assert(has_scen(rs, s) <==> has_scen(pre, s)) by {
                if has_scen(rs, s) {
                    let w = choose|i: int|
                        0 <= i < rs.len() && (#[trigger] rs[i]).scenario_name == s;
                    assert(w < li);
                    assert(pre[w].scenario_name == s);
                }
                if has_scen(pre, s) {
                    let w = choose|i: int|
                        0 <= i < pre.len() && (#[trigger] pre[i]).scenario_name == s;
                    assert(rs[w].scenario_name == s);
                }
            }
            assert(best_idx(rs, s) == best_idx(pre, s));
            if has_scen(pre, s) {
                assert(pre[best_idx(pre, s)] == rs[best_idx(pre, s)]) by {
                    lemma_best_idx_props(pre, s);
                }
            }
            if j == acc.len() {
                assert(out == acc.push(r));
                lemma_find_key_from_step(acc, r, s);
            } else if dec_gt(r.score, acc[j].score) {
                assert(out == acc.update(j, r));
                assert(acc[j].scenario_name == r.scenario_name);
                lemma_find_key_from_congr(acc, out, s, 0);
                if fs < acc.len() {
                    assert(out[fs] == acc[fs]);
                }
            } else {
                assert(out == acc);
            }
        }
    }
}

/// Appending a record of another scenario does not change what the scan
/// finds.
proof fn lemma_find_key_from_step(acc: Seq<StatsView>, r: StatsView, s: Seq<char>)
    requires
        r.scenario_name != s,
    ensures
        find_key_from(acc, s, 0) < acc.len() ==> find_key_from(acc.push(r), s, 0) == find_key_from(
            acc,
            s,
            0,
        ) && acc.push(r)[find_key_from(acc, s, 0)] == acc[find_key_from(acc, s, 0)],
        find_key_from(acc, s, 0) == acc.len() ==> find_key_from(acc.push(r), s, 0) == acc.push(
            r,
        ).len(),
{
    lemma_find_key_from_props(acc, s, 0);
    let fs = find_key_from(acc, s, 0);
    if fs < acc.len() {
        lemma_find_key_first(acc.push(r), s, fs);
    } else {
        lemma_find_key_none(acc.push(r), s);
    }
}

/// When everything before `j` misses `s` and `j` carries it, the scan
/// finds `j`.
proof fn lemma_find_key_first(acc: Seq<StatsView>, s: Seq<char>, j: int)
    requires
        0 <= j < acc.len(),
        acc[j].scenario_name == s,
        forall|t: int| 0 <= t < j ==> (#[trigger] acc[t]).scenario_name != s,
    ensures
        find_key_from(acc, s, 0) == j,
{
    lemma_find_key_first_from(acc, s, j, 0);
}

proof fn lemma_find_key_first_from(acc: Seq<StatsView>, s: Seq<char>, j: int, from: int)
    requires
        0 <= from <= j < acc.len(),
        acc[j].scenario_name == s,
        forall|t: int| from <= t < j ==> (#[trigger] acc[t]).scenario_name != s,
    ensures
        find_key_from(acc, s, from) == j,
    decreases j - from,
{
    if from < j {
        lemma_find_key_first_from(acc, s, j, from + 1);
    }
}

/// When no position carries `s`, the scan reports the length.
proof fn lemma_find_key_none(acc: Seq<StatsView>, s: Seq<char>)
    requires
        forall|t: int| 0 <= t < acc.len() ==> (#[trigger] acc[t]).scenario_name != s,
    ensures
        find_key_from(acc, s, 0) == acc.len(),
{
    lemma_find_key_from_props(acc, s, 0);
    if find_key_from(acc, s, 0) < acc.len() {
        assert(false);
    }
}

/// The reduction keeps one entry per distinct scenario: no two entries of
/// its output share a scenario identifier.
pub proof fn lemma_reduce_keys_distinct(rs: Seq<StatsView>)
    ensures
        forall|j1: int, j2: int|
            0 <= j1 < j2 < reduce_spec(rs).len() ==> (#[trigger] reduce_spec(rs)[j1]).scenario_name
                != (#[trigger] reduce_spec(rs)[j2]).scenario_name,
    decreases rs.len(),
{
    if rs.len() > 0 {
        let pre = rs.drop_last();
        let acc = reduce_spec(pre);
        let r = rs.last();
        let j = find_key_from(acc, r.scenario_name, 0);
        let out = reduce_spec(rs);
        lemma_reduce_keys_distinct(pre);
        lemma_find_key_from_props(acc, r.scenario_name, 0);
        if j == acc.len() {
            assert(out == acc.push(r));
            assert forall|j1: int, j2: int| 0 <= j1 < j2 < out.len() implies (
            #[trigger] out[j1]).scenario_name != (#[trigger] out[j2]).scenario_name by {
                if j2 == acc.len() {
                    assert(out[j1] == acc[j1]);
                    assert(out[j2] == r);
                } else {
                    assert(out[j1] == acc[j1] && out[j2] == acc[j2]);
                }
            }
        } else if dec_gt(r.score, acc[j].score) {
            assert(out == acc.update(j, r));
            assert(acc[j].scenario_name == r.scenario_name);
            assert forall|j1: int, j2: int| 0 <= j1 < j2 < out.len() implies (
            #[trigger] out[j1]).scenario_name != (#[trigger] out[j2]).scenario_name by {
                assert(out[j1] == if j1 == j {
                    r
                } else {
                    acc[j1]
                });
                assert(out[j2] == if j2 == j {
                    r
                } else {
                    acc[j2]
                });
            }
        } else {
            assert(out == acc);
        }
    }
}

/// For records sharing one scenario, the reduction's retained record has
/// the maximum score among them, and of two records with the equal maximum
/// score the first encountered is retained.
pub proof fn lemma_best_per_scenario(rs: Seq<StatsView>, s: Seq<char>)
    requires
        has_scen(rs, s),
    ensures
        ({
            let out = reduce_spec(rs);
            let j = find_key_from(out, s, 0);
            let b = best_idx(rs, s);
            &&& 0 <= j < out.len()
            &&& 0 <= b < rs.len()
            &&& out[j] == rs[b]
            &&& rs[b].scenario_name == s
            &&& forall|i: int|
                0 <= i < rs.len() && (#[trigger] rs[i]).scenario_name == s ==> !dec_gt(
                    rs[i].score,
                    rs[b].score,
                )
            &&& forall|i: int|
                0 <= i < b && (#[trigger] rs[i]).scenario_name == s ==> dec_gt(
                    rs[b].score,
                    rs[i].score,
                )
        }),
{
    lemma_reduce_spec_entries(rs, s);
    lemma_best_idx_props(rs, s);
    lemma_find_key_from_props(reduce_spec(rs), s, 0);
}

/// Reduces records to the best per scenario, in first-seen scenario order.
pub fn reduce(records: Vec<StatsResult>) -> (out: Vec<StatsResult>)
    requires
        all_wf(stats_views(records@)),
    ensures
        stats_views(out@) == reduce_spec(stats_views(records@)),
        all_wf(stats_views(out@)),
{
    let ghost orig = stats_views(records@);
    let mut rest = records;
    let mut out: Vec<StatsResult> = Vec::new();
    proof {
        assert(stats_views(rest@) =~= orig.subrange(0, orig.len() as int));
        assert(orig.subrange(0, 0) =~= Seq::<StatsView>::empty());
        assert(stats_views(out@) =~= reduce_spec(orig.subrange(0, 0)));
    }
    while rest.len() > 0
        invariant
            rest@.len() <= orig.len(),
            stats_views(rest@) == orig.subrange(
                orig.len() - rest@.len(),
                orig.len() as int,
            ),
            stats_views(out@) == reduce_spec(orig.subrange(0, orig.len() - rest@.len())),
            all_wf(orig),
            all_wf(stats_views(out@)),
        decreases rest@.len(),
    {
        let ghost k: int = orig.len() - rest@.len();
        let ghost old_rest = rest@;
        let r = rest.remove(0);
        proof {
            assert(stats_views(old_rest)[0] == old_rest[0]@);
            assert(r@ == orig[k]);
            assert(rest@ =~= old_rest.subrange(1, old_rest.len() as int));
            assert forall|t: int| 0 <= t < rest@.len() implies (#[trigger] stats_views(rest@)[t])
                == orig[k + 1 + t] by {
                assert(stats_views(rest@)[t] == rest@[t]@);
                assert(rest@[t] == old_rest[t + 1]);
                assert(stats_views(old_rest)[t + 1] == old_rest[t + 1]@);
            }
            assert(stats_views(rest@) =~= orig.subrange(k + 1, orig.len() as int));
            assert(stats_wf(r@));
        }
        let ghost ov = stats_views(out@);
        let mut j: usize = 0;
        let n: usize = out.len();
        loop
            invariant_except_break
                j <= n,
                n == out@.len(),
                ov == stats_views(out@),
                find_key_from(ov, r@.scenario_name, 0) == find_key_from(
                    ov,
                    r@.scenario_name,
                    j as int,
                ),
            ensures
                j <= n,
                n == out@.len(),
                ov == stats_views(out@),
                find_key_from(ov, r@.scenario_name, 0) == j as int,
            decreases n - j,
        {
            if j >= n {
                break ;
            }
            proof {
                assert(ov[j as int] == out@[j as int]@);
            }
            if str_eq(out[j].scenario_name.as_str(), r.scenario_name.as_str()) {
                break ;
            }
            j = j + 1;
        }
        let ghost pre = orig.subrange(0, k);
        let ghost cur = orig.subrange(0, k + 1);
        proof {
            assert(cur.drop_last() =~= pre);
            assert(cur.last() == orig[k]);
        }
        if j == n {
            let ghost old_out = out@;
            out.push(r);
            proof {
                assert(stats_views(out@) =~= stats_views(old_out).push(orig[k]));
            }
        } else {
            proof {
                assert(ov[j as int] == out@[j as int]@);
                lemma_find_key_from_props(ov, r@.scenario_name, 0);
            }
            if decimal_gt(&r.score, &out[j].score) {
                let ghost old_out = out@;
                out.set(j, r);
                proof {
                    assert(stats_views(out@) =~= stats_views(old_out).update(j as int, orig[k]));
                }
            }
        }
        proof {
            assert(stats_views(out@) == reduce_spec(cur));
        }
    }
    proof {
        assert(orig.subrange(0, orig.len() as int) =~= orig);
    }
    out
}

} // verus!
