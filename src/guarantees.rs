use vstd::prelude::*;
use crate::glue::dust_of;
use crate::model::{InscriptionIdView, OutPointView};
use crate::requests::{has_inscription, ids_distinct, RequestView};
use crate::sendmany::{
    best_cardinal, is_cardinal, SCHNORR_SIGNATURE_SIZE, fee_for, build_result, claim, destination_of, first_below_dust, first_unrequested, on_output, progress, sorted_per_output,
    split_outputs, split_value, lemma_first_unrequested_below, lemma_on_output, BuildErrorView, PlanView, Progress,
};
use crate::wallet::{located_index_from, utxo_index_from, LocatedView, WalletView};

verus! {

/// The sats that a list of outputs carries.
pub open spec fn sum_outputs(s: Seq<(Seq<u8>, u64)>) -> nat
    decreases s.len(),
{
    if s.len() == 0 {
        0
    } else {
        (sum_outputs(s.drop_last()) + s.last().1) as nat
    }
}

/// The sats that a list of the wallet's outputs carries, when spent.
pub open spec fn sum_inputs(w: WalletView, os: Seq<OutPointView>) -> nat
    decreases os.len(),
{
    if os.len() == 0 {
        0
    } else {
        (sum_inputs(w, os.drop_last()) + w.value_of(os.last())) as nat
    }
}

proof fn lemma_sum_concat(a: Seq<(Seq<u8>, u64)>, b: Seq<(Seq<u8>, u64)>)
    ensures
        sum_outputs(a + b) == sum_outputs(a) + sum_outputs(b),
    decreases b.len(),
{
    if b.len() > 0 {
        lemma_sum_concat(a, b.drop_last());
        assert((a + b).drop_last() =~= a + b.drop_last());
    } else {
        assert(a + b =~= a);
    }
}

pub open spec fn offsets_sorted(entries: Seq<LocatedView>) -> bool {
    forall|a: int, b: int| 0 <= a < b < entries.len() ==> (#[trigger] entries[a]).satpoint.offset <= (#[trigger] entries[b]).satpoint.offset
}

proof fn lemma_split_prefix(reqs: Seq<RequestView>, entries: Seq<LocatedView>, total: u64, m: int)
    requires
        0 <= m < entries.len(),
        offsets_sorted(entries),
    ensures
        sum_outputs(split_outputs(reqs, entries, total).take(m)) == entries[m].satpoint.offset - entries[0].satpoint.offset,
    decreases m,
{
    let s = split_outputs(reqs, entries, total);
    if m > 0 {
        lemma_split_prefix(reqs, entries, total, m - 1);
        assert(s.take(m).drop_last() =~= s.take(m - 1));
        assert(entries[m - 1].satpoint.offset <= entries[m].satpoint.offset);
    } else {
        assert(s.take(0) =~= Seq::<(Seq<u8>, u64)>::empty());
    }
}

/// One output split among its inscriptions: the parts add up to the output's value less
/// the sats before the first inscription.
proof fn lemma_split_sum(reqs: Seq<RequestView>, entries: Seq<LocatedView>, total: u64)
    requires
        entries.len() > 0,
        offsets_sorted(entries),
        entries[entries.len() - 1].satpoint.offset <= total,
    ensures
        sum_outputs(split_outputs(reqs, entries, total)) == total - entries[0].satpoint.offset,
{
    let s = split_outputs(reqs, entries, total);
    let n = entries.len() as int;
    lemma_split_prefix(reqs, entries, total, n - 1);
    assert(s.drop_last() =~= s.take(n - 1));
}

proof fn lemma_below_dust_none(reqs: Seq<RequestView>, entries: Seq<LocatedView>, total: u64, from: int, i: int)
    requires
        0 <= from <= i < entries.len(),
        first_below_dust(reqs, entries, total, from) >= entries.len(),
    ensures
        split_value(entries, total, i) >= dust_of(destination_of(reqs, entries[i].inscription)),
    decreases i - from,
{
    if from < i {
        lemma_below_dust_none(reqs, entries, total, from + 1, i);
    }
}

proof fn lemma_unrequested_found(reqs: Seq<RequestView>, entries: Seq<LocatedView>, from: int)
    requires
        0 <= from,
        first_unrequested(reqs, entries, from) < entries.len(),
    ensures
        !has_inscription(reqs, entries[first_unrequested(reqs, entries, from)].inscription),
    decreases entries.len() - from,
{
    if from < entries.len() && has_inscription(reqs, entries[from].inscription) {
        lemma_unrequested_found(reqs, entries, from + 1);
    }
}

/// Where request `j`'s inscription sits, when it is in the wallet.
pub open spec fn output_of_request(reqs: Seq<RequestView>, w: WalletView, j: int) -> OutPointView {
    w.inscriptions[located_index_from(w.inscriptions, reqs[j].inscription, 0)].satpoint.outpoint
}

proof fn lemma_located(insc: Seq<LocatedView>, id: InscriptionIdView, i: int)
    requires
        0 <= i <= insc.len(),
    ensures
        i <= located_index_from(insc, id, i) <= insc.len(),
        located_index_from(insc, id, i) < insc.len() ==> insc[located_index_from(insc, id, i)].inscription == id,
        located_index_from(insc, id, i) == insc.len() ==> forall|k: int| i <= k < insc.len() ==> (#[trigger] insc[k]).inscription != id,
    decreases insc.len() - i,
{
    if i < insc.len() && insc[i].inscription != id {
        lemma_located(insc, id, i + 1);
    }
}

/// What holds of the build after the first `n` requests, when it has not failed.
pub open spec fn progress_facts(reqs: Seq<RequestView>, w: WalletView, n: nat, p: Progress) -> bool {
    &&& p.outputs.len() == p.ordered.len()
    &&& sum_outputs(p.outputs) == p.input_total
    &&& p.input_total == sum_inputs(w, p.claimed)
    &&& forall|i: int| 0 <= i < p.outputs.len() ==> (#[trigger] p.outputs[i]).1 >= dust_of(p.outputs[i].0)
        && p.outputs[i].0 == destination_of(reqs, p.ordered[i].inscription)
    &&& forall|c: int| 0 <= c < p.claimed.len() ==> {
        let entries = on_output(w.inscriptions, #[trigger] p.claimed[c]);
        &&& entries.len() > 0
        &&& entries[0].satpoint.offset == 0
        &&& forall|e: int| 0 <= e < entries.len() ==> has_inscription(reqs, (#[trigger] entries[e]).inscription)
    }
    &&& forall|j: int| 0 <= j < n ==> located_index_from(w.inscriptions, (#[trigger] reqs[j]).inscription, 0) < w.inscriptions.len()
        && p.claimed.contains(output_of_request(reqs, w, j))
}

/// An unrequested error names an inscription that no request names.
pub open spec fn error_justified(reqs: Seq<RequestView>, e: BuildErrorView) -> bool {
    e matches BuildErrorView::Unrequested { inscription, .. } ==> !has_inscription(reqs, inscription)
}

proof fn lemma_progress(reqs: Seq<RequestView>, w: WalletView, n: nat)
    requires
        w.wf(),
        n <= reqs.len(),
    ensures
        match progress(reqs, w, n) {
            Ok(p) => progress_facts(reqs, w, n, p),
            Err(e) => error_justified(reqs, e),
        },
    decreases n,
{
    if n > 0 {
        lemma_progress(reqs, w, (n - 1) as nat);
        if let Ok(p) = progress(reqs, w, (n - 1) as nat) {
            lemma_step(reqs, w, n, p);
        }
    }
}

proof fn lemma_step(reqs: Seq<RequestView>, w: WalletView, n: nat, p: Progress)
    requires
        w.wf(),
        1 <= n <= reqs.len(),
        progress_facts(reqs, w, (n - 1) as nat, p),
    ensures
        match claim(reqs, w, p, reqs[n - 1].inscription) {
            Ok(q) => progress_facts(reqs, w, n, q),
            Err(e) => error_justified(reqs, e),
        },
{
    let id = reqs[n - 1].inscription;
    let li = located_index_from(w.inscriptions, id, 0);
    lemma_located(w.inscriptions, id, 0);
    if li < w.inscriptions.len() {
        let o = w.inscriptions[li].satpoint.outpoint;
        let entries = on_output(w.inscriptions, o);
        lemma_on_output(w.inscriptions, o);
        assert(entries.contains(w.inscriptions[li]));
        if p.claimed.contains(o) {
            assert forall|j: int| 0 <= j < n implies located_index_from(w.inscriptions, (#[trigger] reqs[j]).inscription, 0) < w.inscriptions.len()
                && p.claimed.contains(output_of_request(reqs, w, j)) by {
            }
        } else {
            let total = w.value_of(o);
            let u = first_unrequested(reqs, entries, 0);
            let d = first_below_dust(reqs, entries, total, 0);
            if u < entries.len() {
                lemma_unrequested_found(reqs, entries, 0);
            } else if entries[0].satpoint.offset == 0 && d >= entries.len() {
                lemma_fresh(reqs, w, n, p, o);
            }
        }
    }
}

#[verifier::rlimit(50)]
proof fn lemma_fresh(reqs: Seq<RequestView>, w: WalletView, n: nat, p: Progress, o: OutPointView)
    requires
        w.wf(),
        1 <= n <= reqs.len(),
        progress_facts(reqs, w, (n - 1) as nat, p),
        located_index_from(w.inscriptions, reqs[n - 1].inscription, 0) < w.inscriptions.len(),
        o == output_of_request(reqs, w, n - 1),
        !p.claimed.contains(o),
        first_unrequested(reqs, on_output(w.inscriptions, o), 0) >= on_output(w.inscriptions, o).len(),
        on_output(w.inscriptions, o)[0].satpoint.offset == 0,
        first_below_dust(reqs, on_output(w.inscriptions, o), w.value_of(o), 0) >= on_output(w.inscriptions, o).len(),
        on_output(w.inscriptions, o).len() > 0,
    ensures
        claim(reqs, w, p, reqs[n - 1].inscription) matches Ok(q) && progress_facts(reqs, w, n, q),
{
    let id = reqs[n - 1].inscription;
    let entries = on_output(w.inscriptions, o);
    let total = w.value_of(o);
    lemma_on_output(w.inscriptions, o);
    lemma_located(w.inscriptions, id, 0);
    let outs = split_outputs(reqs, entries, total);
    let q = Progress {
        claimed: p.claimed.push(o),
        outputs: p.outputs + outs,
        ordered: p.ordered + entries,
        input_total: (p.input_total + total) as nat,
    };
    assert(claim(reqs, w, p, id) == Ok::<Progress, BuildErrorView>(q));
    assert(sorted_per_output(w.inscriptions));
    let last = entries[entries.len() - 1];
    assert(w.inscriptions.contains(last));
    assert(offsets_sorted(entries));
    lemma_split_sum(reqs, entries, total);
    lemma_sum_concat(p.outputs, outs);
    assert(q.claimed.drop_last() =~= p.claimed);
    assert forall|i: int| 0 <= i < q.outputs.len() implies (#[trigger] q.outputs[i]).1 >= dust_of(q.outputs[i].0)
        && q.outputs[i].0 == destination_of(reqs, q.ordered[i].inscription) by {
        if i >= p.outputs.len() {
            let k = i - p.outputs.len();
            assert(q.outputs[i] == outs[k]);
            assert(q.ordered[i] == entries[k]);
            lemma_below_dust_none(reqs, entries, total, 0, k);
            assert(entries[k].satpoint.offset <= last.satpoint.offset);
            if k + 1 < entries.len() {
                assert(entries[k].satpoint.offset <= entries[k + 1].satpoint.offset);
            }
        } else {
            assert(q.outputs[i] == p.outputs[i]);
            assert(q.ordered[i] == p.ordered[i]);
        }
    }
    assert forall|c: int| 0 <= c < q.claimed.len() implies {
        let es = on_output(w.inscriptions, #[trigger] q.claimed[c]);
        &&& es.len() > 0
        &&& es[0].satpoint.offset == 0
        &&& forall|e: int| 0 <= e < es.len() ==> has_inscription(reqs, (#[trigger] es[e]).inscription)
    } by {
        if c < p.claimed.len() {
            assert(q.claimed[c] == p.claimed[c]);
        } else {
            assert forall|e: int| 0 <= e < entries.len() implies has_inscription(reqs, (#[trigger] entries[e]).inscription) by {
                lemma_first_unrequested_below(reqs, entries, 0, e);
            }
        }
    }
    assert forall|j: int| 0 <= j < n implies located_index_from(w.inscriptions, (#[trigger] reqs[j]).inscription, 0) < w.inscriptions.len()
        && q.claimed.contains(output_of_request(reqs, w, j)) by {
        if j < n - 1 {
            let c = choose|c: int| 0 <= c < p.claimed.len() && p.claimed[c] == output_of_request(reqs, w, j);
            assert(q.claimed[c] == p.claimed[c]);
        } else {
            assert(q.claimed[q.claimed.len() - 1] == o);
        }
    }
}

proof fn lemma_best_cardinal(w: WalletView, n: nat)
    requires
        n <= w.unspent.len(),
    ensures
        -1 <= best_cardinal(w, n) < n,
        best_cardinal(w, n) >= 0 ==> is_cardinal(w, best_cardinal(w, n)),
    decreases n,
{
    if n > 0 {
        lemma_best_cardinal(w, (n - 1) as nat);
    }
}

proof fn lemma_utxo_index(w: WalletView, c: int, i: int)
    requires
        w.wf(),
        0 <= i <= c < w.unspent.len(),
    ensures
        utxo_index_from(w.unspent, w.unspent[c].outpoint, i) == c,
    decreases c - i,
{
    if i < c {
        assert(w.unspent[i].outpoint != w.unspent[c].outpoint);
        lemma_utxo_index(w, c, i + 1);
    }
}

/// Value is conserved: the outputs of a built transaction and its fee add up to exactly
/// the value of its inputs.
pub proof fn law_value_conserved(reqs: Seq<RequestView>, w: WalletView, rate: u64, change: Seq<u8>)
    requires
        w.wf(),
        build_result(reqs, w, rate, change) is Ok,
    ensures
        ({
            let plan = build_result(reqs, w, rate, change)->Ok_0;
            sum_outputs(plan.outputs) + plan.fee == sum_inputs(w, plan.inputs)
        }),
{
    lemma_progress(reqs, w, reqs.len());
    let p = progress(reqs, w, reqs.len())->Ok_0;
    let c = best_cardinal(w, w.unspent.len());
    lemma_best_cardinal(w, w.unspent.len());
    lemma_utxo_index(w, c, 0);
    let plan = build_result(reqs, w, rate, change)->Ok_0;
    assert(plan.outputs.drop_last() =~= p.outputs);
    assert(plan.inputs.drop_last() =~= p.claimed);
}

/// No output of a built transaction is below the dust threshold of its script.
pub proof fn law_above_dust(reqs: Seq<RequestView>, w: WalletView, rate: u64, change: Seq<u8>)
    requires
        w.wf(),
        build_result(reqs, w, rate, change) is Ok,
    ensures
        ({
            let plan = build_result(reqs, w, rate, change)->Ok_0;
            forall|i: int| 0 <= i < plan.outputs.len() ==> (#[trigger] plan.outputs[i]).1 >= dust_of(plan.outputs[i].0)
        }),
{
    lemma_progress(reqs, w, reqs.len());
    let p = progress(reqs, w, reqs.len())->Ok_0;
    let plan = build_result(reqs, w, rate, change)->Ok_0;
    assert forall|i: int| 0 <= i < plan.outputs.len() implies (#[trigger] plan.outputs[i]).1 >= dust_of(plan.outputs[i].0) by {
        if i < p.outputs.len() {
            assert(plan.outputs[i] == p.outputs[i]);
        }
    }
}

/// An output that holds a requested inscription and one that was not requested is never
/// split: the build fails, and an unrequested error names an unrequested inscription.
pub proof fn law_unrequested_fails(reqs: Seq<RequestView>, w: WalletView, rate: u64, change: Seq<u8>, j: int, k: int)
    requires
        w.wf(),
        0 <= j < reqs.len(),
        located_index_from(w.inscriptions, reqs[j].inscription, 0) < w.inscriptions.len(),
        0 <= k < w.inscriptions.len(),
        w.inscriptions[k].satpoint.outpoint == output_of_request(reqs, w, j),
        !has_inscription(reqs, w.inscriptions[k].inscription),
    ensures
        build_result(reqs, w, rate, change) matches Err(e) && error_justified(reqs, e),
{
    lemma_progress(reqs, w, reqs.len());
    let o = output_of_request(reqs, w, j);
    lemma_on_output(w.inscriptions, o);
    if let Ok(p) = progress(reqs, w, reqs.len()) {
        let c = choose|c: int| 0 <= c < p.claimed.len() && p.claimed[c] == o;
        let entries = on_output(w.inscriptions, p.claimed[c]);
        let e = choose|e: int| 0 <= e < entries.len() && entries[e] == w.inscriptions[k];
        assert(has_inscription(reqs, entries[e].inscription));
    }
}

/// A claimed output whose first inscription does not start it is never split: the build
/// fails.
pub proof fn law_leading_offset_fails(reqs: Seq<RequestView>, w: WalletView, rate: u64, change: Seq<u8>, j: int)
    requires
        w.wf(),
        0 <= j < reqs.len(),
        located_index_from(w.inscriptions, reqs[j].inscription, 0) < w.inscriptions.len(),
        on_output(w.inscriptions, output_of_request(reqs, w, j))[0].satpoint.offset != 0,
    ensures
        build_result(reqs, w, rate, change) is Err,
{
    lemma_progress(reqs, w, reqs.len());
    let o = output_of_request(reqs, w, j);
    if let Ok(p) = progress(reqs, w, reqs.len()) {
        let c = choose|c: int| 0 <= c < p.claimed.len() && p.claimed[c] == o;
        assert(on_output(w.inscriptions, p.claimed[c])[0].satpoint.offset == 0);
    }
}

/// A build is a function of its inputs: the same requests, snapshot, fee rate and change
/// script give the same transaction, or the same error.
pub proof fn law_deterministic(
    reqs1: Seq<RequestView>, w1: WalletView, rate1: u64, change1: Seq<u8>,
    reqs2: Seq<RequestView>, w2: WalletView, rate2: u64, change2: Seq<u8>,
)
    requires
        reqs1 == reqs2,
        w1 == w2,
        rate1 == rate2,
        change1 == change2,
    ensures
        build_result(reqs1, w1, rate1, change1) == build_result(reqs2, w2, rate2, change2),
{
}

/// The inscriptions a build has placed so far: each from the wallet, on a claimed output,
/// none twice, all of every claimed output, and each output's in ascending offset order.
pub open spec fn order_facts(w: WalletView, p: Progress) -> bool {
    &&& forall|i: int| 0 <= i < p.ordered.len() ==> w.inscriptions.contains(#[trigger] p.ordered[i])
        && p.claimed.contains(p.ordered[i].satpoint.outpoint)
    &&& p.ordered.no_duplicates()
    &&& forall|k: int| 0 <= k < w.inscriptions.len() && p.claimed.contains((#[trigger] w.inscriptions[k]).satpoint.outpoint)
        ==> p.ordered.contains(w.inscriptions[k])
    &&& sorted_per_output(p.ordered)
}

proof fn lemma_wallet_no_duplicates(w: WalletView)
    requires
        w.wf(),
    ensures
        w.inscriptions.no_duplicates(),
{
    assert forall|a: int, b: int| 0 <= a < b < w.inscriptions.len() implies w.inscriptions[a] != w.inscriptions[b] by {
        assert(w.inscriptions[a].inscription != w.inscriptions[b].inscription);
    }
}

proof fn lemma_order(reqs: Seq<RequestView>, w: WalletView, n: nat)
    requires
        w.wf(),
        n <= reqs.len(),
    ensures
        progress(reqs, w, n) matches Ok(p) ==> order_facts(w, p),
    decreases n,
{
    if n > 0 {
        lemma_order(reqs, w, (n - 1) as nat);
        if let Ok(p) = progress(reqs, w, (n - 1) as nat) {
            let id = reqs[n - 1].inscription;
            let li = located_index_from(w.inscriptions, id, 0);
            if li < w.inscriptions.len() {
                let o = w.inscriptions[li].satpoint.outpoint;
                if !p.claimed.contains(o) {
                    if let Ok(q) = claim(reqs, w, p, id) {
                        lemma_order_fresh(w, p, q, o);
                    }
                }
            }
        }
    }
}

#[verifier::rlimit(50)]
proof fn lemma_order_fresh(w: WalletView, p: Progress, q: Progress, o: OutPointView)
    requires
        w.wf(),
        order_facts(w, p),
        !p.claimed.contains(o),
        q.claimed == p.claimed.push(o),
        q.ordered == p.ordered + on_output(w.inscriptions, o),
    ensures
        order_facts(w, q),
{
    let entries = on_output(w.inscriptions, o);
    lemma_wallet_no_duplicates(w);
    lemma_on_output(w.inscriptions, o);
    assert forall|i: int| 0 <= i < q.ordered.len() implies w.inscriptions.contains(#[trigger] q.ordered[i])
        && q.claimed.contains(q.ordered[i].satpoint.outpoint) by {
        if i < p.ordered.len() {
            assert(q.ordered[i] == p.ordered[i]);
            let c = choose|c: int| 0 <= c < p.claimed.len() && p.claimed[c] == p.ordered[i].satpoint.outpoint;
            assert(q.claimed[c] == p.claimed[c]);
        } else {
            assert(q.ordered[i] == entries[i - p.ordered.len()]);
            assert(q.claimed[q.claimed.len() - 1] == o);
        }
    }
    assert forall|a: int, b: int| 0 <= a < b < q.ordered.len() implies q.ordered[a] != q.ordered[b] by {
        if b < p.ordered.len() {
            assert(q.ordered[a] == p.ordered[a] && q.ordered[b] == p.ordered[b]);
        } else if a >= p.ordered.len() {
            assert(q.ordered[a] == entries[a - p.ordered.len()] && q.ordered[b] == entries[b - p.ordered.len()]);
        } else {
            assert(q.ordered[a] == p.ordered[a] && q.ordered[b] == entries[b - p.ordered.len()]);
            assert(p.claimed.contains(p.ordered[a].satpoint.outpoint));
        }
    }
    assert forall|k: int| 0 <= k < w.inscriptions.len() && q.claimed.contains((#[trigger] w.inscriptions[k]).satpoint.outpoint)
        implies q.ordered.contains(w.inscriptions[k]) by {
        let x = w.inscriptions[k];
        if x.satpoint.outpoint == o {
            let e = choose|e: int| 0 <= e < entries.len() && entries[e] == x;
            assert(q.ordered[p.ordered.len() + e] == x);
        } else {
            let c = choose|c: int| 0 <= c < q.claimed.len() && q.claimed[c] == x.satpoint.outpoint;
            assert(c < p.claimed.len());
            assert(p.claimed[c] == q.claimed[c]);
            assert(p.claimed.contains(x.satpoint.outpoint));
            let i = choose|i: int| 0 <= i < p.ordered.len() && p.ordered[i] == x;
            assert(q.ordered[i] == x);
        }
    }
    assert(sorted_per_output(w.inscriptions));
    assert forall|a: int, b: int| 0 <= a < b < q.ordered.len()
        && (#[trigger] q.ordered[a]).satpoint.outpoint == (#[trigger] q.ordered[b]).satpoint.outpoint
        implies q.ordered[a].satpoint.offset <= q.ordered[b].satpoint.offset by {
        if b < p.ordered.len() {
            assert(q.ordered[a] == p.ordered[a] && q.ordered[b] == p.ordered[b]);
        } else if a >= p.ordered.len() {
            assert(q.ordered[a] == entries[a - p.ordered.len()] && q.ordered[b] == entries[b - p.ordered.len()]);
        } else {
            assert(q.ordered[a] == p.ordered[a] && q.ordered[b] == entries[b - p.ordered.len()]);
            assert(p.claimed.contains(p.ordered[a].satpoint.outpoint));
        }
    }
}

/// One output per requested inscription, then the change: a built transaction has as
/// many outputs as there are requests plus one, places every requested inscription once,
/// sends each to its destination, and keeps the inscriptions of each output in ascending
/// offset order.
pub proof fn law_output_count(reqs: Seq<RequestView>, w: WalletView, rate: u64, change: Seq<u8>)
    requires
        w.wf(),
        ids_distinct(reqs),
        build_result(reqs, w, rate, change) is Ok,
    ensures
        ({
            let plan = build_result(reqs, w, rate, change)->Ok_0;
            &&& plan.outputs.len() == reqs.len() + 1
            &&& plan.inscriptions.len() == reqs.len()
            &&& sorted_per_output(plan.inscriptions)
            &&& forall|i: int| 0 <= i < plan.inscriptions.len() ==>
                (#[trigger] plan.outputs[i]).0 == destination_of(reqs, plan.inscriptions[i].inscription)
            &&& forall|j: int| 0 <= j < reqs.len() ==>
                exists|i: int| 0 <= i < plan.inscriptions.len() && (#[trigger] plan.inscriptions[i]).inscription == (#[trigger] reqs[j]).inscription
        }),
{
    lemma_progress(reqs, w, reqs.len());
    lemma_order(reqs, w, reqs.len());
    let p = progress(reqs, w, reqs.len())->Ok_0;
    let plan = build_result(reqs, w, rate, change)->Ok_0;
    let a = p.ordered.map_values(|l: LocatedView| l.inscription);
    let b = reqs.map_values(|r: RequestView| r.inscription);
    assert(a.no_duplicates()) by {
        assert forall|x: int, y: int| 0 <= x < y < a.len() implies a[x] != a[y] by {
            let kx = choose|k: int| 0 <= k < w.inscriptions.len() && w.inscriptions[k] == p.ordered[x];
            let ky = choose|k: int| 0 <= k < w.inscriptions.len() && w.inscriptions[k] == p.ordered[y];
            assert(p.ordered[x] != p.ordered[y]);
            if kx < ky {
                assert(w.inscriptions[kx].inscription != w.inscriptions[ky].inscription);
            } else if ky < kx {
                assert(w.inscriptions[ky].inscription != w.inscriptions[kx].inscription);
            }
        }
    }
    assert(b.no_duplicates()) by {
        assert forall|x: int, y: int| 0 <= x < y < b.len() implies b[x] != b[y] by {
            assert(reqs[x].inscription != reqs[y].inscription);
        }
    }
    assert forall|j: int| 0 <= j < reqs.len() implies
        exists|i: int| 0 <= i < p.ordered.len() && (#[trigger] p.ordered[i]).inscription == (#[trigger] reqs[j]).inscription by {
        let li = located_index_from(w.inscriptions, reqs[j].inscription, 0);
        lemma_located(w.inscriptions, reqs[j].inscription, 0);
        assert(p.claimed.contains(w.inscriptions[li].satpoint.outpoint));
        assert(p.ordered.contains(w.inscriptions[li]));
    }
    assert(a.to_set() =~= b.to_set()) by {
        assert forall|x: InscriptionIdView| a.to_set().contains(x) implies b.to_set().contains(x) by {
            let i = choose|i: int| 0 <= i < a.len() && a[i] == x;
            let l = p.ordered[i];
            let k = choose|k: int| 0 <= k < w.inscriptions.len() && w.inscriptions[k] == l;
            let c = choose|c: int| 0 <= c < p.claimed.len() && p.claimed[c] == l.satpoint.outpoint;
            lemma_on_output(w.inscriptions, p.claimed[c]);
            let es = on_output(w.inscriptions, p.claimed[c]);
            let e = choose|e: int| 0 <= e < es.len() && es[e] == w.inscriptions[k];
            assert(has_inscription(reqs, es[e].inscription));
            let j = choose|j: int| 0 <= j < reqs.len() && (#[trigger] reqs[j]).inscription == x;
            assert(b[j] == x);
        }
        assert forall|x: InscriptionIdView| b.to_set().contains(x) implies a.to_set().contains(x) by {
            let j = choose|j: int| 0 <= j < b.len() && b[j] == x;
            assert(reqs[j].inscription == x);
            let i = choose|i: int| 0 <= i < p.ordered.len() && (#[trigger] p.ordered[i]).inscription == reqs[j].inscription;
            assert(a[i] == x);
        }
    }
    a.unique_seq_to_set();
    b.unique_seq_to_set();
    assert forall|i: int| 0 <= i < plan.inscriptions.len() implies
        (#[trigger] plan.outputs[i]).0 == destination_of(reqs, plan.inscriptions[i].inscription) by {
        assert(plan.outputs[i] == p.outputs[i]);
    }
}

} // verus!
