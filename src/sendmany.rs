use vstd::prelude::*;
use crate::glue::{dust_of, dust_threshold, placeholder_transaction_vsize, placeholder_vsize, MAX_SCRIPT_LEN};
use crate::model::{InscriptionId, InscriptionIdView, OutPoint, OutPointView, TxOutput};
use crate::requests::{has_inscription, requests_view, Destination, Request, RequestView};
use crate::wallet::{located_index_from, Located, LocatedView, WalletState, WalletView};

verus! {

/// What a send reports: the signed transaction as hex, or its id once broadcast.
#[derive(Debug)]
pub struct Output {
    pub tx: String,
}

/// Why a build produced no transaction.
#[derive(Debug)]
pub enum BuildError {
    /// A requested inscription is not in the wallet.
    Missing { inscription: InscriptionId },
    /// `inscription` shares an output with the requested `alongside` but was not requested.
    Unrequested { inscription: InscriptionId, alongside: InscriptionId },
    /// The first inscription of a claimed output does not start it.
    NonzeroOffset { outpoint: OutPoint, offset: u64 },
    /// The output that `inscription` would get is worth less than its script's dust threshold.
    BelowDust { inscription: InscriptionId, value: u64, dust: u64 },
    /// No unspent output is free of inscriptions and unlocked.
    NoCardinals,
    /// The cardinal cannot pay the fee and leave a change output above dust.
    CardinalTooSmall { have: u64, fee: u128, dust: u64, needed: u128 },
}

pub enum BuildErrorView {
    Missing { inscription: InscriptionIdView },
    Unrequested { inscription: InscriptionIdView, alongside: InscriptionIdView },
    NonzeroOffset { outpoint: OutPointView, offset: u64 },
    BelowDust { inscription: InscriptionIdView, value: u64, dust: u64 },
    NoCardinals,
    CardinalTooSmall { have: u64, fee: u128, dust: u64, needed: u128 },
}

impl View for BuildError {
    type V = BuildErrorView;

    open spec fn view(&self) -> BuildErrorView {
        match self {
            BuildError::Missing { inscription } => BuildErrorView::Missing { inscription: inscription@ },
            BuildError::Unrequested { inscription, alongside } => BuildErrorView::Unrequested {
                inscription: inscription@,
                alongside: alongside@,
            },
            BuildError::NonzeroOffset { outpoint, offset } => BuildErrorView::NonzeroOffset {
                outpoint: outpoint@,
                offset: *offset,
            },
            BuildError::BelowDust { inscription, value, dust } => BuildErrorView::BelowDust {
                inscription: inscription@,
                value: *value,
                dust: *dust,
            },
            BuildError::NoCardinals => BuildErrorView::NoCardinals,
            BuildError::CardinalTooSmall { have, fee, dust, needed } => BuildErrorView::CardinalTooSmall {
                have: *have,
                fee: *fee,
                dust: *dust,
                needed: *needed,
            },
        }
    }
}

pub open spec fn outputs_view(outs: Seq<TxOutput>) -> Seq<(Seq<u8>, u64)> {
    outs.map_values(|o: TxOutput| o@)
}

pub open spec fn located_view(ls: Seq<Located>) -> Seq<LocatedView> {
    ls.map_values(|l: Located| l@)
}

/// The entries of `insc` that sit on output `o`, in their order.
pub open spec fn on_output(insc: Seq<LocatedView>, o: OutPointView) -> Seq<LocatedView>
    decreases insc.len(),
{
    if insc.len() == 0 {
        Seq::empty()
    } else if insc.last().satpoint.outpoint == o {
        on_output(insc.drop_last(), o).push(insc.last())
    } else {
        on_output(insc.drop_last(), o)
    }
}

/// The first request at or after `i` for this inscription, or the length.
pub open spec fn request_index_from(reqs: Seq<RequestView>, id: InscriptionIdView, i: int) -> int
    decreases reqs.len() - i,
{
    if i >= reqs.len() {
        reqs.len() as int
    } else if reqs[i].inscription == id {
        i
    } else {
        request_index_from(reqs, id, i + 1)
    }
}

/// The script that the requests send this inscription to.
pub open spec fn destination_of(reqs: Seq<RequestView>, id: InscriptionIdView) -> Seq<u8> {
    reqs[request_index_from(reqs, id, 0)].script_pubkey
}

/// The value of the output for entry `i` of one output worth `total`: the sats up to the
/// next entry's offset, or up to the end for the last entry.
pub open spec fn split_value(entries: Seq<LocatedView>, total: u64, i: int) -> int {
    if i + 1 < entries.len() {
        entries[i + 1].satpoint.offset - entries[i].satpoint.offset
    } else {
        total - entries[i].satpoint.offset
    }
}

/// The first entry at or after `i` that no request names, or the length.
pub open spec fn first_unrequested(reqs: Seq<RequestView>, entries: Seq<LocatedView>, i: int) -> int
    decreases entries.len() - i,
{
    if i >= entries.len() {
        entries.len() as int
    } else if !has_inscription(reqs, entries[i].inscription) {
        i
    } else {
        first_unrequested(reqs, entries, i + 1)
    }
}

/// The first entry at or after `i` whose output would be below its dust threshold, or the length.
pub open spec fn first_below_dust(reqs: Seq<RequestView>, entries: Seq<LocatedView>, total: u64, i: int) -> int
    decreases entries.len() - i,
{
    if i >= entries.len() {
        entries.len() as int
    } else if split_value(entries, total, i) < dust_of(destination_of(reqs, entries[i].inscription)) {
        i
    } else {
        first_below_dust(reqs, entries, total, i + 1)
    }
}

/// The outputs that claiming output `o` (worth `total`) adds: one per entry, in order.
pub open spec fn split_outputs(reqs: Seq<RequestView>, entries: Seq<LocatedView>, total: u64) -> Seq<(Seq<u8>, u64)> {
    Seq::new(
        entries.len(),
        |i: int| (destination_of(reqs, entries[i].inscription), split_value(entries, total, i) as u64),
    )
}

/// Claiming output `o`, which holds `entries` and is worth `total`, for the request of
/// `alongside`: every inscription on it must be requested, the first must start it, and
/// each split must reach its dust threshold.
pub open spec fn split_claim(
    reqs: Seq<RequestView>,
    entries: Seq<LocatedView>,
    o: OutPointView,
    total: u64,
    alongside: InscriptionIdView,
) -> Result<Seq<(Seq<u8>, u64)>, BuildErrorView> {
    let u = first_unrequested(reqs, entries, 0);
    let d = first_below_dust(reqs, entries, total, 0);
    if u < entries.len() {
        Err(BuildErrorView::Unrequested { inscription: entries[u].inscription, alongside })
    } else if entries[0].satpoint.offset != 0 {
        Err(BuildErrorView::NonzeroOffset { outpoint: o, offset: entries[0].satpoint.offset })
    } else if d < entries.len() {
        Err(
            BuildErrorView::BelowDust {
                inscription: entries[d].inscription,
                value: split_value(entries, total, d) as u64,
                dust: dust_of(destination_of(reqs, entries[d].inscription)),
            },
        )
    } else {
        Ok(split_outputs(reqs, entries, total))
    }
}

/// Every request's script may be handed to the dust computation.
pub open spec fn scripts_bounded(reqs: Seq<RequestView>) -> bool {
    forall|k: int| 0 <= k < reqs.len() ==> (#[trigger] reqs[k]).script_pubkey.len() <= MAX_SCRIPT_LEN
}

/// The entries that sit on output `o`, in the order the snapshot lists them.
fn inscriptions_on_output(state: &WalletState, o: &OutPoint) -> (r: Vec<Located>)
    ensures
        located_view(r@) == on_output(state@.inscriptions, o@),
{
    let ghost s = state@.inscriptions;
    let mut r: Vec<Located> = Vec::new();
    let mut i: usize = 0;
    while i < state.inscriptions.len()
        invariant
            s == state@.inscriptions,
            i <= s.len(),
            located_view(r@) == on_output(s.take(i as int), o@),
        decreases s.len() - i,
    {
        assert(s.take(i + 1).drop_last() =~= s.take(i as int));
        assert(s.take(i + 1).last() == state.inscriptions@[i as int]@);
        if state.inscriptions[i].satpoint.outpoint.same(o) {
            let ghost before = located_view(r@);
            let l = state.inscriptions[i].clone();
            r.push(l);
            assert(located_view(r@) =~= before.push(l@));
        }
        i = i + 1;
    }
    assert(s.take(s.len() as int) =~= s);
    r
}

/// The position of the first request for this inscription, if any.
fn request_position(reqs: &Vec<Request>, id: &InscriptionId) -> (r: usize)
    ensures
        r as int == request_index_from(requests_view(reqs@), id@, 0),
        r <= reqs@.len(),
        r < reqs@.len() <==> has_inscription(requests_view(reqs@), id@),
{
    let ghost v = requests_view(reqs@);
    let mut i: usize = 0;
    while i < reqs.len()
        invariant
            v == requests_view(reqs@),
            i <= v.len(),
            request_index_from(v, id@, 0) == request_index_from(v, id@, i as int),
            forall|j: int| 0 <= j < i ==> (#[trigger] v[j]).inscription != id@,
        decreases v.len() - i,
    {
        assert(v[i as int] == reqs@[i as int]@);
        if reqs[i].inscription.same(id) {
            return i;
        }
        i = i + 1;
    }
    i
}

/// Splits one claimed output, worth `total`, among the inscriptions `entries` that sit on
/// it, as `split_claim` states.
fn split_output(
    reqs: &Vec<Request>,
    entries: &Vec<Located>,
    o: &OutPoint,
    total: u64,
    alongside: &InscriptionId,
) -> (r: Result<Vec<TxOutput>, BuildError>)
    requires
        entries@.len() > 0,
        scripts_bounded(requests_view(reqs@)),
        forall|a: int, b: int| 0 <= a < b < entries@.len() ==> entries@[a].satpoint.offset <= entries@[b].satpoint.offset,
        entries@[entries@.len() - 1].satpoint.offset <= total,
    ensures
        match split_claim(requests_view(reqs@), located_view(entries@), o@, total, alongside@) {
            Ok(v) => r matches Ok(q) && outputs_view(q@) == v,
            Err(e) => r matches Err(f) && f@ == e,
        },
{
    let ghost rv = requests_view(reqs@);
    let ghost ev = located_view(entries@);
    let n = entries.len();
    let mut i: usize = 0;
    while i < n
        invariant
            n == ev.len() == entries@.len(),
            rv == requests_view(reqs@),
            ev == located_view(entries@),
            i <= n,
            first_unrequested(rv, ev, 0) == first_unrequested(rv, ev, i as int),
        decreases n - i,
    {
        assert(ev[i as int] == entries@[i as int]@);
        if request_position(reqs, &entries[i].inscription) == reqs.len() {
            return Err(BuildError::Unrequested { inscription: entries[i].inscription.clone(), alongside: alongside.clone() });
        }
        i = i + 1;
    }
    assert(ev[0] == entries@[0]@);
    if entries[0].satpoint.offset != 0 {
        return Err(BuildError::NonzeroOffset { outpoint: o.clone(), offset: entries[0].satpoint.offset });
    }
    let mut outputs: Vec<TxOutput> = Vec::new();
    let mut i: usize = 0;
    while i < n
        invariant
            n == ev.len() == entries@.len(),
            rv == requests_view(reqs@),
            ev == located_view(entries@),
            scripts_bounded(rv),
            first_unrequested(rv, ev, 0) == n,
            ev[0].satpoint.offset == 0,
            forall|a: int, b: int| 0 <= a < b < entries@.len() ==> entries@[a].satpoint.offset <= entries@[b].satpoint.offset,
            entries@[n - 1].satpoint.offset <= total,
            i <= n,
            first_below_dust(rv, ev, total, 0) == first_below_dust(rv, ev, total, i as int),
            outputs_view(outputs@) == split_outputs(rv, ev, total).take(i as int),
        decreases n - i,
    {
        let e = &entries[i];
        assert(ev[i as int] == e@);
        let value: u64 = if i + 1 < n {
            assert(ev[i + 1] == entries@[i + 1]@);
            entries[i + 1].satpoint.offset - e.satpoint.offset
        } else {
            total - e.satpoint.offset
        };
        let k = request_position(reqs, &e.inscription);
        proof {
            if k == reqs@.len() {
                assert(first_unrequested(rv, ev, i as int) == i);
                assert(false) by {
                    lemma_first_unrequested_below(rv, ev, 0, i as int);
                }
            }
            assert(rv[k as int] == reqs@[k as int]@);
        }
        let script = &reqs[k].destination.script_pubkey;
        let dust = dust_threshold(script);
        assert(destination_of(rv, ev[i as int].inscription) == script@);
        assert(value as int == split_value(ev, total, i as int));
        if value < dust {
            assert(first_below_dust(rv, ev, total, i as int) == i);
            return Err(BuildError::BelowDust { inscription: e.inscription.clone(), value, dust });
        }
        let ghost before = outputs_view(outputs@);
        let out = TxOutput { script_pubkey: script.clone(), value };
        outputs.push(out);
        assert(outputs_view(outputs@) =~= before.push(out@));
        i = i + 1;
        assert(outputs_view(outputs@) =~= split_outputs(rv, ev, total).take(i as int));
    }
    assert(split_outputs(rv, ev, total).take(n as int) =~= split_outputs(rv, ev, total));
    Ok(outputs)
}

pub proof fn lemma_first_unrequested_below(reqs: Seq<RequestView>, entries: Seq<LocatedView>, from: int, i: int)
    requires
        0 <= from <= i < entries.len(),
        first_unrequested(reqs, entries, from) >= entries.len(),
    ensures
        has_inscription(reqs, entries[i].inscription),
    decreases i - from,
{
    if from < i {
        lemma_first_unrequested_below(reqs, entries, from + 1, i);
    }
}

/// Where a build stands after some requests: the outputs it has claimed, in order, the
/// outputs it will create for their inscriptions, those inscriptions in the same order,
/// and the value of the claimed outputs.
pub struct Progress {
    pub claimed: Seq<OutPointView>,
    pub outputs: Seq<(Seq<u8>, u64)>,
    pub ordered: Seq<LocatedView>,
    pub input_total: nat,
}

/// One request taken from the queue: its inscription must be in the wallet; unless its
/// output was claimed already, the whole output is claimed and split.
pub open spec fn claim(reqs: Seq<RequestView>, w: WalletView, p: Progress, id: InscriptionIdView) -> Result<Progress, BuildErrorView> {
    let li = located_index_from(w.inscriptions, id, 0);
    if li >= w.inscriptions.len() {
        Err(BuildErrorView::Missing { inscription: id })
    } else {
        let o = w.inscriptions[li].satpoint.outpoint;
        if p.claimed.contains(o) {
            Ok(p)
        } else {
            let entries = on_output(w.inscriptions, o);
            match split_claim(reqs, entries, o, w.value_of(o), id) {
                Err(e) => Err(e),
                Ok(outs) => Ok(
                    Progress {
                        claimed: p.claimed.push(o),
                        outputs: p.outputs + outs,
                        ordered: p.ordered + entries,
                        input_total: (p.input_total + w.value_of(o)) as nat,
                    },
                ),
            }
        }
    }
}

/// The build after the first `n` requests, taken in the order of the request file.
pub open spec fn progress(reqs: Seq<RequestView>, w: WalletView, n: nat) -> Result<Progress, BuildErrorView>
    decreases n,
{
    if n == 0 {
        Ok(Progress { claimed: Seq::empty(), outputs: Seq::empty(), ordered: Seq::empty(), input_total: 0 })
    } else {
        match progress(reqs, w, (n - 1) as nat) {
            Err(e) => Err(e),
            Ok(p) => claim(reqs, w, p, reqs[n - 1].inscription),
        }
    }
}

/// Unspent, free of inscriptions and not locked.
pub open spec fn is_cardinal(w: WalletView, k: int) -> bool {
    !w.is_inscribed(w.unspent[k].outpoint) && !w.is_locked(w.unspent[k].outpoint)
}

/// The cardinal of greatest value among the first `n` unspent outputs, the later one
/// among equals, or -1 when there is none.
pub open spec fn best_cardinal(w: WalletView, n: nat) -> int
    decreases n,
{
    if n == 0 {
        -1
    } else {
        let b = best_cardinal(w, (n - 1) as nat);
        if is_cardinal(w, n - 1) && (b < 0 || w.unspent[n - 1].value >= w.unspent[b].value) {
            n - 1
        } else {
            b
        }
    }
}

/// The largest cardinal of the wallet, the later one among equals; `None` when the
/// wallet has no cardinal.
pub fn get_cardinals(state: &WalletState) -> (r: Option<usize>)
    ensures
        match r {
            Some(c) => c as int == best_cardinal(state@, state@.unspent.len()) && c < state@.unspent.len()
                && is_cardinal(state@, c as int)
                && forall|j: int| 0 <= j < state@.unspent.len() && is_cardinal(state@, j)
                    ==> state@.unspent[j].value <= state@.unspent[c as int].value,
            None => best_cardinal(state@, state@.unspent.len()) == -1
                && forall|j: int| 0 <= j < state@.unspent.len() ==> !is_cardinal(state@, j),
        },
{
    let ghost w = state@;
    let mut best: Option<usize> = None;
    let mut i: usize = 0;
    while i < state.unspent.len()
        invariant
            w == state@,
            i <= w.unspent.len(),
            match best {
                Some(c) => c as int == best_cardinal(w, i as nat) && c < i && is_cardinal(w, c as int)
                    && forall|j: int| 0 <= j < i && is_cardinal(w, j) ==> w.unspent[j].value <= w.unspent[c as int].value,
                None => best_cardinal(w, i as nat) == -1 && forall|j: int| 0 <= j < i ==> !is_cardinal(w, j),
            },
        decreases w.unspent.len() - i,
    {
        let u = &state.unspent[i];
        assert(w.unspent[i as int] == u@);
        let cardinal = !state.is_inscribed(&u.outpoint) && !state.is_locked(&u.outpoint);
        if cardinal {
            match best {
                None => {
                    best = Some(i);
                },
                Some(c) => {
                    assert(w.unspent[c as int] == state.unspent@[c as int]@);
                    if u.value >= state.unspent[c].value {
                        best = Some(i);
                    }
                },
            }
        }
        i = i + 1;
    }
    best
}

/// A fee rate in sats per 1000 virtual bytes.
#[derive(Debug, Clone, Copy)]
pub struct FeeRate {
    pub sats_per_kvb: u64,
}

/// The fee at `rate` for `vsize` virtual bytes, rounded to the nearest sat, halves up.
pub open spec fn fee_for(rate: u64, vsize: nat) -> nat {
    ((vsize * rate + 500) / 1000) as nat
}

impl FeeRate {
    pub fn fee(&self, vsize: usize) -> (r: u128)
        ensures
            r as nat == fee_for(self.sats_per_kvb, vsize as nat),
            r < 0xffff_ffff_ffff_ffff_0000_0000_0000_0000u128,
    {
        let a = vsize as u128;
        let b = self.sats_per_kvb as u128;
        assert(a * b <= 0xffff_ffff_ffff_ffff * 0xffff_ffff_ffff_ffffu128) by (nonlinear_arith)
            requires
                a <= 0xffff_ffff_ffff_ffffu128,
                b <= 0xffff_ffff_ffff_ffffu128,
        ;
        (a * b + 500) / 1000
    }
}

/// Each input of the estimate carries a witness of this many bytes: one Schnorr signature.
pub const SCHNORR_SIGNATURE_SIZE: usize = 64;

/// The transaction a build produces, before signing: inputs in order (the claimed outputs,
/// then the cardinal), outputs in order (one per inscription, then the change), the
/// inscriptions in output order, the fee and the estimated virtual size.
#[derive(Debug)]
pub struct Plan {
    pub inputs: Vec<OutPoint>,
    pub outputs: Vec<TxOutput>,
    pub inscriptions: Vec<Located>,
    pub fee: u64,
    pub vsize: usize,
}

pub struct PlanView {
    pub inputs: Seq<OutPointView>,
    pub outputs: Seq<(Seq<u8>, u64)>,
    pub inscriptions: Seq<LocatedView>,
    pub fee: u64,
    pub vsize: nat,
}

pub open spec fn outpoints_view(os: Seq<OutPoint>) -> Seq<OutPointView> {
    os.map_values(|o: OutPoint| o@)
}

impl View for Plan {
    type V = PlanView;

    open spec fn view(&self) -> PlanView {
        PlanView {
            inputs: outpoints_view(self.inputs@),
            outputs: outputs_view(self.outputs@),
            inscriptions: located_view(self.inscriptions@),
            fee: self.fee,
            vsize: self.vsize as nat,
        }
    }
}

/// What a build yields: the requests' outputs split and claimed, then the largest cardinal
/// appended as the last input, paying a fee estimated on a placeholder of the final shape,
/// with the rest of its value going to the change script as the last output.
pub open spec fn build_result(reqs: Seq<RequestView>, w: WalletView, rate: u64, change: Seq<u8>) -> Result<PlanView, BuildErrorView> {
    match progress(reqs, w, reqs.len()) {
        Err(e) => Err(e),
        Ok(p) => {
            let c = best_cardinal(w, w.unspent.len());
            if c < 0 {
                Err(BuildErrorView::NoCardinals)
            } else {
                let have = w.unspent[c].value;
                let vsize = placeholder_vsize(p.claimed.len() + 1, SCHNORR_SIGNATURE_SIZE as nat, p.outputs.push((change, 0u64)));
                let fee = fee_for(rate, vsize);
                let dust = dust_of(change);
                if have < fee + dust {
                    Err(BuildErrorView::CardinalTooSmall { have, fee: fee as u128, dust, needed: (fee + dust) as u128 })
                } else {
                    Ok(
                        PlanView {
                            inputs: p.claimed.push(w.unspent[c].outpoint),
                            outputs: p.outputs.push((change, (have - fee) as u64)),
                            inscriptions: p.ordered,
                            fee: fee as u64,
                            vsize,
                        },
                    )
                }
            }
        }
    }
}

/// Within one output, entries come in ascending offset order.
pub open spec fn sorted_per_output(insc: Seq<LocatedView>) -> bool {
    forall|a: int, b: int| 0 <= a < b < insc.len()
        && (#[trigger] insc[a]).satpoint.outpoint == (#[trigger] insc[b]).satpoint.outpoint
        ==> insc[a].satpoint.offset <= insc[b].satpoint.offset
}

pub proof fn lemma_on_output(insc: Seq<LocatedView>, o: OutPointView)
    ensures
        forall|i: int| 0 <= i < on_output(insc, o).len() ==> insc.contains(#[trigger] on_output(insc, o)[i])
            && on_output(insc, o)[i].satpoint.outpoint == o,
        sorted_per_output(insc) ==> forall|a: int, b: int| 0 <= a < b < on_output(insc, o).len()
            ==> (#[trigger] on_output(insc, o)[a]).satpoint.offset <= (#[trigger] on_output(insc, o)[b]).satpoint.offset,
        forall|k: int| 0 <= k < insc.len() && (#[trigger] insc[k]).satpoint.outpoint == o ==> on_output(insc, o).contains(insc[k]),
        insc.no_duplicates() ==> on_output(insc, o).no_duplicates(),
    decreases insc.len(),
{
    if insc.len() > 0 {
        let init = insc.drop_last();
        lemma_on_output(init, o);
        let on = on_output(insc, o);
        let prev = on_output(init, o);
        assert forall|i: int| 0 <= i < on.len() implies insc.contains(#[trigger] on[i]) && on[i].satpoint.outpoint == o by {
            if i < prev.len() {
                assert(on[i] == prev[i]);
                let k = choose|k: int| 0 <= k < init.len() && init[k] == prev[i];
                assert(insc[k] == init[k]);
            } else {
                assert(on[i] == insc[insc.len() - 1]);
            }
        }
        if sorted_per_output(insc) {
            assert(sorted_per_output(init)) by {
                assert forall|a: int, b: int| 0 <= a < b < init.len()
                    && (#[trigger] init[a]).satpoint.outpoint == (#[trigger] init[b]).satpoint.outpoint
                    implies init[a].satpoint.offset <= init[b].satpoint.offset by {
                    assert(init[a] == insc[a] && init[b] == insc[b]);
                }
            }
            assert forall|a: int, b: int| 0 <= a < b < on.len()
                implies (#[trigger] on[a]).satpoint.offset <= (#[trigger] on[b]).satpoint.offset by {
                if b < prev.len() {
                    assert(on[a] == prev[a] && on[b] == prev[b]);
                } else {
                    assert(on[a] == prev[a]);
                    let k = choose|k: int| 0 <= k < init.len() && init[k] == prev[a];
                    assert(insc[k] == init[k]);
                    assert(on[b] == insc[insc.len() - 1]);
                }
            }
        }
        if insc.no_duplicates() {
            assert(init.no_duplicates()) by {
                assert forall|a: int, b: int| 0 <= a < b < init.len() implies init[a] != init[b] by {
                    assert(init[a] == insc[a] && init[b] == insc[b]);
                }
            }
            assert forall|a: int, b: int| 0 <= a < b < on.len() implies on[a] != on[b] by {
                if b < prev.len() {
                    assert(on[a] == prev[a] && on[b] == prev[b]);
                } else {
                    assert(on[a] == prev[a]);
                    let k = choose|k: int| 0 <= k < init.len() && init[k] == prev[a];
                    assert(insc[k] == init[k]);
                    assert(on[b] == insc[insc.len() - 1]);
                }
            }
        }
        assert forall|k: int| 0 <= k < insc.len() && (#[trigger] insc[k]).satpoint.outpoint == o implies on.contains(insc[k]) by {
            if k < init.len() {
                assert(init[k] == insc[k]);
                let i = choose|i: int| 0 <= i < prev.len() && prev[i] == init[k];
                assert(on[i] == prev[i]);
            } else {
                assert(on[on.len() - 1] == insc[k]);
            }
        }
    }
}

proof fn lemma_error_stays(reqs: Seq<RequestView>, w: WalletView, n: nat, m: nat)
    requires
        n <= m,
        progress(reqs, w, n) is Err,
    ensures
        progress(reqs, w, m) == progress(reqs, w, n),
    decreases m - n,
{
    if n < m {
        lemma_error_stays(reqs, w, n, (m - 1) as nat);
    }
}

fn claimed_already(claimed: &Vec<OutPoint>, o: &OutPoint) -> (r: bool)
    ensures
        r == outpoints_view(claimed@).contains(o@),
{
    let ghost v = outpoints_view(claimed@);
    let mut i: usize = 0;
    while i < claimed.len()
        invariant
            v == outpoints_view(claimed@),
            i <= v.len(),
            forall|j: int| 0 <= j < i ==> v[j] != o@,
        decreases v.len() - i,
    {
        assert(v[i as int] == claimed@[i as int]@);
        if claimed[i].same(o) {
            return true;
        }
        i = i + 1;
    }
    false
}

/// Builds the transfer: every requested inscription goes to its destination, each claimed
/// output is split at its inscriptions' offsets, and the largest cardinal pays the fee,
/// its remainder going to `change`. The result is exactly `build_result`.
pub fn build(reqs: &Vec<Request>, state: &WalletState, fee_rate: FeeRate, change: &Destination) -> (r: Result<Plan, BuildError>)
    requires
        state@.wf(),
        scripts_bounded(requests_view(reqs@)),
        change.script_pubkey@.len() <= MAX_SCRIPT_LEN,
        reqs@.len() < usize::MAX,
    ensures
        match build_result(requests_view(reqs@), state@, fee_rate.sats_per_kvb, change.script_pubkey@) {
            Ok(v) => r matches Ok(p) && p@ == v,
            Err(e) => r matches Err(f) && f@ == e,
        },
{
    let ghost rv = requests_view(reqs@);
    let ghost w = state@;
    let mut claimed: Vec<OutPoint> = Vec::new();
    let mut outputs: Vec<TxOutput> = Vec::new();
    let mut ordered: Vec<Located> = Vec::new();
    let ghost mut total: nat = 0;
    assert(outpoints_view(claimed@) =~= Seq::<OutPointView>::empty());
    assert(outputs_view(outputs@) =~= Seq::<(Seq<u8>, u64)>::empty());
    assert(located_view(ordered@) =~= Seq::<LocatedView>::empty());
    let mut k: usize = 0;
    while k < reqs.len()
        invariant
            rv == requests_view(reqs@),
            rv.len() < usize::MAX,
            w == state@,
            w.wf(),
            scripts_bounded(rv),
            k <= rv.len(),
            claimed@.len() <= k,
            progress(rv, w, k as nat) == Ok::<Progress, BuildErrorView>(
                Progress {
                    claimed: outpoints_view(claimed@),
                    outputs: outputs_view(outputs@),
                    ordered: located_view(ordered@),
                    input_total: total,
                },
            ),
        decreases rv.len() - k,
    {
        let id = &reqs[k].inscription;
        assert(rv[k as int] == reqs@[k as int]@);
        let li = state.find_inscription(id);
        if li == state.inscriptions.len() {
            proof {
                lemma_error_stays(rv, w, (k + 1) as nat, rv.len());
            }
            return Err(BuildError::Missing { inscription: id.clone() });
        }
        assert(w.inscriptions[li as int] == state.inscriptions@[li as int]@);
        let o = &state.inscriptions[li].satpoint.outpoint;
        if !claimed_already(&claimed, o) {
            let entries = inscriptions_on_output(state, o);
            let u = state.find_utxo(o);
            proof {
                let ev = located_view(entries@);
                lemma_on_output(w.inscriptions, o@);
                assert(ev.contains(w.inscriptions[li as int]));
                assert forall|a: int, b: int| 0 <= a < b < entries@.len()
                    implies entries@[a].satpoint.offset <= entries@[b].satpoint.offset by {
                    assert(ev[a] == entries@[a]@ && ev[b] == entries@[b]@);
                }
                let last = ev[ev.len() - 1];
                assert(last == entries@[entries@.len() - 1]@);
                assert(w.inscriptions.contains(last));
                assert(w.unspent[u as int] == state.unspent@[u as int]@);
            }
            let value = state.unspent[u].value;
            let outs = match split_output(reqs, &entries, o, value, id) {
                Err(e) => {
                    proof {
                        lemma_error_stays(rv, w, (k + 1) as nat, rv.len());
                    }
                    return Err(e);
                },
                Ok(outs) => outs,
            };
            let ghost before_outputs = outputs_view(outputs@);
            let ghost before_ordered = located_view(ordered@);
            let ghost before_claimed = outpoints_view(claimed@);
            let mut outs = outs;
            let mut entries = entries;
            let ghost outs_v = outputs_view(outs@);
            let ghost entries_v = located_view(entries@);
            outputs.append(&mut outs);
            ordered.append(&mut entries);
            claimed.push(o.clone());
            proof {
                total = (total + value) as nat;
                assert(outputs_view(outputs@) =~= before_outputs + outs_v);
                assert(located_view(ordered@) =~= before_ordered + entries_v);
                assert(outpoints_view(claimed@) =~= before_claimed.push(o@));
            }
        }
        k = k + 1;
    }
    let c = match get_cardinals(state) {
        None => return Err(BuildError::NoCardinals),
        Some(c) => c,
    };
    let cardinal = &state.unspent[c];
    assert(w.unspent[c as int] == cardinal@);
    let ghost outputs_before = outputs_view(outputs@);
    outputs.push(TxOutput { script_pubkey: change.script_pubkey.clone(), value: 0 });
    assert(outputs_view(outputs@) =~= outputs_before.push((change.script_pubkey@, 0u64)));
    let vsize = placeholder_transaction_vsize(claimed.len() + 1, SCHNORR_SIGNATURE_SIZE, &outputs);
    let fee = fee_rate.fee(vsize);
    let dust = dust_threshold(&change.script_pubkey);
    if (cardinal.value as u128) < fee + dust as u128 {
        return Err(BuildError::CardinalTooSmall { have: cardinal.value, fee, dust, needed: fee + dust as u128 });
    }
    let last = outputs.len() - 1;
    let change_value = cardinal.value - fee as u64;
    outputs.set(last, TxOutput { script_pubkey: change.script_pubkey.clone(), value: change_value });
    assert(outputs_view(outputs@) =~= outputs_before.push((change.script_pubkey@, change_value)));
    let ghost claimed_before = outpoints_view(claimed@);
    claimed.push(cardinal.outpoint.clone());
    assert(outpoints_view(claimed@) =~= claimed_before.push(cardinal.outpoint@));
    Ok(Plan { inputs: claimed, outputs, inscriptions: ordered, fee: fee as u64, vsize })
}

/// The sequence number that signals replace-by-fee and leaves lock time off.
pub const ENABLE_RBF_NO_LOCKTIME: u32 = 0xffff_fffd;

/// An input of an unsigned transaction: the output it spends and its sequence number.
#[derive(Debug)]
pub struct TxInput {
    pub previous_output: OutPoint,
    pub sequence: u32,
}

/// A transaction ready to be signed: no input carries a script or witness yet.
#[derive(Debug)]
pub struct UnsignedTransaction {
    pub version: i32,
    pub lock_time: u32,
    pub inputs: Vec<TxInput>,
    pub outputs: Vec<TxOutput>,
}

/// A version 1 transaction with no lock time that spends `inputs` in order, each
/// signalling replace-by-fee, and creates `outputs` in order.
pub fn build_transaction(inputs: &Vec<OutPoint>, outputs: Vec<TxOutput>) -> (r: UnsignedTransaction)
    ensures
        r.version == 1,
        r.lock_time == 0,
        outputs_view(r.outputs@) == outputs_view(outputs@),
        r.inputs@.len() == inputs@.len(),
        forall|i: int| 0 <= i < inputs@.len() ==> (#[trigger] r.inputs@[i]).previous_output@ == inputs@[i]@
            && r.inputs@[i].sequence == ENABLE_RBF_NO_LOCKTIME,
{
    let mut ins: Vec<TxInput> = Vec::new();
    let mut i: usize = 0;
    while i < inputs.len()
        invariant
            i <= inputs@.len(),
            ins@.len() == i,
            forall|j: int| 0 <= j < i ==> (#[trigger] ins@[j]).previous_output@ == inputs@[j]@
                && ins@[j].sequence == ENABLE_RBF_NO_LOCKTIME,
        decreases inputs@.len() - i,
    {
        ins.push(TxInput { previous_output: inputs[i].clone(), sequence: ENABLE_RBF_NO_LOCKTIME });
        i = i + 1;
    }
    UnsignedTransaction { version: 1, lock_time: 0, inputs: ins, outputs }
}

} // verus!
