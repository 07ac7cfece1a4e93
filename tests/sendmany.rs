use ord::model::{Chain, InscriptionId, OutPoint, SatPoint, Txid};
use ord::requests::{read_destination, Destination, Request};
use ord::sendmany::{build, build_transaction, get_cardinals, BuildError, FeeRate, Plan, ENABLE_RBF_NO_LOCKTIME};
use ord::wallet::{Located, Utxo, WalletState};

const DEST1: &str = "BC1QW508D6QEJXTDG4Y5R3ZARVARY0C5XW7KV8F3T4";
const DEST2: &str = "1A1zP1eP5QGefi2DMPTfTL5SLmv7DivfNa";
const CHANGE: &str = "bc1qw508d6qejxtdg4y5r3zarvary0c5xw7kv8f3t4";

fn txid(b: u8) -> Txid {
    Txid { bytes: vec![b; 32] }
}

fn outpoint(b: u8, vout: u32) -> OutPoint {
    OutPoint { txid: txid(b), vout }
}

fn id(b: u8, index: u32) -> InscriptionId {
    InscriptionId { txid: txid(b), index }
}

fn dest(address: &str) -> Destination {
    read_destination(&address.to_string(), Chain::Mainnet).unwrap()
}

fn request(b: u8, address: &str) -> Request {
    Request { inscription: id(b, 0), destination: dest(address) }
}

fn located(out: u8, offset: u64, ins: u8) -> Located {
    Located { satpoint: SatPoint { outpoint: outpoint(out, 0), offset }, inscription: id(ins, 0) }
}

fn utxo(out: u8, value: u64) -> Utxo {
    Utxo { outpoint: outpoint(out, 0), value }
}

fn wallet(unspent: Vec<Utxo>, inscriptions: Vec<Located>) -> WalletState {
    WalletState { unspent, locked: Vec::new(), inscriptions }
}

fn run(reqs: &Vec<Request>, state: &WalletState, sats_per_kvb: u64) -> Result<Plan, BuildError> {
    assert!(state.is_consistent());
    build(reqs, state, FeeRate { sats_per_kvb }, &dest(CHANGE))
}

fn sum_out(plan: &Plan) -> u64 {
    plan.outputs.iter().map(|o| o.value).sum()
}

/// Inscription 1 alone on output 0xa1 worth 1000; a cardinal 0xc1 worth 10000.
fn example_a() -> (Vec<Request>, WalletState) {
    (vec![request(1, DEST1)], wallet(vec![utxo(0xa1, 1000), utxo(0xc1, 10_000)], vec![located(0xa1, 0, 1)]))
}

/// Inscriptions 1 at 0 and 2 at 600 on output 0xa1 worth 1000, both to the same script
/// kind; a cardinal worth 10000.
fn example_b() -> (Vec<Request>, WalletState) {
    (
        vec![request(1, DEST1), request(2, DEST1)],
        wallet(vec![utxo(0xa1, 1000), utxo(0xc1, 10_000)], vec![located(0xa1, 0, 1), located(0xa1, 600, 2)]),
    )
}

#[test]
fn single_inscription_moves_whole_output() {
    let (reqs, state) = example_a();
    let plan = run(&reqs, &state, 1000).unwrap();
    assert_eq!(plan.outputs.len(), 2);
    assert_eq!(plan.outputs[0].value, 1000);
    assert_eq!(plan.outputs[0].script_pubkey, dest(DEST1).script_pubkey);
    assert_eq!(plan.vsize, 188);
    assert_eq!(plan.fee, 188);
    assert_eq!(plan.outputs[1].value, 10_000 - 188);
    assert_eq!(plan.outputs[1].script_pubkey, dest(CHANGE).script_pubkey);
    assert!(plan.inputs[0].same(&outpoint(0xa1, 0)));
    assert!(plan.inputs[1].same(&outpoint(0xc1, 0)));
}

#[test]
fn shared_output_is_split_at_offsets() {
    let (reqs, state) = example_b();
    let plan = run(&reqs, &state, 1000).unwrap();
    assert_eq!(plan.outputs.len(), 3);
    assert_eq!(plan.outputs[0].value, 600);
    assert_eq!(plan.outputs[0].script_pubkey, dest(DEST1).script_pubkey);
    assert_eq!(plan.outputs[1].value, 400);
    assert_eq!(plan.outputs[1].script_pubkey, dest(DEST1).script_pubkey);
    assert_eq!(plan.inputs.len(), 2);
    assert_eq!(plan.vsize, 219);
    assert_eq!(plan.fee, 219);
    assert_eq!(plan.inscriptions[0].inscription.txid.bytes, vec![1; 32]);
    assert_eq!(plan.inscriptions[1].inscription.txid.bytes, vec![2; 32]);
}

#[test]
fn values_balance_with_fee() {
    let (reqs, state) = example_b();
    let plan = run(&reqs, &state, 2500).unwrap();
    assert_eq!(sum_out(&plan) + plan.fee, 1000 + 10_000);
}

#[test]
fn output_count_is_requests_plus_change() {
    let reqs = vec![request(1, DEST1), request(2, DEST2), request(3, DEST1)];
    let state = wallet(
        vec![utxo(0xa1, 1000), utxo(0xa2, 5000), utxo(0xc1, 10_000)],
        vec![located(0xa1, 0, 1), located(0xa2, 0, 3), located(0xa2, 2000, 2)],
    );
    let plan = run(&reqs, &state, 1000).unwrap();
    assert_eq!(plan.outputs.len(), reqs.len() + 1);
    let values: Vec<u64> = plan.outputs.iter().take(3).map(|o| o.value).collect();
    assert_eq!(values, vec![1000, 2000, 3000]);
    assert_eq!(plan.inputs.len(), 3);
}

#[test]
fn every_output_reaches_dust() {
    let (reqs, state) = example_b();
    let plan = run(&reqs, &state, 1000).unwrap();
    assert!(plan.outputs[0].value >= 294);
    assert!(plan.outputs[1].value >= 294);
    assert!(plan.outputs[2].value >= 294);
}

#[test]
fn legacy_destination_needs_more_than_segwit() {
    let state = wallet(vec![utxo(0xa1, 1000), utxo(0xc1, 10_000)], vec![located(0xa1, 0, 1), located(0xa1, 600, 2)]);
    match run(&vec![request(1, DEST1), request(2, DEST2)], &state, 1000).unwrap_err() {
        BuildError::BelowDust { value, dust, .. } => {
            assert_eq!(value, 400);
            assert_eq!(dust, 546);
        },
        e => panic!("{:?}", e),
    }
}

#[test]
fn unrequested_neighbour_fails() {
    let (_, state) = example_b();
    match run(&vec![request(1, DEST1)], &state, 1000).unwrap_err() {
        BuildError::Unrequested { inscription, alongside } => {
            assert_eq!(inscription.txid.bytes, vec![2; 32]);
            assert_eq!(alongside.txid.bytes, vec![1; 32]);
        },
        e => panic!("{:?}", e),
    }
}

#[test]
fn leading_offset_fails() {
    let state = wallet(vec![utxo(0xa1, 1000), utxo(0xc1, 10_000)], vec![located(0xa1, 100, 1)]);
    match run(&vec![request(1, DEST1)], &state, 1000).unwrap_err() {
        BuildError::NonzeroOffset { outpoint: o, offset } => {
            assert_eq!(offset, 100);
            assert!(o.same(&outpoint(0xa1, 0)));
        },
        e => panic!("{:?}", e),
    }
}

#[test]
fn rebuild_is_identical() {
    let (reqs, state) = example_b();
    let a = run(&reqs, &state, 1234).unwrap();
    let b = run(&reqs, &state, 1234).unwrap();
    assert_eq!(format!("{:?}", a), format!("{:?}", b));
}

#[test]
fn cardinal_too_small_names_shortfall() {
    let (reqs, _) = example_a();
    let state = wallet(vec![utxo(0xa1, 1000), utxo(0xc1, 500)], vec![located(0xa1, 0, 1)]);
    match run(&reqs, &state, 1625).unwrap_err() {
        BuildError::CardinalTooSmall { have, fee, dust, needed } => {
            assert_eq!(have, 500);
            assert_eq!(fee, 306);
            assert_eq!(dust, 294);
            assert_eq!(needed, 600);
        },
        e => panic!("{:?}", e),
    }
}

#[test]
fn missing_inscription_fails() {
    let (_, state) = example_a();
    match run(&vec![request(9, DEST1)], &state, 1000).unwrap_err() {
        BuildError::Missing { inscription } => assert_eq!(inscription.txid.bytes, vec![9; 32]),
        e => panic!("{:?}", e),
    }
}

#[test]
fn split_below_dust_fails() {
    let state = wallet(vec![utxo(0xa1, 1000), utxo(0xc1, 10_000)], vec![located(0xa1, 0, 1), located(0xa1, 900, 2)]);
    match run(&vec![request(1, DEST1), request(2, DEST1)], &state, 1000).unwrap_err() {
        BuildError::BelowDust { inscription, value, dust } => {
            assert_eq!(inscription.txid.bytes, vec![2; 32]);
            assert_eq!(value, 100);
            assert_eq!(dust, 294);
        },
        e => panic!("{:?}", e),
    }
}

#[test]
fn no_cardinal_fails() {
    let state = wallet(vec![utxo(0xa1, 1000)], vec![located(0xa1, 0, 1)]);
    assert!(matches!(run(&vec![request(1, DEST1)], &state, 1000).unwrap_err(), BuildError::NoCardinals));
}

#[test]
fn locked_outputs_are_not_cardinals() {
    let mut state = wallet(vec![utxo(0xa1, 1000), utxo(0xc1, 10_000), utxo(0xc2, 900)], vec![located(0xa1, 0, 1)]);
    assert_eq!(get_cardinals(&state), Some(1));
    state.locked.push(outpoint(0xc1, 0));
    assert_eq!(get_cardinals(&state), Some(2));
    state.locked.push(outpoint(0xc2, 0));
    assert_eq!(get_cardinals(&state), None);
}

#[test]
fn largest_cardinal_is_chosen_later_among_equals() {
    let state = wallet(vec![utxo(0xc1, 700), utxo(0xc2, 900), utxo(0xc3, 900), utxo(0xc4, 10)], Vec::new());
    assert_eq!(get_cardinals(&state), Some(2));
}

#[test]
fn inconsistent_snapshots_are_detected() {
    let unsorted = wallet(vec![utxo(0xa1, 1000)], vec![located(0xa1, 600, 2), located(0xa1, 0, 1)]);
    assert!(!unsorted.is_consistent());
    let beyond = wallet(vec![utxo(0xa1, 1000)], vec![located(0xa1, 1000, 1)]);
    assert!(!beyond.is_consistent());
    let twice = wallet(vec![utxo(0xa1, 1000), utxo(0xa2, 1000)], vec![located(0xa1, 0, 1), located(0xa2, 0, 1)]);
    assert!(!twice.is_consistent());
    let elsewhere = wallet(vec![utxo(0xa1, 1000)], vec![located(0xa9, 0, 1)]);
    assert!(!elsewhere.is_consistent());
    let repeated = wallet(vec![utxo(0xa1, 1000), utxo(0xa1, 5)], Vec::new());
    assert!(!repeated.is_consistent());
}

#[test]
fn transaction_signals_replace_by_fee() {
    let (reqs, state) = example_a();
    let plan = run(&reqs, &state, 1000).unwrap();
    let n = plan.outputs.len();
    let tx = build_transaction(&plan.inputs, plan.outputs);
    assert_eq!(tx.version, 1);
    assert_eq!(tx.lock_time, 0);
    assert_eq!(tx.outputs.len(), n);
    assert_eq!(tx.inputs.len(), 2);
    assert!(tx.inputs.iter().all(|i| i.sequence == ENABLE_RBF_NO_LOCKTIME));
    assert!(tx.inputs[1].previous_output.same(&outpoint(0xc1, 0)));
}

#[test]
fn fee_rounds_to_nearest_sat() {
    assert_eq!(FeeRate { sats_per_kvb: 1500 }.fee(101), 152);
    assert_eq!(FeeRate { sats_per_kvb: 1000 }.fee(188), 188);
    assert_eq!(FeeRate { sats_per_kvb: 1 }.fee(499), 0);
    assert_eq!(FeeRate { sats_per_kvb: 1 }.fee(500), 1);
}
