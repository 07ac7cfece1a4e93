use ord::api::{Output, Pile, RuneBalance};
use ord::inscriptions::{explorer_base, wallet_inscriptions};
use ord::model::{Chain, InscriptionId, OutPoint, SatPoint, TxOutput, Txid};
use ord::rest::{next_fetch_step, rest_url, FetchStep};
use ord::wallet::{Located, Utxo};

fn outpoint(b: u8) -> OutPoint {
    OutPoint { txid: Txid { bytes: vec![b; 32] }, vout: 1 }
}

#[test]
fn rest_url_gets_scheme() {
    assert_eq!(rest_url("127.0.0.1:8332"), "http://127.0.0.1:8332");
    assert_eq!(rest_url("http://node:8332"), "http://node:8332");
    assert_eq!(rest_url("https://node"), "http://https://node");
    assert_eq!(rest_url(""), "http://");
}

#[test]
fn fetch_backs_off_then_gives_up() {
    assert_eq!(next_fetch_step(0, true), FetchStep::Done);
    assert_eq!(next_fetch_step(0, false), FetchStep::RetryAfter { secs: 1 });
    assert_eq!(next_fetch_step(1, false), FetchStep::RetryAfter { secs: 2 });
    assert_eq!(next_fetch_step(2, false), FetchStep::GiveUp);
    assert_eq!(next_fetch_step(2, true), FetchStep::Done);
}

#[test]
fn explorer_per_chain() {
    assert_eq!(explorer_base(Chain::Mainnet), "https://ordinals.com/inscription/");
    assert_eq!(explorer_base(Chain::Regtest), "http://localhost/inscription/");
    assert_eq!(explorer_base(Chain::Signet), "https://signet.ordinals.com/inscription/");
    assert_eq!(explorer_base(Chain::Testnet), "https://testnet.ordinals.com/inscription/");
}

#[test]
fn only_inscriptions_on_unspent_outputs_are_listed() {
    let at = |o: u8, i: u8| Located {
        satpoint: SatPoint { outpoint: outpoint(o), offset: 0 },
        inscription: InscriptionId { txid: Txid { bytes: vec![i; 32] }, index: 0 },
    };
    let unspent = vec![Utxo { outpoint: outpoint(1), value: 10 }];
    let listed = wallet_inscriptions(&vec![at(1, 5), at(2, 6), at(1, 7)], &unspent);
    assert_eq!(listed.len(), 2);
    assert_eq!(listed[0].inscription.txid.bytes, vec![5; 32]);
    assert_eq!(listed[1].inscription.txid.bytes, vec![7; 32]);
}

#[test]
fn output_describes_its_script() {
    let mut script = vec![0x00, 0x14];
    script.extend_from_slice(&[
        0x75, 0x1e, 0x76, 0xe8, 0x19, 0x91, 0x96, 0xd4, 0x54, 0x94, 0x1c, 0x45, 0xd1, 0xb3, 0xa3, 0x23, 0xf1, 0x43,
        0x3b, 0xd6,
    ]);
    let runes = vec![RuneBalance { rune: "A•B".to_string(), pile: Pile { amount: 5, divisibility: 1, symbol: None } }];
    let out = Output::new(
        Chain::Mainnet,
        Vec::new(),
        outpoint(3),
        TxOutput { script_pubkey: script.clone(), value: 777 },
        true,
        runes,
        None,
        false,
    );
    assert_eq!(out.address.as_deref(), Some("bc1qw508d6qejxtdg4y5r3zarvary0c5xw7kv8f3t4"));
    assert_eq!(out.value, 777);
    assert_eq!(out.script_pubkey, script);
    assert_eq!(out.transaction.bytes, vec![3; 32]);
    assert!(out.indexed && !out.spent);
    let odd = Output::new(Chain::Mainnet, Vec::new(), outpoint(3), TxOutput { script_pubkey: vec![0x6a], value: 0 }, false, Vec::new(), None, true);
    assert_eq!(odd.address, None);
}
