use vstd::prelude::*;
use crate::glue::{address_of_script, script_address};
use crate::model::{Chain, InscriptionId, OutPoint, SatPoint, Txid, TxOutput};

verus! {

/// A balance of one rune: how many units, how many of its digits are decimals, and its symbol.
#[derive(Debug, Clone, Copy, PartialEq, Eq, Structural)]
pub struct Pile {
    pub amount: u128,
    pub divisibility: u8,
    pub symbol: Option<char>,
}

/// A rune's name with its spacers, as text, and its balance.
#[derive(Debug)]
pub struct RuneBalance {
    pub rune: String,
    pub pile: Pile,
}

/// The children of an inscription, one page of them.
#[derive(Debug)]
pub struct Children {
    pub ids: Vec<InscriptionId>,
    pub more: bool,
    pub page: usize,
}

/// One page of inscription ids.
#[derive(Debug)]
pub struct Inscriptions {
    pub ids: Vec<InscriptionId>,
    pub more: bool,
    pub page_index: u32,
}

/// What is known of one output.
#[derive(Debug)]
pub struct Output {
    pub address: Option<String>,
    pub indexed: bool,
    pub inscriptions: Vec<InscriptionId>,
    pub outpoint: OutPoint,
    pub runes: Vec<RuneBalance>,
    pub sat_ranges: Option<Vec<(u64, u64)>>,
    pub script_pubkey: Vec<u8>,
    pub spent: bool,
    pub transaction: Txid,
    pub value: u64,
}

impl Output {
    /// Describes `tx_out`, found at `outpoint`: its address on `chain` when its script has
    /// one, its script and value, and the transaction that created it.
    pub fn new(
        chain: Chain,
        inscriptions: Vec<InscriptionId>,
        outpoint: OutPoint,
        tx_out: TxOutput,
        indexed: bool,
        runes: Vec<RuneBalance>,
        sat_ranges: Option<Vec<(u64, u64)>>,
        spent: bool,
    ) -> (r: Self)
        ensures
            r.address.is_some() == script_address(tx_out.script_pubkey@, chain).is_some(),
            r.address matches Some(a) ==> script_address(tx_out.script_pubkey@, chain) == Some(a@),
            r.indexed == indexed,
            r.inscriptions@ == inscriptions@,
            r.outpoint@ == outpoint@,
            r.runes@ == runes@,
            r.sat_ranges == sat_ranges,
            r.script_pubkey@ == tx_out.script_pubkey@,
            r.spent == spent,
            r.transaction@ == outpoint.txid@,
            r.value == tx_out.value,
    {
        let address = address_of_script(&tx_out.script_pubkey, chain);
        let transaction = outpoint.txid.clone();
        Output {
            address,
            indexed,
            inscriptions,
            outpoint,
            runes,
            sat_ranges,
            script_pubkey: tx_out.script_pubkey,
            spent,
            transaction,
            value: tx_out.value,
        }
    }
}

/// What is known of one sat.
#[derive(Debug)]
pub struct Sat {
    pub address: Option<String>,
    pub block: u32,
    pub charms: Vec<String>,
    pub cycle: u32,
    pub decimal: String,
    pub degree: String,
    pub epoch: u32,
    pub inscriptions: Vec<InscriptionId>,
    pub name: String,
    pub number: u64,
    pub offset: u64,
    pub percentile: String,
    pub period: u32,
    pub rarity: String,
    pub satpoint: Option<SatPoint>,
    pub timestamp: i64,
}

/// The inscription on a sat at one position, if there is one.
#[derive(Debug)]
pub struct SatInscription {
    pub id: Option<InscriptionId>,
}

/// One page of the inscriptions on a sat.
#[derive(Debug)]
pub struct SatInscriptions {
    pub ids: Vec<InscriptionId>,
    pub more: bool,
    pub page: u64,
}

/// A rune balance of an address: the rune, the amount with its decimal scale, and the symbol.
#[derive(Debug)]
pub struct RuneAmount {
    pub rune: String,
    pub value: u128,
    pub scale: u8,
    pub symbol: Option<char>,
}

/// What an address holds.
#[derive(Debug)]
pub struct AddressInfo {
    pub outputs: Vec<OutPoint>,
    pub inscriptions: Vec<InscriptionId>,
    pub sat_balance: u64,
    pub runes_balances: Vec<RuneAmount>,
}

} // verus!
