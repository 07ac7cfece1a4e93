use vstd::prelude::*;
use crate::model::{Chain, TxOutput};

verus! {

/// Whether `bitcoin::Address::from_str` accepts the text.
pub uninterp spec fn address_parses(s: Seq<char>) -> bool;

/// Whether `Address::require_network` accepts a parsed address for the chain's network.
pub uninterp spec fn address_on_chain(s: Seq<char>, chain: Chain) -> bool;

/// The bytes of `Address::script_pubkey` for the address the text writes.
pub uninterp spec fn address_script(s: Seq<char>) -> Seq<u8>;

/// `Script::minimal_non_dust` in sats, for the script with these bytes.
pub uninterp spec fn dust_of(script: Seq<u8>) -> u64;

/// `Transaction::vsize` of a transaction with `inputs` inputs, each carrying one witness
/// element of `witness_len` zero bytes, and these outputs.
pub uninterp spec fn placeholder_vsize(inputs: nat, witness_len: nat, outputs: Seq<(Seq<u8>, u64)>) -> nat;

/// Scripts longer than this are refused before their dust threshold is asked for.
pub const MAX_SCRIPT_LEN: usize = 1_000_000;

/// The text of `bitcoin::Address::from_script` for the script with these bytes on the
/// chain's network, when the script has an address form.
pub uninterp spec fn script_address(script: Seq<u8>, chain: Chain) -> Option<Seq<char>>;

pub enum AddressError {
    Syntax,
    Network,
}

/// Relies on `bitcoin::Address::from_str`, `Address::require_network` and
/// `Address::script_pubkey`: the text is parsed, checked against the chain's network,
/// and turned into its output script, which for every address kind is at most 42 bytes.
#[verifier::external_body]
pub(crate) fn destination_script(s: &Vec<char>, chain: Chain) -> (r: Result<Vec<u8>, AddressError>)
    ensures
        (r matches Err(AddressError::Syntax)) <==> !address_parses(s@),
        (r matches Err(AddressError::Network)) <==> (address_parses(s@) && !address_on_chain(s@, chain)),
        r matches Ok(v) ==> v@ == address_script(s@) && v@.len() <= 42,
{
    let network = match chain {
        Chain::Mainnet => bitcoin::Network::Bitcoin,
        Chain::Testnet => bitcoin::Network::Testnet,
        Chain::Signet => bitcoin::Network::Signet,
        Chain::Regtest => bitcoin::Network::Regtest,
    };
    let text: String = s.iter().collect();
    match text.parse::<bitcoin::Address<bitcoin::address::NetworkUnchecked>>() {
        Err(_) => Err(AddressError::Syntax),
        Ok(a) => match a.require_network(network) {
            Err(_) => Err(AddressError::Network),
            Ok(a) => Ok(a.script_pubkey().into_bytes()),
        },
    }
}

/// Relies on `bitcoin::Script::minimal_non_dust` (what `dust_value` returns), which panics
/// only when the script's length is absurdly large.
#[verifier::external_body]
pub(crate) fn dust_threshold(script: &Vec<u8>) -> (r: u64)
    requires
        script@.len() <= MAX_SCRIPT_LEN,
    ensures
        r == dust_of(script@),
{
    bitcoin::Script::from_bytes(script.as_slice()).minimal_non_dust().to_sat()
}

/// Relies on `bitcoin::Transaction::vsize`, applied to a version 1 transaction with
/// `inputs` null-outpoint inputs, each carrying one witness element of `witness_len`
/// zero bytes, and the given outputs.
#[verifier::external_body]
pub(crate) fn placeholder_transaction_vsize(inputs: usize, witness_len: usize, outputs: &Vec<TxOutput>) -> (r: usize)
    ensures
        r as nat == placeholder_vsize(inputs as nat, witness_len as nat, outputs@.map_values(|o: TxOutput| o@)),
{
    let witness = bitcoin::Witness::from_slice(&[vec![0u8; witness_len]]);
    bitcoin::Transaction {
        version: bitcoin::transaction::Version::ONE,
        lock_time: bitcoin::absolute::LockTime::ZERO,
        input: (0..inputs).map(|_| bitcoin::TxIn { witness: witness.clone(), ..Default::default() }).collect(),
        output: outputs.iter().map(|o| bitcoin::TxOut {
            value: bitcoin::Amount::from_sat(o.value),
            script_pubkey: bitcoin::ScriptBuf::from_bytes(o.script_pubkey.clone()),
        }).collect(),
    }.vsize()
}

/// Relies on `bitcoin::Address::from_script` and the address's `Display`: the address of a
/// standard output script on the chain's network, written as text.
#[verifier::external_body]
pub(crate) fn address_of_script(script: &Vec<u8>, chain: Chain) -> (r: Option<String>)
    ensures
        r.is_some() == script_address(script@, chain).is_some(),
        r matches Some(a) ==> script_address(script@, chain) == Some(a@),
{
    let network = match chain {
        Chain::Mainnet => bitcoin::Network::Bitcoin,
        Chain::Testnet => bitcoin::Network::Testnet,
        Chain::Signet => bitcoin::Network::Signet,
        Chain::Regtest => bitcoin::Network::Regtest,
    };
    bitcoin::Address::from_script(bitcoin::Script::from_bytes(script.as_slice()), network).ok().map(|a| a.to_string())
}

} // verus!
