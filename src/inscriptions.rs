use vstd::prelude::*;
use crate::model::{Chain, InscriptionId, SatPoint};
use crate::wallet::{Located, LocatedView, Utxo, UtxoView};

verus! {

/// One inscription the wallet holds: its sat, its number, its id, where it sits, and a
/// link to it on the chain's explorer.
#[derive(Debug)]
pub struct Output {
    pub sat: u64,
    pub number: u64,
    pub inscription: InscriptionId,
    pub location: SatPoint,
    pub explorer: String,
}

/// Where the explorer of `chain` shows an inscription; the link is this followed by the id.
pub fn explorer_base(chain: Chain) -> (r: &'static str)
    ensures
        chain == Chain::Mainnet ==> r@ == "https://ordinals.com/inscription/"@,
        chain == Chain::Regtest ==> r@ == "http://localhost/inscription/"@,
        chain == Chain::Signet ==> r@ == "https://signet.ordinals.com/inscription/"@,
        chain == Chain::Testnet ==> r@ == "https://testnet.ordinals.com/inscription/"@,
{
    match chain {
        Chain::Mainnet => "https://ordinals.com/inscription/",
        Chain::Regtest => "http://localhost/inscription/",
        Chain::Signet => "https://signet.ordinals.com/inscription/",
        Chain::Testnet => "https://testnet.ordinals.com/inscription/",
    }
}

pub open spec fn sits_on_unspent(unspent: Seq<UtxoView>, l: LocatedView) -> bool {
    exists|k: int| 0 <= k < unspent.len() && (#[trigger] unspent[k]).outpoint == l.satpoint.outpoint
}

/// The entries of `insc` that sit on one of the `unspent` outputs, in their order.
pub open spec fn owned(insc: Seq<LocatedView>, unspent: Seq<UtxoView>) -> Seq<LocatedView>
    decreases insc.len(),
{
    if insc.len() == 0 {
        Seq::empty()
    } else if sits_on_unspent(unspent, insc.last()) {
        owned(insc.drop_last(), unspent).push(insc.last())
    } else {
        owned(insc.drop_last(), unspent)
    }
}

/// The inscriptions, of all those the index knows, that sit on the wallet's unspent outputs.
pub fn wallet_inscriptions(inscriptions: &Vec<Located>, unspent: &Vec<Utxo>) -> (r: Vec<Located>)
    ensures
        r@.map_values(|l: Located| l@) == owned(
            inscriptions@.map_values(|l: Located| l@),
            unspent@.map_values(|u: Utxo| u@),
        ),
{
    let ghost insc = inscriptions@.map_values(|l: Located| l@);
    let ghost us = unspent@.map_values(|u: Utxo| u@);
    let mut r: Vec<Located> = Vec::new();
    let mut i: usize = 0;
    while i < inscriptions.len()
        invariant
            insc == inscriptions@.map_values(|l: Located| l@),
            us == unspent@.map_values(|u: Utxo| u@),
            i <= insc.len(),
            r@.map_values(|l: Located| l@) == owned(insc.take(i as int), us),
        decreases insc.len() - i,
    {
        let l = &inscriptions[i];
        assert(insc.take(i + 1).drop_last() =~= insc.take(i as int));
        assert(insc.take(i + 1).last() == l@);
        let mut found = false;
        let mut k: usize = 0;
        while k < unspent.len()
            invariant
                us == unspent@.map_values(|u: Utxo| u@),
                k <= us.len(),
                found == exists|j: int| 0 <= j < k && (#[trigger] us[j]).outpoint == l@.satpoint.outpoint,
            decreases us.len() - k,
        {
            assert(us[k as int] == unspent@[k as int]@);
            if unspent[k].outpoint.same(&l.satpoint.outpoint) {
                found = true;
            }
            k = k + 1;
        }
        if found {
            let ghost before = r@.map_values(|l: Located| l@);
            let c = l.clone();
            r.push(c);
            assert(r@.map_values(|l: Located| l@) =~= before.push(c@));
        }
        i = i + 1;
    }
    assert(insc.take(insc.len() as int) =~= insc);
    r
}

} // verus!
