use vstd::prelude::*;

verus! {

/// A transaction id as its 32 bytes, in the order in which they are written in hex.
#[derive(Debug)]
pub struct Txid {
    pub bytes: Vec<u8>,
}

impl View for Txid {
    type V = Seq<u8>;

    open spec fn view(&self) -> Seq<u8> {
        self.bytes@
    }
}

impl Clone for Txid {
    fn clone(&self) -> (r: Txid)
        ensures
            r@ == self@,
    {
        let mut bytes: Vec<u8> = Vec::new();
        let mut i: usize = 0;
        while i < self.bytes.len()
            invariant
                i <= self.bytes@.len(),
                bytes@ == self.bytes@.take(i as int),
            decreases self.bytes@.len() - i,
        {
            bytes.push(self.bytes[i]);
            i = i + 1;
            assert(bytes@ =~= self.bytes@.take(i as int));
        }
        assert(bytes@ =~= self.bytes@);
        Txid { bytes }
    }
}

impl Txid {
    pub fn same(&self, other: &Txid) -> (r: bool)
        ensures
            r == (self@ == other@),
    {
        if self.bytes.len() != other.bytes.len() {
            return false;
        }
        let mut i: usize = 0;
        while i < self.bytes.len()
            invariant
                i <= self.bytes@.len(),
                self.bytes@.len() == other.bytes@.len(),
                forall|j: int| 0 <= j < i ==> self.bytes@[j] == other.bytes@[j],
            decreases self.bytes@.len() - i,
        {
            if self.bytes[i] != other.bytes[i] {
                return false;
            }
            i = i + 1;
        }
        assert(self.bytes@ =~= other.bytes@);
        true
    }
}

/// A reference to one output of a transaction.
#[derive(Debug)]
pub struct OutPoint {
    pub txid: Txid,
    pub vout: u32,
}

pub struct OutPointView {
    pub txid: Seq<u8>,
    pub vout: u32,
}

impl View for OutPoint {
    type V = OutPointView;

    open spec fn view(&self) -> OutPointView {
        OutPointView { txid: self.txid@, vout: self.vout }
    }
}

impl Clone for OutPoint {
    fn clone(&self) -> (r: OutPoint)
        ensures
            r@ == self@,
    {
        OutPoint { txid: self.txid.clone(), vout: self.vout }
    }
}

impl OutPoint {
    pub fn same(&self, other: &OutPoint) -> (r: bool)
        ensures
            r == (self@ == other@),
    {
        self.vout == other.vout && self.txid.same(&other.txid)
    }
}

/// One inscribed asset: the transaction that revealed it and its index there.
#[derive(Debug)]
pub struct InscriptionId {
    pub txid: Txid,
    pub index: u32,
}

pub struct InscriptionIdView {
    pub txid: Seq<u8>,
    pub index: u32,
}

impl View for InscriptionId {
    type V = InscriptionIdView;

    open spec fn view(&self) -> InscriptionIdView {
        InscriptionIdView { txid: self.txid@, index: self.index }
    }
}

impl Clone for InscriptionId {
    fn clone(&self) -> (r: InscriptionId)
        ensures
            r@ == self@,
    {
        InscriptionId { txid: self.txid.clone(), index: self.index }
    }
}

impl InscriptionId {
    pub fn same(&self, other: &InscriptionId) -> (r: bool)
        ensures
            r == (self@ == other@),
    {
        self.index == other.index && self.txid.same(&other.txid)
    }
}

/// The position of a sat: an output, and the number of sats before it in that output.
#[derive(Debug)]
pub struct SatPoint {
    pub outpoint: OutPoint,
    pub offset: u64,
}

pub struct SatPointView {
    pub outpoint: OutPointView,
    pub offset: u64,
}

impl View for SatPoint {
    type V = SatPointView;

    open spec fn view(&self) -> SatPointView {
        SatPointView { outpoint: self.outpoint@, offset: self.offset }
    }
}

impl Clone for SatPoint {
    fn clone(&self) -> (r: SatPoint)
        ensures
            r@ == self@,
    {
        SatPoint { outpoint: self.outpoint.clone(), offset: self.offset }
    }
}

} // verus!

verus! {

/// The chain whose addresses a build accepts.
#[derive(Debug, Clone, Copy, PartialEq, Eq, Structural)]
pub enum Chain {
    Mainnet,
    Testnet,
    Signet,
    Regtest,
}

/// One transaction output: the script that locks it and its value in sats.
#[derive(Debug)]
pub struct TxOutput {
    pub script_pubkey: Vec<u8>,
    pub value: u64,
}

impl View for TxOutput {
    type V = (Seq<u8>, u64);

    open spec fn view(&self) -> (Seq<u8>, u64) {
        (self.script_pubkey@, self.value)
    }
}

} // verus!
