use vstd::prelude::*;
use crate::model::{InscriptionId, InscriptionIdView, OutPoint, OutPointView, SatPoint, SatPointView};

verus! {

/// An unspent output of the wallet and its value in sats.
#[derive(Debug)]
pub struct Utxo {
    pub outpoint: OutPoint,
    pub value: u64,
}

pub struct UtxoView {
    pub outpoint: OutPointView,
    pub value: u64,
}

impl View for Utxo {
    type V = UtxoView;

    open spec fn view(&self) -> UtxoView {
        UtxoView { outpoint: self.outpoint@, value: self.value }
    }
}

/// An inscription of the wallet and where it sits.
#[derive(Debug)]
pub struct Located {
    pub satpoint: SatPoint,
    pub inscription: InscriptionId,
}

pub struct LocatedView {
    pub satpoint: SatPointView,
    pub inscription: InscriptionIdView,
}

impl View for Located {
    type V = LocatedView;

    open spec fn view(&self) -> LocatedView {
        LocatedView { satpoint: self.satpoint@, inscription: self.inscription@ }
    }
}

impl Clone for Located {
    fn clone(&self) -> (r: Located)
        ensures
            r@ == self@,
    {
        Located { satpoint: self.satpoint.clone(), inscription: self.inscription.clone() }
    }
}

/// One snapshot of the wallet: its unspent outputs, the outputs it keeps locked, and
/// every inscription on its unspent outputs, listed output by output in ascending
/// offset order as the index gives them.
#[derive(Debug)]
pub struct WalletState {
    pub unspent: Vec<Utxo>,
    pub locked: Vec<OutPoint>,
    pub inscriptions: Vec<Located>,
}

pub struct WalletView {
    pub unspent: Seq<UtxoView>,
    pub locked: Seq<OutPointView>,
    pub inscriptions: Seq<LocatedView>,
}

impl View for WalletState {
    type V = WalletView;

    open spec fn view(&self) -> WalletView {
        WalletView {
            unspent: self.unspent@.map_values(|u: Utxo| u@),
            locked: self.locked@.map_values(|o: OutPoint| o@),
            inscriptions: self.inscriptions@.map_values(|l: Located| l@),
        }
    }
}

/// The first unspent output at or after `i` with this outpoint, or the length.
pub open spec fn utxo_index_from(unspent: Seq<UtxoView>, o: OutPointView, i: int) -> int
    decreases unspent.len() - i,
{
    if i >= unspent.len() {
        unspent.len() as int
    } else if unspent[i].outpoint == o {
        i
    } else {
        utxo_index_from(unspent, o, i + 1)
    }
}

/// The first inscription entry at or after `i` with this id, or the length.
pub open spec fn located_index_from(insc: Seq<LocatedView>, id: InscriptionIdView, i: int) -> int
    decreases insc.len() - i,
{
    if i >= insc.len() {
        insc.len() as int
    } else if insc[i].inscription == id {
        i
    } else {
        located_index_from(insc, id, i + 1)
    }
}

impl WalletView {
    pub open spec fn utxo_index(self, o: OutPointView) -> int {
        utxo_index_from(self.unspent, o, 0)
    }

    pub open spec fn holds_output(self, o: OutPointView) -> bool {
        self.utxo_index(o) < self.unspent.len()
    }

    /// The value of the unspent output `o`.
    pub open spec fn value_of(self, o: OutPointView) -> u64 {
        self.unspent[self.utxo_index(o)].value
    }

    pub open spec fn is_inscribed(self, o: OutPointView) -> bool {
        exists|k: int| 0 <= k < self.inscriptions.len() && (#[trigger] self.inscriptions[k]).satpoint.outpoint == o
    }

    pub open spec fn is_locked(self, o: OutPointView) -> bool {
        exists|k: int| 0 <= k < self.locked.len() && #[trigger] self.locked[k] == o
    }

    /// A snapshot is consistent when no unspent output is listed twice, every inscription
    /// sits inside the value range of an unspent output, no inscription is listed twice,
    /// and the inscriptions of each output come in ascending offset order.
    pub open spec fn wf(self) -> bool {
        &&& forall|a: int, b: int| 0 <= a < b < self.unspent.len() ==>
            (#[trigger] self.unspent[a]).outpoint != (#[trigger] self.unspent[b]).outpoint
        &&& forall|k: int| 0 <= k < self.inscriptions.len() ==> {
            let l = #[trigger] self.inscriptions[k];
            self.holds_output(l.satpoint.outpoint) && l.satpoint.offset < self.value_of(l.satpoint.outpoint)
        }
        &&& forall|a: int, b: int| 0 <= a < b < self.inscriptions.len() ==>
            (#[trigger] self.inscriptions[a]).inscription != (#[trigger] self.inscriptions[b]).inscription
        &&& forall|a: int, b: int| 0 <= a < b < self.inscriptions.len()
            && (#[trigger] self.inscriptions[a]).satpoint.outpoint == (#[trigger] self.inscriptions[b]).satpoint.outpoint
            ==> self.inscriptions[a].satpoint.offset <= self.inscriptions[b].satpoint.offset
    }
}

impl WalletState {
    /// The position of the first unspent output with this outpoint.
    pub fn find_utxo(&self, o: &OutPoint) -> (r: usize)
        ensures
            r as int == self@.utxo_index(o@),
            r <= self@.unspent.len(),
    {
        let ghost u = self@.unspent;
        let mut i: usize = 0;
        while i < self.unspent.len()
            invariant
                u == self@.unspent,
                i <= u.len(),
                utxo_index_from(u, o@, 0) == utxo_index_from(u, o@, i as int),
            decreases u.len() - i,
        {
            assert(u[i as int] == self.unspent@[i as int]@);
            if self.unspent[i].outpoint.same(o) {
                return i;
            }
            i = i + 1;
        }
        i
    }

    /// The position of the first entry for this inscription.
    pub fn find_inscription(&self, id: &InscriptionId) -> (r: usize)
        ensures
            r as int == located_index_from(self@.inscriptions, id@, 0),
            r <= self@.inscriptions.len(),
    {
        let ghost s = self@.inscriptions;
        let mut i: usize = 0;
        while i < self.inscriptions.len()
            invariant
                s == self@.inscriptions,
                i <= s.len(),
                located_index_from(s, id@, 0) == located_index_from(s, id@, i as int),
            decreases s.len() - i,
        {
            assert(s[i as int] == self.inscriptions@[i as int]@);
            if self.inscriptions[i].inscription.same(id) {
                return i;
            }
            i = i + 1;
        }
        i
    }

    pub fn is_locked(&self, o: &OutPoint) -> (r: bool)
        ensures
            r == self@.is_locked(o@),
    {
        let ghost s = self@.locked;
        let mut i: usize = 0;
        while i < self.locked.len()
            invariant
                s == self@.locked,
                i <= s.len(),
                forall|k: int| 0 <= k < i ==> s[k] != o@,
            decreases s.len() - i,
        {
            assert(s[i as int] == self.locked@[i as int]@);
            if self.locked[i].same(o) {
                return true;
            }
            i = i + 1;
        }
        false
    }

    pub fn is_inscribed(&self, o: &OutPoint) -> (r: bool)
        ensures
            r == self@.is_inscribed(o@),
    {
        let ghost s = self@.inscriptions;
        let mut i: usize = 0;
        while i < self.inscriptions.len()
            invariant
                s == self@.inscriptions,
                i <= s.len(),
                forall|k: int| 0 <= k < i ==> (#[trigger] s[k]).satpoint.outpoint != o@,
            decreases s.len() - i,
        {
            assert(s[i as int] == self.inscriptions@[i as int]@);
            if self.inscriptions[i].satpoint.outpoint.same(o) {
                return true;
            }
            i = i + 1;
        }
        false
    }

    /// Whether the snapshot is consistent, as `wf` states it.
    pub fn is_consistent(&self) -> (r: bool)
        ensures
            r == self@.wf(),
    {
        let ghost v = self@;
        let m = self.unspent.len();
        let mut i: usize = 0;
        while i < m
            invariant
                v == self@,
                m == v.unspent.len(),
                i <= m,
                forall|a: int, b: int| 0 <= a < b < m && a < i ==>
                    (#[trigger] v.unspent[a]).outpoint != (#[trigger] v.unspent[b]).outpoint,
            decreases m - i,
        {
            let u = &self.unspent[i];
            assert(v.unspent[i as int] == u@);
            let mut j: usize = i + 1;
            while j < m
                invariant
                    v == self@,
                    m == v.unspent.len(),
                    i < j <= m,
                    v.unspent[i as int] == u@,
                    forall|b: int| i < b < j ==> v.unspent[i as int].outpoint != (#[trigger] v.unspent[b]).outpoint,
                decreases m - j,
            {
                assert(v.unspent[j as int] == self.unspent@[j as int]@);
                if self.unspent[j].outpoint.same(&u.outpoint) {
                    return false;
                }
                j = j + 1;
            }
            i = i + 1;
        }
        let n = self.inscriptions.len();
        i = 0;
        while i < n
            invariant
                v == self@,
                forall|a: int, b: int| 0 <= a < b < v.unspent.len() ==>
                    (#[trigger] v.unspent[a]).outpoint != (#[trigger] v.unspent[b]).outpoint,
                n == v.inscriptions.len(),
                i <= n,
                forall|k: int| 0 <= k < i ==> {
                    let l = #[trigger] v.inscriptions[k];
                    v.holds_output(l.satpoint.outpoint) && l.satpoint.offset < v.value_of(l.satpoint.outpoint)
                },
                forall|a: int, b: int| 0 <= a < b < n && a < i ==>
                    (#[trigger] v.inscriptions[a]).inscription != (#[trigger] v.inscriptions[b]).inscription,
                forall|a: int, b: int| 0 <= a < b < n && a < i
                    && (#[trigger] v.inscriptions[a]).satpoint.outpoint == (#[trigger] v.inscriptions[b]).satpoint.outpoint
                    ==> v.inscriptions[a].satpoint.offset <= v.inscriptions[b].satpoint.offset,
            decreases n - i,
        {
            let l = &self.inscriptions[i];
            assert(v.inscriptions[i as int] == l@);
            let u = self.find_utxo(&l.satpoint.outpoint);
            if u == self.unspent.len() {
                return false;
            }
            assert(v.unspent[u as int] == self.unspent@[u as int]@);
            if l.satpoint.offset >= self.unspent[u].value {
                return false;
            }
            let mut j: usize = i + 1;
            while j < n
                invariant
                    v == self@,
                    n == v.inscriptions.len(),
                    i < j <= n,
                    v.inscriptions[i as int] == l@,
                    forall|b: int| i < b < j ==> v.inscriptions[i as int].inscription != (#[trigger] v.inscriptions[b]).inscription,
                    forall|b: int| i < b < j && v.inscriptions[i as int].satpoint.outpoint == (#[trigger] v.inscriptions[b]).satpoint.outpoint
                        ==> v.inscriptions[i as int].satpoint.offset <= v.inscriptions[b].satpoint.offset,
                decreases n - j,
            {
                let m = &self.inscriptions[j];
                assert(v.inscriptions[j as int] == m@);
                if m.inscription.same(&l.inscription) {
                    return false;
                }
                if m.satpoint.outpoint.same(&l.satpoint.outpoint) && m.satpoint.offset < l.satpoint.offset {
                    return false;
                }
                j = j + 1;
            }
            i = i + 1;
        }
        true
    }
}

} // verus!
