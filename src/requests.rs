use vstd::prelude::*;
use crate::glue::{address_on_chain, address_parses, address_script, destination_script, AddressError};
use crate::model::{Chain, InscriptionId, InscriptionIdView};
use crate::text::{find_char, index_of_from, parse_inscription_id, read_inscription_id, InscriptionIdParts};

verus! {

/// The byte-order mark, which any line may start with, any number of times.
pub const BYTE_ORDER_MARK: char = '\u{feff}';

/// Where an output should go: the address as written and the script it stands for.
#[derive(Debug)]
pub struct Destination {
    pub address: Vec<char>,
    pub script_pubkey: Vec<u8>,
}

/// One line of the request file: an inscription and where it should go.
#[derive(Debug)]
pub struct Request {
    pub inscription: InscriptionId,
    pub destination: Destination,
}

pub struct RequestView {
    pub inscription: InscriptionIdView,
    pub address: Seq<char>,
    pub script_pubkey: Seq<u8>,
}

impl View for Request {
    type V = RequestView;

    open spec fn view(&self) -> RequestView {
        RequestView {
            inscription: self.inscription@,
            address: self.destination.address@,
            script_pubkey: self.destination.script_pubkey@,
        }
    }
}

/// Why a request file was refused; `line` counts from 1.
#[derive(Debug)]
pub enum LoadError {
    BadInscriptionId { line: usize },
    NoComma { line: usize },
    BadAddress { line: usize },
    WrongNetwork { line: usize },
    Duplicate { inscription: InscriptionId, line: usize },
}

pub enum LoadErrorView {
    BadInscriptionId { line: nat },
    NoComma { line: nat },
    BadAddress { line: nat },
    WrongNetwork { line: nat },
    Duplicate { inscription: InscriptionIdView, line: nat },
}

impl View for LoadError {
    type V = LoadErrorView;

    open spec fn view(&self) -> LoadErrorView {
        match self {
            LoadError::BadInscriptionId { line } => LoadErrorView::BadInscriptionId { line: *line as nat },
            LoadError::NoComma { line } => LoadErrorView::NoComma { line: *line as nat },
            LoadError::BadAddress { line } => LoadErrorView::BadAddress { line: *line as nat },
            LoadError::WrongNetwork { line } => LoadErrorView::WrongNetwork { line: *line as nat },
            LoadError::Duplicate { inscription, line } => LoadErrorView::Duplicate {
                inscription: inscription@,
                line: *line as nat,
            },
        }
    }
}

/// The first position at or after `i` that holds no byte-order mark.
pub open spec fn skip_marks(s: Seq<char>, i: int) -> int
    decreases s.len() - i,
{
    if i >= s.len() || s[i] != BYTE_ORDER_MARK {
        i
    } else {
        skip_marks(s, i + 1)
    }
}

/// What one line asks for: its id field (before the first comma, leading marks
/// dropped) read as an inscription id, then its second field read as an address
/// of `chain`. A third field and beyond are not read.
pub open spec fn parse_line(s: Seq<char>, chain: Chain, line: nat) -> Result<RequestView, LoadErrorView> {
    let start = skip_marks(s, 0);
    let comma = index_of_from(s, ',', start);
    let id_text = s.subrange(start, comma);
    let end = index_of_from(s, ',', comma + 1);
    let dest = s.subrange(comma + 1, end);
    match parse_inscription_id(id_text) {
        None => Err(LoadErrorView::BadInscriptionId { line }),
        Some(id) => if comma == s.len() {
            Err(LoadErrorView::NoComma { line })
        } else if !address_parses(dest) {
            Err(LoadErrorView::BadAddress { line })
        } else if !address_on_chain(dest, chain) {
            Err(LoadErrorView::WrongNetwork { line })
        } else {
            Ok(RequestView {
                inscription: InscriptionIdView { txid: id.txid, index: id.index },
                address: dest,
                script_pubkey: address_script(dest),
            })
        },
    }
}

pub open spec fn has_inscription(reqs: Seq<RequestView>, id: InscriptionIdView) -> bool {
    exists|k: int| 0 <= k < reqs.len() && (#[trigger] reqs[k]).inscription == id
}

/// The requests that the first `n` lines make, in order, or the error of the first line
/// that fails: lines are numbered from 1, and an id that an earlier line named is a
/// duplicate.
pub open spec fn load_lines(lines: Seq<Seq<char>>, chain: Chain, n: nat) -> Result<Seq<RequestView>, LoadErrorView>
    decreases n,
{
    if n == 0 {
        Ok(Seq::empty())
    } else {
        match load_lines(lines, chain, (n - 1) as nat) {
            Err(e) => Err(e),
            Ok(reqs) => match parse_line(lines[n - 1], chain, n) {
                Err(e) => Err(e),
                Ok(r) => if has_inscription(reqs, r.inscription) {
                    Err(LoadErrorView::Duplicate { inscription: r.inscription, line: n })
                } else {
                    Ok(reqs.push(r))
                },
            },
        }
    }
}

pub open spec fn lines_view(lines: Seq<String>) -> Seq<Seq<char>> {
    lines.map_values(|l: String| l@)
}

pub open spec fn requests_view(reqs: Seq<Request>) -> Seq<RequestView> {
    reqs.map_values(|r: Request| r@)
}

/// No inscription is asked for twice.
pub open spec fn ids_distinct(reqs: Seq<RequestView>) -> bool {
    forall|a: int, b: int| 0 <= a < b < reqs.len() ==> (#[trigger] reqs[a]).inscription != (#[trigger] reqs[b]).inscription
}

proof fn lemma_loaded_distinct(lines: Seq<Seq<char>>, chain: Chain, n: nat)
    ensures
        load_lines(lines, chain, n) matches Ok(reqs) ==> ids_distinct(reqs) && reqs.len() == n,
    decreases n,
{
    if n > 0 {
        lemma_loaded_distinct(lines, chain, (n - 1) as nat);
        if let Ok(reqs) = load_lines(lines, chain, (n - 1) as nat) {
            if let Ok(r) = parse_line(lines[n - 1], chain, n) {
                if !has_inscription(reqs, r.inscription) {
                    let all = reqs.push(r);
                    assert forall|a: int, b: int| 0 <= a < b < all.len() implies (#[trigger] all[a]).inscription != (#[trigger] all[b]).inscription by {
                        if b == reqs.len() {
                            assert(all[a] == reqs[a]);
                        }
                    }
                }
            }
        }
    }
}

proof fn lemma_error_stays(lines: Seq<Seq<char>>, chain: Chain, n: nat, m: nat)
    requires
        n <= m,
        load_lines(lines, chain, n) is Err,
    ensures
        load_lines(lines, chain, m) == load_lines(lines, chain, n),
    decreases m - n,
{
    if n < m {
        lemma_error_stays(lines, chain, n, (m - 1) as nat);
    }
}

fn chars_of(s: &String) -> (r: Vec<char>)
    ensures
        r@ == s@,
{
    let text = s.as_str();
    let n = text.unicode_len();
    let mut r: Vec<char> = Vec::new();
    let mut i: usize = 0;
    while i < n
        invariant
            n == text@.len(),
            text@ == s@,
            i <= n,
            r@ == text@.take(i as int),
        decreases n - i,
    {
        r.push(text.get_char(i));
        i = i + 1;
        assert(r@ =~= text@.take(i as int));
    }
    assert(r@ =~= text@);
    r
}

fn slice_chars(s: &Vec<char>, from: usize, to: usize) -> (r: Vec<char>)
    requires
        from <= to <= s@.len(),
    ensures
        r@ == s@.subrange(from as int, to as int),
{
    let mut r: Vec<char> = Vec::new();
    let mut i = from;
    while i < to
        invariant
            from <= i <= to <= s@.len(),
            r@ == s@.subrange(from as int, i as int),
        decreases to - i,
    {
        r.push(s[i]);
        i = i + 1;
        assert(r@ =~= s@.subrange(from as int, i as int));
    }
    r
}

fn skip_byte_order_marks(s: &Vec<char>) -> (r: usize)
    ensures
        r as int == skip_marks(s@, 0),
        r <= s@.len(),
{
    let mut i: usize = 0;
    while i < s.len() && s[i] == BYTE_ORDER_MARK
        invariant
            i <= s@.len(),
            skip_marks(s@, 0) == skip_marks(s@, i as int),
        decreases s@.len() - i,
    {
        i = i + 1;
    }
    i
}

/// Reads an address of `chain` into a destination, as a request line's second field is read.
pub fn read_destination(text: &String, chain: Chain) -> (r: Option<Destination>)
    ensures
        r.is_some() == (address_parses(text@) && address_on_chain(text@, chain)),
        r matches Some(d) ==> d.address@ == text@ && d.script_pubkey@ == address_script(text@)
            && d.script_pubkey@.len() <= 42,
{
    let address = chars_of(text);
    match destination_script(&address, chain) {
        Err(_) => None,
        Ok(script_pubkey) => Some(Destination { address, script_pubkey }),
    }
}

/// Reads one line of the request file; `line` is its number, counted from 1.
pub fn read_line(text: &String, chain: Chain, line: usize) -> (r: Result<Request, LoadError>)
    ensures
        match parse_line(text@, chain, line as nat) {
            Ok(v) => r matches Ok(q) && q@ == v,
            Err(e) => r matches Err(f) && f@ == e,
        },
        r matches Ok(q) ==> q.destination.script_pubkey@.len() <= 42,
{
    let s = chars_of(text);
    let start = skip_byte_order_marks(&s);
    let comma = find_char(&s, ',', start);
    let id_text = slice_chars(&s, start, comma);
    let inscription = match read_inscription_id(&id_text) {
        None => return Err(LoadError::BadInscriptionId { line }),
        Some(id) => id,
    };
    if comma == s.len() {
        return Err(LoadError::NoComma { line });
    }
    let end = find_char(&s, ',', comma + 1);
    let address = slice_chars(&s, comma + 1, end);
    match destination_script(&address, chain) {
        Err(AddressError::Syntax) => Err(LoadError::BadAddress { line }),
        Err(AddressError::Network) => Err(LoadError::WrongNetwork { line }),
        Ok(script_pubkey) => Ok(Request { inscription, destination: Destination { address, script_pubkey } }),
    }
}

fn find_request(reqs: &Vec<Request>, id: &InscriptionId) -> (r: Option<usize>)
    ensures
        match r {
            Some(k) => k < reqs@.len() && reqs@[k as int]@.inscription == id@,
            None => !has_inscription(requests_view(reqs@), id@),
        },
{
    let mut k: usize = 0;
    while k < reqs.len()
        invariant
            k <= reqs@.len(),
            forall|j: int| 0 <= j < k ==> (#[trigger] reqs@[j])@.inscription != id@,
        decreases reqs@.len() - k,
    {
        if reqs[k].inscription.same(id) {
            return Some(k);
        }
        k = k + 1;
    }
    proof {
        let v = requests_view(reqs@);
        assert forall|j: int| 0 <= j < v.len() implies (#[trigger] v[j]).inscription != id@ by {
            assert(v[j] == reqs@[j]@);
        }
    }
    None
}

/// Reads the request file, given as its lines: each line asks for one inscription to
/// go to one address of `chain`; the first line that fails decides the error.
pub fn load_requests(lines: &Vec<String>, chain: Chain) -> (r: Result<Vec<Request>, LoadError>)
    requires
        lines@.len() < usize::MAX,
    ensures
        match load_lines(lines_view(lines@), chain, lines@.len() as nat) {
            Ok(v) => r matches Ok(q) && requests_view(q@) == v,
            Err(e) => r matches Err(f) && f@ == e,
        },
        r matches Ok(q) ==> q@.len() == lines@.len() && ids_distinct(requests_view(q@))
            && forall|k: int| 0 <= k < q@.len() ==> (#[trigger] q@[k]).destination.script_pubkey@.len() <= 42,
{
    let ghost ls = lines_view(lines@);
    let mut reqs: Vec<Request> = Vec::new();
    let mut n: usize = 0;
    assert(requests_view(reqs@) =~= Seq::<RequestView>::empty());
    while n < lines.len()
        invariant
            n <= lines@.len() < usize::MAX,
            ls == lines_view(lines@),
            load_lines(ls, chain, n as nat) == Ok::<Seq<RequestView>, LoadErrorView>(requests_view(reqs@)),
            forall|k: int| 0 <= k < reqs@.len() ==> (#[trigger] reqs@[k]).destination.script_pubkey@.len() <= 42,
        decreases lines@.len() - n,
    {
        assert(ls[n as int] == lines@[n as int]@);
        let req = match read_line(&lines[n], chain, n + 1) {
            Err(e) => {
                proof {
                    lemma_error_stays(ls, chain, (n + 1) as nat, lines@.len() as nat);
                }
                return Err(e);
            },
            Ok(q) => q,
        };
        if let Some(k) = find_request(&reqs, &req.inscription) {
            proof {
                let v = requests_view(reqs@);
                assert(v[k as int] == reqs@[k as int]@);
                assert(has_inscription(v, req@.inscription));
                lemma_error_stays(ls, chain, (n + 1) as nat, lines@.len() as nat);
            }
            return Err(LoadError::Duplicate { inscription: req.inscription, line: n + 1 });
        }
        let ghost before = requests_view(reqs@);
        let ghost rv = req@;
        reqs.push(req);
        assert(requests_view(reqs@) =~= before.push(rv));
        n = n + 1;
    }
    proof {
        lemma_loaded_distinct(ls, chain, n as nat);
    }
    Ok(reqs)
}

} // verus!
