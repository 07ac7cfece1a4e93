use ord::model::Chain;
use ord::requests::{load_requests, read_destination, read_line, LoadError};
use ord::text::read_inscription_id;

const P2WPKH: &str = "BC1QW508D6QEJXTDG4Y5R3ZARVARY0C5XW7KV8F3T4";
const P2PKH: &str = "1A1zP1eP5QGefi2DMPTfTL5SLmv7DivfNa";

fn id_text(byte: &str, index: u32) -> String {
    format!("{}i{}", byte.repeat(32), index)
}

fn lines(ls: &[String]) -> Vec<String> {
    ls.to_vec()
}

fn p2wpkh_script() -> Vec<u8> {
    let mut s = vec![0x00, 0x14];
    s.extend_from_slice(&[
        0x75, 0x1e, 0x76, 0xe8, 0x19, 0x91, 0x96, 0xd4, 0x54, 0x94, 0x1c, 0x45, 0xd1, 0xb3, 0xa3, 0x23, 0xf1, 0x43,
        0x3b, 0xd6,
    ]);
    s
}

#[test]
fn reads_inscription_id() {
    let text: Vec<char> = id_text("ab", 7).chars().collect();
    let id = read_inscription_id(&text).unwrap();
    assert_eq!(id.txid.bytes, vec![0xab; 32]);
    assert_eq!(id.index, 7);
}

#[test]
fn inscription_id_hex_is_case_insensitive() {
    let upper: Vec<char> = id_text("AB", 1).chars().collect();
    let lower: Vec<char> = id_text("ab", 1).chars().collect();
    assert!(read_inscription_id(&upper).unwrap().same(&read_inscription_id(&lower).unwrap()));
}

#[test]
fn inscription_id_index_may_carry_plus() {
    let text: Vec<char> = format!("{}i+12", "00".repeat(32)).chars().collect();
    assert_eq!(read_inscription_id(&text).unwrap().index, 12);
}

#[test]
fn inscription_id_rejects_bad_forms() {
    for bad in [
        format!("{}x0", "00".repeat(32)),
        format!("{}i", "00".repeat(32)),
        format!("{}i-1", "00".repeat(32)),
        format!("{}i4294967296", "00".repeat(32)),
        format!("{}gg{}i0", "00".repeat(31), ""),
        "short".to_string(),
    ] {
        let text: Vec<char> = bad.chars().collect();
        assert!(read_inscription_id(&text).is_none(), "{}", bad);
    }
    let max: Vec<char> = format!("{}i4294967295", "00".repeat(32)).chars().collect();
    assert_eq!(read_inscription_id(&max).unwrap().index, u32::MAX);
}

#[test]
fn reads_a_request_line() {
    let line = format!("{},{}", id_text("11", 0), P2WPKH);
    let r = read_line(&line, Chain::Mainnet, 1).unwrap();
    assert_eq!(r.inscription.txid.bytes, vec![0x11; 32]);
    assert_eq!(r.destination.script_pubkey, p2wpkh_script());
    assert_eq!(r.destination.address.iter().collect::<String>(), P2WPKH);
}

#[test]
fn legacy_address_gives_its_script() {
    let line = format!("{},{}", id_text("11", 0), P2PKH);
    let r = read_line(&line, Chain::Mainnet, 1).unwrap();
    assert_eq!(r.destination.script_pubkey.len(), 25);
    assert_eq!(&r.destination.script_pubkey[..3], &[0x76, 0xa9, 0x14]);
}

#[test]
fn byte_order_marks_are_dropped() {
    let line = format!("\u{feff}\u{feff}{},{}", id_text("11", 0), P2WPKH);
    assert!(read_line(&line, Chain::Mainnet, 1).is_ok());
}

#[test]
fn third_field_is_not_read() {
    let line = format!("{},{},whatever", id_text("11", 0), P2WPKH);
    let r = read_line(&line, Chain::Mainnet, 1).unwrap();
    assert_eq!(r.destination.script_pubkey, p2wpkh_script());
}

#[test]
fn line_errors_name_the_line() {
    let ok = format!("{},{}", id_text("11", 0), P2WPKH);
    let cases: Vec<(String, fn(&LoadError) -> bool)> = vec![
        ("not an id".to_string(), |e| matches!(e, LoadError::BadInscriptionId { line: 2 })),
        ("".to_string(), |e| matches!(e, LoadError::BadInscriptionId { line: 2 })),
        (id_text("22", 0), |e| matches!(e, LoadError::NoComma { line: 2 })),
        (format!("{},nope", id_text("22", 0)), |e| matches!(e, LoadError::BadAddress { line: 2 })),
    ];
    for (second, check) in cases {
        let r = load_requests(&lines(&[ok.clone(), second.clone()]), Chain::Mainnet);
        assert!(check(&r.unwrap_err()), "{}", second);
    }
}

#[test]
fn wrong_network_is_refused() {
    let line = format!("{},{}", id_text("11", 0), P2WPKH);
    let r = load_requests(&lines(&[line]), Chain::Regtest);
    assert!(matches!(r.unwrap_err(), LoadError::WrongNetwork { line: 1 }));
}

#[test]
fn duplicate_ids_are_refused() {
    let a = format!("{},{}", id_text("11", 0), P2WPKH);
    let b = format!("{},{}", id_text("22", 0), P2PKH);
    let c = format!("{},{}", id_text("11", 0), P2PKH);
    match load_requests(&lines(&[a, b, c]), Chain::Mainnet).unwrap_err() {
        LoadError::Duplicate { inscription, line } => {
            assert_eq!(line, 3);
            assert_eq!(inscription.txid.bytes, vec![0x11; 32]);
        },
        e => panic!("{:?}", e),
    }
}

#[test]
fn loads_requests_in_order() {
    let a = format!("{},{}", id_text("11", 0), P2WPKH);
    let b = format!("{},{}", id_text("11", 1), P2PKH);
    let reqs = load_requests(&lines(&[a, b]), Chain::Mainnet).unwrap();
    assert_eq!(reqs.len(), 2);
    assert_eq!(reqs[0].inscription.index, 0);
    assert_eq!(reqs[1].inscription.index, 1);
}

#[test]
fn empty_file_gives_no_requests() {
    assert!(load_requests(&Vec::new(), Chain::Mainnet).unwrap().is_empty());
}

#[test]
fn reads_change_destination() {
    let d = read_destination(&P2WPKH.to_string(), Chain::Mainnet).unwrap();
    assert_eq!(d.script_pubkey, p2wpkh_script());
    assert!(read_destination(&P2WPKH.to_string(), Chain::Testnet).is_none());
    assert!(read_destination(&"junk".to_string(), Chain::Mainnet).is_none());
}
