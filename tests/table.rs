use rainbow::{from_hex, Chain, HexError, Table, TableError};

fn md5_of(data: &[u8]) -> Vec<u8> {
    md5::compute(data).0.to_vec()
}

fn seeds_of(words: &[&str]) -> Vec<Vec<u8>> {
    words.iter().map(|w| w.as_bytes().to_vec()).collect()
}

fn build(words: &[&str], pass_len: usize, length: u64) -> Table {
    let bytes = Table::write(&seeds_of(words), pass_len, length).unwrap();
    Table::read(&bytes, pass_len).unwrap()
}

/// The (head, endpoint) records of an encoded table, in stored order.
fn records_of(bytes: &[u8], pass_len: usize) -> Vec<(Vec<u8>, Vec<u8>)> {
    let rec = pass_len + 16;
    bytes[16..]
        .chunks(rec)
        .map(|r| (r[..pass_len].to_vec(), r[pass_len..].to_vec()))
        .collect()
}

#[test]
fn two_seeds_recover_a_preimage() {
    let table = build(&["aaaaa", "bbbbb"], 5, 10);
    let target = md5_of(b"aaaaa");
    let found = table.get(&target).expect("the seed's digest is covered");
    assert_eq!(found.len(), 5);
    assert_eq!(md5_of(&found), target);
}

#[test]
fn single_seed_gives_itself_back() {
    for length in [1u64, 2, 7, 25] {
        let table = build(&["hello"], 5, length);
        assert_eq!(table.get(&md5_of(b"hello")), Some(b"hello".to_vec()));
    }
}

#[test]
fn zero_step_chains_do_not_match_their_own_endpoint() {
    let table = build(&["hello"], 5, 0);
    assert_eq!(table.chain_count(), 1);
    assert_eq!(table.get(&md5_of(b"hello")), None);
}

#[test]
fn digest_inside_a_chain_is_found() {
    let length = 6u64;
    let table = build(&["qwert"], 5, length);
    let mut hash = md5_of(b"qwert");
    let mut pass = b"qwert".to_vec();
    for step in 0..3u64 {
        pass = Table::reduce(step, &hash, 5);
        hash = md5_of(&pass);
    }
    let found = table.get(&hash).expect("a digest in the middle of the chain");
    assert_eq!(md5_of(&found), hash);
    assert_eq!(found, pass);
}

#[test]
fn round_trip_keeps_length_and_count() {
    let words = ["abcde", "fghij", "klmno", "pqrst"];
    let bytes = Table::write(&seeds_of(&words), 5, 9).unwrap();
    let table = Table::read(&bytes, 5).unwrap();
    assert_eq!(table.chain_length(), 9);
    assert_eq!(table.pass_len(), 5);
    assert!(table.chain_count() <= words.len());
    assert_eq!(table.chain_count(), 4);
}

#[test]
fn equal_seeds_collapse_to_one_chain() {
    let table = build(&["sameX", "sameX", "other"], 5, 4);
    assert_eq!(table.chain_count(), 2);
}

#[test]
fn found_preimages_hash_to_the_target() {
    let words = ["pass1", "pass2", "pass3", "pass4", "pass5"];
    let table = build(&words, 5, 12);
    for w in words.iter() {
        let target = md5_of(w.as_bytes());
        if let Some(p) = table.get(&target) {
            assert_eq!(md5_of(&p), target);
        }
    }
    for other in ["zzzzz", "01234", "ABCDE"] {
        let target = md5_of(other.as_bytes());
        if let Some(p) = table.get(&target) {
            assert_eq!(md5_of(&p), target);
        }
    }
}

#[test]
fn empty_table_finds_nothing() {
    let bytes = Table::write(&[], 5, 10).unwrap();
    assert_eq!(bytes, vec![0u8, 0, 0, 0, 0, 0, 0, 0, 10, 0, 0, 0, 0, 0, 0, 0]);
    let table = Table::read(&bytes, 5).unwrap();
    assert_eq!(table.chain_count(), 0);
    assert_eq!(table.get(&md5_of(b"aaaaa")), None);
    assert_eq!(table.get(&[0u8; 16]), None);
}

#[test]
fn unrelated_digest_is_not_found() {
    let table = build(&["aaaaa"], 5, 3);
    assert_eq!(table.get(&[0x42u8; 16]), None);
}

#[test]
fn reduce_maps_low_bytes_to_symbols() {
    let zero = [0u8; 16];
    assert_eq!(Table::reduce(0, &zero, 5), b"aaaaa".to_vec());
    assert_eq!(Table::reduce(1, &zero, 3), b"baa".to_vec());
    assert_eq!(Table::reduce(26, &zero, 1), b"A".to_vec());
    assert_eq!(Table::reduce(52, &zero, 1), b"0".to_vec());
    assert_eq!(Table::reduce(62, &zero, 1), b"_".to_vec());
    assert_eq!(Table::reduce(63, &zero, 1), b".".to_vec());
    assert_eq!(Table::reduce(64, &zero, 1), b"a".to_vec());
}

#[test]
fn reduce_carries_and_wraps() {
    let mut low = [0u8; 16];
    low[0] = 0xff;
    assert_eq!(Table::reduce(1, &low, 2), b"ab".to_vec());
    let full = [0xffu8; 16];
    assert_eq!(Table::reduce(1, &full, 16), vec![b'a'; 16]);
    let mut hash = [0u8; 16];
    hash[1] = 3;
    hash[2] = 40;
    assert_eq!(Table::reduce(0, &hash, 3), b"adO".to_vec());
}

#[test]
fn reduce_output_is_printable_and_sized() {
    for p in 1..=16usize {
        for step in [0u64, 1, 17, 1000, u64::MAX] {
            let hash = md5_of(&[p as u8, step as u8]);
            let out = Table::reduce(step, &hash, p);
            assert_eq!(out.len(), p);
            assert!(out.iter().all(|b| b.is_ascii_alphanumeric() || *b == b'_' || *b == b'.'));
        }
    }
}

#[test]
fn generate_follows_digest_and_reduction() {
    let chain = Chain::generate(b"seed1", 2, 5);
    let d0 = md5_of(b"seed1");
    let p1 = Table::reduce(0, &d0, 5);
    let d1 = md5_of(&p1);
    let p2 = Table::reduce(1, &d1, 5);
    assert_eq!(chain.pass, b"seed1".to_vec());
    assert_eq!(chain.hash, md5_of(&p2));
    assert_ne!(chain.hash, d0);
}

#[test]
fn write_lays_out_header_and_records() {
    let bytes = Table::write(&seeds_of(&["ab"]), 2, 0).unwrap();
    let mut expected = vec![1u8, 0, 0, 0, 0, 0, 0, 0, 0, 0, 0, 0, 0, 0, 0, 0];
    expected.extend_from_slice(b"ab");
    expected.extend_from_slice(&md5_of(b"ab"));
    assert_eq!(bytes, expected);
    let bytes = Table::write(&seeds_of(&["ab", "cd"]), 2, 0x0102).unwrap();
    assert_eq!(&bytes[..16], &[2u8, 0, 0, 0, 0, 0, 0, 0, 2, 1, 0, 0, 0, 0, 0, 0]);
    assert_eq!(bytes.len(), 16 + 2 * 18);
}

#[test]
fn generation_is_deterministic_and_order_free() {
    let a = Table::write(&seeds_of(&["one11", "two22", "thr33"]), 5, 8).unwrap();
    let b = Table::write(&seeds_of(&["one11", "two22", "thr33"]), 5, 8).unwrap();
    assert_eq!(a, b);
    let c = Table::write(&seeds_of(&["thr33", "one11", "two22"]), 5, 8).unwrap();
    let mut ra = records_of(&a, 5);
    let mut rc = records_of(&c, 5);
    ra.sort();
    rc.sort();
    assert_eq!(ra, rc);
}

#[test]
fn read_takes_the_later_of_colliding_records() {
    let mut bytes = vec![2u8, 0, 0, 0, 0, 0, 0, 0, 3, 0, 0, 0, 0, 0, 0, 0];
    bytes.extend_from_slice(b"x");
    bytes.extend_from_slice(&[7u8; 16]);
    bytes.extend_from_slice(b"y");
    bytes.extend_from_slice(&[7u8; 16]);
    bytes.extend_from_slice(b"trailing");
    let table = Table::read(&bytes, 1).unwrap();
    assert_eq!(table.chain_count(), 1);
    assert_eq!(table.chain_length(), 3);
    assert_eq!(table.chains.get(&u128::from_le_bytes([7u8; 16])), Some(&b"y".to_vec()));
}

#[test]
fn write_rejects_unsupported_lengths() {
    assert_eq!(Table::write(&seeds_of(&["a"]), 0, 1), Err(TableError::UnsupportedPassLen));
    let long = vec![vec![b'a'; 17]];
    assert_eq!(Table::write(&long, 17, 1), Err(TableError::UnsupportedPassLen));
}

#[test]
fn write_rejects_a_seed_of_the_wrong_length() {
    let seeds = seeds_of(&["abcde", "abcd", "abc"]);
    assert_eq!(
        Table::write(&seeds, 5, 1),
        Err(TableError::LengthMismatch { expected: 5, actual: 4 })
    );
}

#[test]
fn read_rejects_short_or_misconfigured_input() {
    assert_eq!(Table::read(&[0u8; 15], 5).err(), Some(TableError::Truncated));
    let mut bytes = vec![2u8, 0, 0, 0, 0, 0, 0, 0, 1, 0, 0, 0, 0, 0, 0, 0];
    bytes.extend_from_slice(&[1u8; 21]);
    assert_eq!(Table::read(&bytes, 5).err(), Some(TableError::Truncated));
    assert_eq!(Table::read(&bytes, 0).err(), Some(TableError::UnsupportedPassLen));
    assert_eq!(Table::read(&bytes, 17).err(), Some(TableError::UnsupportedPassLen));
    let huge = vec![0xffu8; 16];
    assert_eq!(Table::read(&huge, 5).err(), Some(TableError::Truncated));
}

#[test]
fn hex_reads_big_endian_digits() {
    let d = from_hex("d41d8cd98f00b204e9800998ecf8427e").unwrap();
    assert_eq!(
        d,
        vec![0xd4, 0x1d, 0x8c, 0xd9, 0x8f, 0x00, 0xb2, 0x04, 0xe9, 0x80, 0x09, 0x98, 0xec, 0xf8, 0x42, 0x7e]
    );
    assert_eq!(d, md5_of(b""));
    let mut ff = vec![0u8; 16];
    ff[15] = 0xff;
    assert_eq!(from_hex("+fF"), Ok(ff));
    assert_eq!(from_hex(&"0".repeat(40)), Ok(vec![0u8; 16]));
    assert_eq!(from_hex(&"F".repeat(32)), Ok(vec![0xffu8; 16]));
}

#[test]
fn hex_rejects_bad_text() {
    assert_eq!(from_hex(""), Err(HexError));
    assert_eq!(from_hex("+"), Err(HexError));
    assert_eq!(from_hex("-1"), Err(HexError));
    assert_eq!(from_hex("12g4"), Err(HexError));
    assert_eq!(from_hex(&"1".repeat(33)), Err(HexError));
}

#[test]
fn hex_digest_finds_the_seed() {
    let table = build(&["secret"], 6, 4);
    let text = format!("{:x}", md5::compute(b"secret"));
    let target = from_hex(&text).unwrap();
    assert_eq!(table.get(&target), Some(b"secret".to_vec()));
}
