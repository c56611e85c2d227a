use enigma::config::Configuration;
use enigma::keyfile::{read_keyfile, KeyfileError};
use enigma::machine::Enigma;

fn setup(order: [usize; 3], ring: [u8; 3], n_plugs: usize, plugs: &[u8], start: [u8; 3]) -> Configuration {
    Configuration { order, ring, n_plugs, plugs: plugs.to_vec(), start }
}

#[test]
fn key_file_without_plugs() {
    let got = read_keyfile(b"1 2 3\nA A A\n0\nA A A\n");
    assert_eq!(got, Ok(Configuration::default()));
}

#[test]
fn key_file_with_plugs() {
    let got = read_keyfile(b"5 4 3\nB C D\n3\nAB CD EF\nX Y Z\n");
    assert_eq!(got, Ok(setup([4, 3, 2], [1, 2, 3], 3, b"AB CD EF", [23, 24, 25])));
}

#[test]
fn key_file_gives_a_machine() {
    let config = read_keyfile(b"1 2 3\nA A A\n3\nAB cd-EF\nA A A\n").unwrap();
    assert!(config.is_valid());
    let mut m = Enigma::new(config);
    assert_eq!(m.encipher_text(b"HELLOWORLD"), b"XOMXDMGOFS".to_vec());
}

#[test]
fn rotors_are_counted_from_one() {
    let got = read_keyfile(b"1 1 5\nA A A\n0\nA A A\n").unwrap();
    assert_eq!(got.order, [0, 0, 4]);
    assert_eq!(read_keyfile(b"0 1 2\nA A A\n0\nA A A\n"), Err(KeyfileError::Malformed));
    assert_eq!(read_keyfile(b"1 2 6\nA A A\n0\nA A A\n"), Err(KeyfileError::Malformed));
    assert_eq!(read_keyfile(b"1 2 x\nA A A\n0\nA A A\n"), Err(KeyfileError::Malformed));
    assert_eq!(read_keyfile(b"1 -2 3\nA A A\n0\nA A A\n"), Err(KeyfileError::Malformed));
    assert_eq!(read_keyfile(b"A B C\nA A A\n0\nA A A\n"), Err(KeyfileError::Malformed));
    assert_eq!(
        read_keyfile(b"1 2 99999999999999999999999\nA A A\n0\nA A A\n"),
        Err(KeyfileError::Malformed)
    );
}

#[test]
fn numbers_may_have_leading_zeros() {
    let got = read_keyfile(b"01 002 3\n01 026 A\n000\nA A A\n").unwrap();
    assert_eq!(got, setup([0, 1, 2], [0, 25, 0], 0, b"", [0, 0, 0]));
}

#[test]
fn ring_settings_as_letters() {
    let got = read_keyfile(b"1 2 3\nA M Z\n0\nA A A\n").unwrap();
    assert_eq!(got.ring, [0, 12, 25]);
    let got = read_keyfile(b"1 2 3\na m z\n0\nA A A\n").unwrap();
    assert_eq!(got.ring, [0, 12, 25]);
}

#[test]
fn ring_settings_as_numbers() {
    let got = read_keyfile(b"1 2 3\n1 13 26\n0\nA A A\n").unwrap();
    assert_eq!(got.ring, [0, 12, 25]);
}

#[test]
fn ring_settings_written_either_way_are_the_same_setup() {
    let letters = read_keyfile(b"3 2 1\nB C D\n0\nQ E V\n").unwrap();
    let numbers = read_keyfile(b"3 2 1\n2 3 4\n0\nQ E V\n").unwrap();
    let mixed = read_keyfile(b"3 2 1\nb 3 D\n0\nQ E V\n").unwrap();
    assert_eq!(letters, numbers);
    assert_eq!(letters, mixed);
    assert_eq!(letters, setup([2, 1, 0], [1, 2, 3], 0, b"", [16, 4, 21]));
    let a = Enigma::new(letters).encipher_text(b"RINGSETTING");
    let b = Enigma::new(numbers).encipher_text(b"RINGSETTING");
    assert_eq!(a, b);
}

#[test]
fn ring_settings_that_are_neither() {
    assert_eq!(read_keyfile(b"1 2 3\n0 1 1\n0\nA A A\n"), Err(KeyfileError::Malformed));
    assert_eq!(read_keyfile(b"1 2 3\n1 27 1\n0\nA A A\n"), Err(KeyfileError::Malformed));
    assert_eq!(read_keyfile(b"1 2 3\nAA A A\n0\nA A A\n"), Err(KeyfileError::Malformed));
    assert_eq!(read_keyfile(b"1 2 3\nA A ?\n0\nA A A\n"), Err(KeyfileError::Malformed));
    assert_eq!(read_keyfile(b"1 2 3\nA A 1A\n0\nA A A\n"), Err(KeyfileError::Malformed));
    // the code of a letter is no ring setting
    assert_eq!(read_keyfile(b"1 2 3\n65 65 65\n0\nA A A\n"), Err(KeyfileError::Malformed));
}

#[test]
fn too_few_rotors_or_ring_settings() {
    assert_eq!(read_keyfile(b"1 2\nA A A\n0\nA A A\n"), Err(KeyfileError::TooFewTokens));
    assert_eq!(read_keyfile(b"\nA A A\n0\nA A A\n"), Err(KeyfileError::TooFewTokens));
    assert_eq!(read_keyfile(b"1 2 3\nA A\n0\nA A A\n"), Err(KeyfileError::TooFewTokens));
    assert_eq!(read_keyfile(b"1 2 3\n   \n0\nA A A\n"), Err(KeyfileError::TooFewTokens));
    assert_eq!(read_keyfile(b""), Err(KeyfileError::TooFewTokens));
    assert_eq!(read_keyfile(b"1 2 3"), Err(KeyfileError::TooFewTokens));
    assert_eq!(read_keyfile(b"1 2 3\n"), Err(KeyfileError::TooFewTokens));
}

#[test]
fn too_few_fields_are_reported_before_a_bad_field() {
    assert_eq!(read_keyfile(b"x 2\nA A A\n0\nA A A\n"), Err(KeyfileError::TooFewTokens));
    assert_eq!(read_keyfile(b"x 2 3\nA A\n0\nA A A\n"), Err(KeyfileError::Malformed));
}

#[test]
fn fields_do_not_run_over_the_end_of_a_line() {
    // the third rotor stands on the next line
    assert_eq!(read_keyfile(b"1 2\n3\nA A A\n0\nA A A\n"), Err(KeyfileError::TooFewTokens));
}

#[test]
fn number_of_pairs() {
    assert_eq!(read_keyfile(b"1 2 3\nA A A\n\nA A A\n"), Err(KeyfileError::TooFewTokens));
    assert_eq!(read_keyfile(b"1 2 3\nA A A\n"), Err(KeyfileError::TooFewTokens));
    assert_eq!(read_keyfile(b"1 2 3\nA A A\nx\nA A A\n"), Err(KeyfileError::Malformed));
    assert_eq!(read_keyfile(b"1 2 3\nA A A\n-1\nA A A\n"), Err(KeyfileError::Malformed));
    assert_eq!(
        read_keyfile(b"1 2 3\nA A A\n14\nABCDEFGHIJKLMNOPQRSTUVWXYZAB\nA A A\n"),
        Err(KeyfileError::Malformed)
    );
    let got = read_keyfile(b"1 2 3\nA A A\n13\nABCDEFGHIJKLMNOPQRSTUVWXYZ\nA A A\n").unwrap();
    assert_eq!(got.n_plugs, 13);
    assert_eq!(got.plugs, b"ABCDEFGHIJKLMNOPQRSTUVWXYZ".to_vec());
}

#[test]
fn plug_line_is_there_only_if_pairs_are_plugged() {
    // with no pairs, the line after the count holds the starting positions
    let got = read_keyfile(b"1 2 3\nA A A\n0\nB C D\nX Y Z\n").unwrap();
    assert_eq!(got, setup([0, 1, 2], [0, 0, 0], 0, b"", [1, 2, 3]));
    // with pairs, it holds the plug string
    let got = read_keyfile(b"1 2 3\nA A A\n1\nB C D\nX Y Z\n").unwrap();
    assert_eq!(got, setup([0, 1, 2], [0, 0, 0], 1, b"B C D", [23, 24, 25]));
}

#[test]
fn plugged_pairs_must_be_there_and_share_no_letter() {
    assert_eq!(read_keyfile(b"1 2 3\nA A A\n2\nAB C\nA A A\n"), Err(KeyfileError::Malformed));
    assert_eq!(read_keyfile(b"1 2 3\nA A A\n1\n\nA A A\n"), Err(KeyfileError::Malformed));
    assert_eq!(read_keyfile(b"1 2 3\nA A A\n2\nAB BC\nA A A\n"), Err(KeyfileError::Malformed));
    assert_eq!(read_keyfile(b"1 2 3\nA A A\n2\nAB Ca\nA A A\n"), Err(KeyfileError::Malformed));
    assert_eq!(read_keyfile(b"1 2 3\nA A A\n1\nAA\nA A A\n"), Err(KeyfileError::Malformed));
}

#[test]
fn bytes_of_the_plug_string_that_are_no_letters_are_passed_over() {
    let got = read_keyfile(b"1 2 3\nA A A\n2\n a1b; 22 C\t-d \nA A A\n").unwrap();
    assert_eq!(got.n_plugs, 2);
    assert_eq!(got.plugs, b" a1b; 22 C\t-d ".to_vec());
    let m = Enigma::new(got);
    assert_eq!(m.plug(0), 1);
    assert_eq!(m.plug(1), 0);
    assert_eq!(m.plug(2), 3);
    assert_eq!(m.plug(3), 2);
}

#[test]
fn starting_positions() {
    let got = read_keyfile(b"1 2 3\nA A A\n0\nq E v\n").unwrap();
    assert_eq!(got.start, [16, 4, 21]);
    assert_eq!(read_keyfile(b"1 2 3\nA A A\n0\nA A\n"), Err(KeyfileError::TooFewTokens));
    assert_eq!(read_keyfile(b"1 2 3\nA A A\n0\n"), Err(KeyfileError::TooFewTokens));
    assert_eq!(read_keyfile(b"1 2 3\nA A A\n0\nAAA\n"), Err(KeyfileError::TooFewTokens));
    assert_eq!(read_keyfile(b"1 2 3\nA A A\n0\nA A 1\n"), Err(KeyfileError::Malformed));
    assert_eq!(read_keyfile(b"1 2 3\nA A A\n0\nA AB C\n"), Err(KeyfileError::Malformed));
    assert_eq!(read_keyfile(b"1 2 3\nA A A\n1\nAB\n"), Err(KeyfileError::TooFewTokens));
}

#[test]
fn a_bad_plug_string_is_reported_after_the_starting_positions() {
    assert_eq!(read_keyfile(b"1 2 3\nA A A\n1\nAA\nA A\n"), Err(KeyfileError::TooFewTokens));
    assert_eq!(read_keyfile(b"1 2 3\nA A A\n1\nAA\nA A 1\n"), Err(KeyfileError::Malformed));
}

#[test]
fn what_follows_the_fields_of_a_line_is_not_looked_at() {
    let got = read_keyfile(b"1 2 3 rotors\nA B C rings 77\n2 pairs\nAB CD\nX Y Z start\nmore\n");
    assert_eq!(got, Ok(setup([0, 1, 2], [0, 1, 2], 2, b"AB CD", [23, 24, 25])));
}

#[test]
fn blanks_between_fields() {
    let got = read_keyfile(b"  1\t2   3  \n\tA  B\x0bC\n \x0c1\nAB\n X\tY  Z");
    assert_eq!(got, Ok(setup([0, 1, 2], [0, 1, 2], 1, b"AB", [23, 24, 25])));
}

#[test]
fn lines_that_end_in_carriage_return_and_line_feed() {
    let got = read_keyfile(b"1 2 3\r\nA A A\r\n1\r\nAB\r\nA A A\r\n");
    assert_eq!(got, Ok(setup([0, 1, 2], [0, 0, 0], 1, b"AB\r", [0, 0, 0])));
}

#[test]
fn last_line_without_line_feed() {
    let got = read_keyfile(b"1 2 3\nA A A\n0\nA B C");
    assert_eq!(got, Ok(setup([0, 1, 2], [0, 0, 0], 0, b"", [0, 1, 2])));
}
