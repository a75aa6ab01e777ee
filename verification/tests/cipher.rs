// The two keystream ciphers: round trips, foreign-character passthrough with
// a single warning flag, key uniformity, and the alphabet parser.

use shakelock::cipher::binary;
use shakelock::cipher::textual;
use shakelock::alphabet::parse_alphabet;
use shakelock::alphabet::find_last_index;

fn chars_of(s: &str) -> Vec<char> {
    s.chars().collect()
}

fn default_alphabet() -> Vec<char> {
    chars_of("abcdefghijklmnopqrstuvwxyz ")
}

#[test]
fn binary_roundtrip() {
    let data: Vec<u8> = (0..=255u8).collect();
    let cipher = binary(b"hunter2", &data);
    assert_eq!(cipher.len(), data.len());
    assert_ne!(cipher, data);
    let plain = binary(b"hunter2", &cipher);
    assert_eq!(plain, data);
}

#[test]
fn binary_empty_input() {
    let out = binary(b"pw", &[]);
    assert_eq!(out.len(), 0);
}

#[test]
fn binary_wrong_password_differs() {
    let data = b"attack at dawn".to_vec();
    let cipher = binary(b"right", &data);
    let wrong = binary(b"wrong", &cipher);
    assert_ne!(wrong, data);
}

#[test]
fn textual_roundtrip() {
    let alphabet = default_alphabet();
    let text = chars_of("the quick brown fox jumps over the lazy dog");
    let (cipher, warned) = textual(b"pass", &text, &alphabet, true).unwrap();
    assert!(!warned);
    assert_eq!(cipher.len(), text.len());
    assert_ne!(cipher, text);
    let (plain, warned_back) = textual(b"pass", &cipher, &alphabet, false).unwrap();
    assert!(!warned_back);
    assert_eq!(plain, text);
}

#[test]
fn textual_roundtrip_custom_alphabet() {
    let alphabet = chars_of("0123456789");
    let text = chars_of("8675309");
    let (cipher, _) = textual(b"jenny", &text, &alphabet, true).unwrap();
    let (plain, _) = textual(b"jenny", &cipher, &alphabet, false).unwrap();
    assert_eq!(plain, text);
}

#[test]
fn foreign_characters_pass_through() {
    let alphabet = default_alphabet();
    let text = chars_of("msg: 42!");
    let (cipher, warned) = textual(b"pw", &text, &alphabet, true).unwrap();
    // One warning however many foreign characters there are.
    assert!(warned);
    assert_eq!(cipher[3], ':');
    assert_eq!(cipher[5], '4');
    assert_eq!(cipher[6], '2');
    assert_eq!(cipher[7], '!');
    // In-alphabet characters land back in the alphabet.
    for &c in [cipher[0], cipher[1], cipher[2], cipher[4]].iter() {
        assert!(alphabet.contains(&c));
    }
}

#[test]
fn no_foreign_no_warning() {
    let alphabet = default_alphabet();
    let text = chars_of("plain words only");
    let (_, warned) = textual(b"pw", &text, &alphabet, true).unwrap();
    assert!(!warned);
}

#[test]
fn textual_empty_alphabet_passes_everything_through() {
    let alphabet: Vec<char> = Vec::new();
    let text = chars_of("unchanged");
    let (cipher, warned) = textual(b"pw", &text, &alphabet, true).unwrap();
    assert_eq!(cipher, text);
    assert!(warned);
}

#[test]
fn key_uniformity() {
    // Encrypting a constant text makes each output character's index
    // input_index + key mod 27, so uniform keys give uniform output symbols.
    let alphabet = default_alphabet();
    let text: Vec<char> = std::iter::repeat('a').take(10800).collect();
    let (cipher, _) = textual(b"uniform", &text, &alphabet, true).unwrap();
    let mut counts = [0usize; 27];
    for c in cipher {
        let i = alphabet.iter().position(|&a| a == c).unwrap();
        counts[i] += 1;
    }
    // 10800 draws over 27 symbols: 400 expected each; allow a generous band.
    for &n in counts.iter() {
        assert!(n > 280 && n < 520, "symbol count {} is far from uniform", n);
    }
}

#[test]
fn last_match_wins_lookup() {
    let alphabet = chars_of("abca");
    assert_eq!(find_last_index(&alphabet, 'a'), Some(3));
    assert_eq!(find_last_index(&alphabet, 'b'), Some(1));
    assert_eq!(find_last_index(&alphabet, 'z'), None);
}

#[test]
fn parse_alphabet_basic() {
    assert_eq!(parse_alphabet(&chars_of("a,b,c")), vec!['a', 'b', 'c']);
}

#[test]
fn parse_alphabet_empty_chunk_is_comma() {
    assert_eq!(parse_alphabet(&chars_of("a,,b")), vec!['a', ',', 'b']);
    assert_eq!(parse_alphabet(&chars_of(",")), vec![',', ',']);
}

#[test]
fn parse_alphabet_takes_first_of_chunk() {
    assert_eq!(parse_alphabet(&chars_of("ab,cd")), vec!['a', 'c']);
}

#[test]
fn parse_alphabet_empty_line() {
    assert_eq!(parse_alphabet(&Vec::new()), vec![',']);
}

#[test]
fn parse_default_alphabet_line() {
    let line = chars_of("a,b,c,d,e,f,g,h,i,j,k,l,m,n,o,p,q,r,s,t,u,v,w,x,y,z, ");
    let parsed = parse_alphabet(&line);
    assert_eq!(parsed, default_alphabet());
}
