use playfair::alphabet::{letter_index, letter_of_index};
use playfair::{EncodingError, PlayfairCipher};

#[test]
fn test_playfair_cipher_simple_test() {
    let cipher = PlayfairCipher::new("Hello Playfair Cipher");
    let a = "This is a test.";
    let b = cipher.encode(a).unwrap();
    let c = cipher.decode(&b).unwrap();
    assert_eq!(a, c);
}

#[test]
fn test_playfair_cipher_wikipedia_example() {
    let cipher = PlayfairCipher::new("playfair example");
    let a = "hide the gold in the tree stump";
    let b = cipher.encode(a).unwrap();
    assert_eq!(b, "bmod zbx dnab ek udm uixmm ouvif");
}

#[test]
fn test_playfair_cipher_attack_at_dawn() {
    let cipher = PlayfairCipher::new("gravity falls");
    let a = "attack at dawn";
    let b = cipher.encode(a).unwrap();
    assert_eq!(b, "gffgbm gf nfaw");
}

#[test]
fn decode_wikipedia_example() {
    let cipher = PlayfairCipher::new("playfair example");
    let b = cipher.decode("bmod zbx dnab ek udm uixmm ouvif").unwrap();
    assert_eq!(b, "hide the gold in the trexe stump");
}

#[test]
fn round_trip_plain_letters() {
    let cipher = PlayfairCipher::new("monarchy");
    let a = "instrumentsx";
    let b = cipher.encode(a).unwrap();
    assert_ne!(b, a);
    assert_eq!(cipher.decode(&b).unwrap(), a);
}

#[test]
fn same_row_same_column_and_rectangle() {
    // square of "monarchy":
    // m o n a r
    // c h y b d
    // e f g i k
    // l p q s t
    // u v w x z
    let cipher = PlayfairCipher::new("monarchy");
    assert_eq!(cipher.encode("mo").unwrap(), "on");
    assert_eq!(cipher.encode("ar").unwrap(), "rm");
    assert_eq!(cipher.encode("mc").unwrap(), "ce");
    assert_eq!(cipher.encode("ru").unwrap(), "mz");
    assert_eq!(cipher.encode("mh").unwrap(), "oc");
    assert_eq!(cipher.decode("on").unwrap(), "mo");
    assert_eq!(cipher.decode("rm").unwrap(), "ar");
    assert_eq!(cipher.decode("ce").unwrap(), "mc");
    assert_eq!(cipher.decode("mz").unwrap(), "ru");
    assert_eq!(cipher.decode("oc").unwrap(), "mh");
}

#[test]
fn odd_count_gets_filler() {
    let cipher = PlayfairCipher::new("monarchy");
    // "a" is paired with the filler "x", in the same column
    assert_eq!(cipher.encode("a").unwrap(), "ba");
    assert_eq!(cipher.encode("a!").unwrap(), "b!a");
}

#[test]
fn doubled_letter_is_split() {
    let cipher = PlayfairCipher::new("monarchy");
    // "ee" -> "ex" "ex"
    let split = cipher.encode("ee").unwrap();
    let by_hand = cipher.encode("exex").unwrap();
    assert_eq!(split, by_hand);
    assert_eq!(split, "iuiu");
}

#[test]
fn doubled_filler_stays() {
    let cipher = PlayfairCipher::new("monarchy");
    assert_eq!(cipher.encode("x").unwrap(), "xx");
    assert_eq!(cipher.encode("xx").unwrap(), "xxxx");
}

#[test]
fn empty_text() {
    let cipher = PlayfairCipher::new("");
    assert_eq!(cipher.encode("").unwrap(), "");
    assert_eq!(cipher.decode("").unwrap(), "");
}

#[test]
fn passthrough_bytes_kept() {
    let cipher = PlayfairCipher::new("key");
    let b = cipher.encode("Hé, 12 wo-rld!").unwrap();
    let others: String = b.chars().filter(|c| !c.is_ascii_lowercase()).collect();
    assert_eq!(others, "Hé, 12 -!");
    let letters = b.chars().filter(|c| c.is_ascii_lowercase()).count();
    assert_eq!(letters, 6);
}

#[test]
fn j_encodes_as_i() {
    let cipher = PlayfairCipher::new("jumping");
    assert_eq!(
        cipher.encode("jolly jars").unwrap(),
        cipher.encode("iolly iars").unwrap()
    );
}

#[test]
fn key_with_repeats_and_other_bytes() {
    let a = PlayfairCipher::new("Zebra, ZEBRA zebras!");
    let b = PlayfairCipher::new("ebrazs");
    assert_eq!(a.encode("the quick brown fox").unwrap(), b.encode("the quick brown fox").unwrap());
}

#[test]
fn encode_or_decode_matches_encode_and_decode() {
    let cipher = PlayfairCipher::new("playfair example");
    let a = "hide the gold";
    assert_eq!(cipher.encode_or_decode(a, true), cipher.encode(a));
    let b = cipher.encode(a).unwrap();
    assert_eq!(cipher.encode_or_decode(&b, false), cipher.decode(&b));
    let ok: Result<String, EncodingError> = cipher.encode_or_decode(a, true);
    assert!(ok.is_ok());
}

#[test]
fn square_holds_each_letter_once() {
    let cipher = PlayfairCipher::new("playfair example");
    let mut seen = Vec::new();
    for row in 0..5 {
        for col in 0..5 {
            seen.push(cipher.letter(row, col));
        }
    }
    assert_eq!(&seen[..10], b"playfirexm");
    let mut sorted = seen.clone();
    sorted.sort();
    assert_eq!(sorted, b"abcdefghiklmnopqrstuvwxyz".to_vec());
}

#[test]
fn square_of_key_without_letters_is_the_alphabet() {
    let cipher = PlayfairCipher::new("123 ABC !");
    let mut seen = Vec::new();
    for row in 0..5 {
        for col in 0..5 {
            seen.push(cipher.letter(row, col));
        }
    }
    assert_eq!(seen, b"abcdefghiklmnopqrstuvwxyz".to_vec());
}

#[test]
fn key_with_j_places_i() {
    let cipher = PlayfairCipher::new("jazz");
    assert_eq!(cipher.letter(0, 0), b'i');
    assert_eq!(cipher.letter(0, 1), b'a');
    assert_eq!(cipher.letter(0, 2), b'z');
    assert_eq!(cipher.letter(0, 3), b'b');
}

#[test]
fn letter_count_is_rounded_up_to_even() {
    let cipher = PlayfairCipher::new("count");
    let b = cipher.encode("abc de-f g").unwrap();
    let letters = b.chars().filter(|c| c.is_ascii_lowercase()).count();
    assert_eq!(letters, 8);
    let b = cipher.encode("abcd").unwrap();
    assert_eq!(b.len(), 4);
}

#[test]
fn doubled_letters_add_fillers() {
    let cipher = PlayfairCipher::new("count");
    // "aa" is split into "ax" "ax": four letters from two
    let b = cipher.encode("aa").unwrap();
    assert_eq!(b.len(), 4);
    assert_eq!(b, cipher.encode("axax").unwrap());
}

#[test]
fn uppercase_passes_through() {
    let cipher = PlayfairCipher::new("playfair example");
    assert_eq!(cipher.encode("HIDE").unwrap(), "HIDE");
    assert_eq!(cipher.decode("HIDE").unwrap(), "HIDE");
}

#[test]
fn decode_of_main_message() {
    let cipher = PlayfairCipher::new("my own little secret");
    let m = cipher.decode("Rzie tt debtnwl. Dwm'e veseqt cmowmb!w").unwrap();
    assert_eq!(cipher.encode(&m).unwrap(), "Rzie tt debtnwl. Dwm'e veseqt cmowmb!w");
}

#[test]
fn alphabet_indices() {
    assert_eq!(letter_index(b'a'), Some(0));
    assert_eq!(letter_index(b'i'), Some(8));
    assert_eq!(letter_index(b'j'), Some(8));
    assert_eq!(letter_index(b'k'), Some(9));
    assert_eq!(letter_index(b'x'), Some(22));
    assert_eq!(letter_index(b'z'), Some(24));
    assert_eq!(letter_index(b'A'), None);
    assert_eq!(letter_index(b'{'), None);
    assert_eq!(letter_index(0xC3), None);
    assert_eq!(letter_of_index(0), b'a');
    assert_eq!(letter_of_index(8), b'i');
    assert_eq!(letter_of_index(9), b'k');
    assert_eq!(letter_of_index(24), b'z');
}
