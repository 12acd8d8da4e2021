use rsa_core::{
    add_round_key, compute_next_key, increment_rc, increment_rcon, key_schedule, rotate_word,
    substitute_byte, substitute_word, u128_to_words, vec_to_arr, vectorize_msg, words_to_u128,
};

#[test]
fn test_add_round_key() {
    let input_u128: u128 = 0x00000101_03030707_0f0f1f1f_3f3f7f7f;
    let input_vec: Vec<u8> = input_u128.to_le_bytes().to_vec();
    let key: u128 = 0x62636363_62636363_62636363_62636363;
    let res = add_round_key(input_vec, key);
    let expected: Vec<u8> = (0x62636262_61606464_6d6c7c7c_5d5c1c1c as u128).to_le_bytes().to_vec();
    assert_eq!(res, expected)
}

#[test]
fn test_key_schedule() {
    let res = key_schedule(0);
    let expected: [u128; 11] = [
        0x00000000_00000000_00000000_00000000,
        0x62636363_62636363_62636363_62636363,
        0x9b9898c9_f9fbfbaa_9b9898c9_f9fbfbaa,
        0x90973450_696ccffa_f2f45733_0b0fac99,
        0xee06da7b_876a1581_759e42b2_7e91ee2b,
        0x7f2e2b88_f8443e09_8dda7cbb_f34b9290,
        0xec614b85_1425758c_99ff0937_6ab49ba7,
        0x21751787_3550620b_acaf6b3c_c61bf09b,
        0x0ef90333_3ba96138_97060a04_511dfa9f,
        0xb1d4d8e2_8a7db9da_1d7bb3de_4c664941,
        0xb4ef5bcb_3e92e211_23e951cf_6f8f188e,
    ];
    assert_eq!(res, expected)
}

#[test]
fn test_u128_to_words() {
    let num: u128 = 0x1200001234;
    let expected: [u32; 4] = [0x1234, 0x12, 0, 0];
    let res = u128_to_words(num);
    assert_eq!(res, expected)
}

#[test]
fn test_words_to_u128() {
    let words: [u32; 4] = [0x1234, 0x12, 0, 0];
    let expected: u128 = 0x1200001234;
    let res = words_to_u128(words);
    assert_eq!(res, expected)
}

#[test]
fn test_increment_rcon() {
    let mut rcon = 0x1000000;
    for _ in 1..10 {
        rcon = increment_rcon(rcon);
    }
    assert_eq!(rcon, 0x36000000);
}

#[test]
fn test_rotate_word() {
    let word = 0x12345678;
    assert_eq!(rotate_word(word), 0x34567812)
}

#[test]
fn test_substitute_word() {
    let word = 0x12345678;
    assert_eq!(substitute_word(word), 0xc918b1bc)
}

#[test]
fn test_compute_next_key() {
    let rc: u8 = 1;
    let rcon = (rc as u32) << 24;
    let key_seed: u128 = 0;
    let r1 = compute_next_key(rcon, key_seed);
    assert_eq!(r1, 0x62636363626363636263636362636363);
    let rcon = increment_rcon(rcon);
    let r2 = compute_next_key(rcon, r1);
    assert_eq!(r2, 0x9b9898c9f9fbfbaa9b9898c9f9fbfbaa);
}

#[test]
fn substitute_byte_known_values() {
    assert_eq!(substitute_byte(0x00), 0x63);
    assert_eq!(substitute_byte(0x53), 0xed);
    assert_eq!(substitute_byte(0xff), 0x16);
}

#[test]
fn increment_rc_reduces_past_top_bit() {
    assert_eq!(increment_rc(0x01), 0x02);
    assert_eq!(increment_rc(0x80), 0x1b);
    assert_eq!(increment_rc(0x1b), 0x36);
}

#[test]
fn words_round_trip() {
    let num: u128 = 0x0123_4567_89ab_cdef_fedc_ba98_7654_3210;
    assert_eq!(words_to_u128(u128_to_words(num)), num);
    let words: [u32; 4] = [1, 0xdead_beef, 0, 0xffff_ffff];
    assert_eq!(u128_to_words(words_to_u128(words)), words);
}

#[test]
fn vec_to_arr_keeps_order() {
    let arr: [u8; 3] = vec_to_arr(vec![7, 8, 9]);
    assert_eq!(arr, [7, 8, 9]);
}

#[test]
fn vectorize_msg_pads_short_message() {
    let res = vectorize_msg(String::from("abc"));
    assert_eq!(res.len(), 125);
    assert_eq!(&res[..3], b"abc");
    assert!(res[3..].iter().all(|b| *b == b'-'));
}

#[test]
fn vectorize_msg_leaves_long_message() {
    let msg = "x".repeat(100);
    let res = vectorize_msg(msg.clone());
    assert_eq!(res, msg.into_bytes());
}
