use forest_fire::seed::{seed_from_digest, seed_from_text};

#[test]
fn seed_reads_the_first_eight_bytes_lowest_first() {
    let mut digest = [0u8; 32];
    for (i, byte) in digest.iter_mut().enumerate() {
        *byte = (i + 1) as u8;
    }
    assert_eq!(seed_from_digest(&digest), 0x0807_0605_0403_0201);
}

#[test]
fn seed_ignores_the_rest_of_the_digest() {
    let mut digest = [0xffu8; 32];
    for byte in digest.iter_mut().take(8) {
        *byte = 0;
    }
    assert_eq!(seed_from_digest(&digest), 0);
    digest[0] = 1;
    assert_eq!(seed_from_digest(&digest), 1);
    digest[7] = 0x80;
    assert_eq!(seed_from_digest(&digest), 0x8000_0000_0000_0001);
}

#[test]
fn seed_of_all_ones_is_the_largest() {
    assert_eq!(seed_from_digest(&[0xff; 32]), u64::MAX);
}

#[test]
fn seed_of_the_empty_text() {
    assert_eq!(seed_from_text(""), 0x141c_fc98_42c4_b0e3);
}

#[test]
fn seed_of_a_short_text() {
    assert_eq!(seed_from_text("abc"), 0xeacf_018f_bf16_78ba);
}

#[test]
fn same_text_gives_the_same_seed() {
    assert_eq!(seed_from_text("forest"), seed_from_text("forest"));
    assert_ne!(seed_from_text("forest"), seed_from_text("Forest"));
}
