use mfsk::engine::gray::{gray, inv_gray};

#[test]
fn bijective_and_self_inverse_at_every_width() {
    for bits in 1..=8u32 {
        let n_vals = 1u16 << bits;
        let mut seen = [false; 256];
        for n in 0..n_vals {
            let g = gray(n as u8, bits);
            assert!(!seen[g as usize], "bits={bits}: duplicate Gray for n={n}");
            seen[g as usize] = true;
            assert_eq!(inv_gray(g, bits), n as u8, "bits={bits}, n={n}");
        }
    }
}

#[test]
fn adjacent_codes_differ_in_one_bit() {
    for n in 0u8..63 {
        assert_eq!((gray(n, 6) ^ gray(n + 1, 6)).count_ones(), 1, "n={n}");
    }
}

#[test]
fn matches_the_replaced_copies_on_every_u8() {
    for n in 0..=255u8 {
        assert_eq!(gray(n, 6), (n ^ (n >> 1)) & 0x3f);
        assert_eq!(gray(n, 3), (n ^ (n >> 1)) & 0x7);
        let mut m = n & 0x3f;
        m ^= m >> 1;
        m ^= m >> 2;
        m ^= m >> 4;
        assert_eq!(inv_gray(n, 6), m & 0x3f);
        let mut m = n & 0x7;
        m ^= m >> 1;
        m ^= m >> 2;
        assert_eq!(inv_gray(n, 3), m & 0x7);
    }
}
