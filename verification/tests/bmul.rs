use mpz::fields::bmul::{bmul128_full, bmul64_full, rev64};

#[test]
fn bmul64_identity_and_zero() {
    assert_eq!(bmul64_full(0, 0xDEADBEEFCAFEBABE), (0, 0));
    assert_eq!(bmul64_full(0xDEADBEEFCAFEBABE, 0), (0, 0));
    assert_eq!(bmul64_full(1, 0xDEADBEEFCAFEBABE), (0xDEADBEEFCAFEBABE, 0));
    assert_eq!(bmul64_full(0xDEADBEEFCAFEBABE, 1), (0xDEADBEEFCAFEBABE, 0));
}

#[test]
fn bmul64_known_vectors() {
    // x * x = x^2, fits in low.
    assert_eq!(bmul64_full(2, 2), (4, 0));
    // x^63 * x = x^64: low 64 empty, hi bit 0 set.
    assert_eq!(bmul64_full(1 << 63, 2), (0, 1));
    // x^63 * x^63 = x^126: hi bit 62 set.
    assert_eq!(bmul64_full(1 << 63, 1 << 63), (0, 1 << 62));
    // (x^31 + ... + 1)^2 = x^62 + x^60 + ... + 1 (squaring in GF(2) just
    // spreads bits).
    assert_eq!(
        bmul64_full(0xFFFFFFFF, 0xFFFFFFFF),
        (0x5555_5555_5555_5555, 0)
    );
    // (x^63 + ... + 1)^2 = x^126 + x^124 + ... + 1: bits 0, 2, ..., 126.
    assert_eq!(
        bmul64_full(0xFFFFFFFFFFFFFFFF, 0xFFFFFFFFFFFFFFFF),
        (0x5555_5555_5555_5555, 0x5555_5555_5555_5555),
    );
}

#[test]
fn rev64_involution() {
    for x in [0u64, 1, 0x8000_0000_0000_0000, 0xDEADBEEFCAFEBABE, !0] {
        assert_eq!(rev64(rev64(x)), x, "rev(rev({x:#x})) != {x:#x}");
    }
    assert_eq!(rev64(1), 1u64 << 63);
    assert_eq!(rev64(0x80_00_00_00_00_00_00_00), 1);
}

#[test]
fn bmul128_identity_and_zero() {
    let big = 0xDEADBEEFCAFEBABE0123456789ABCDEFu128;
    assert_eq!(bmul128_full(0, big), (0, 0));
    assert_eq!(bmul128_full(big, 0), (0, 0));
    assert_eq!(bmul128_full(1, big), (big, 0));
    assert_eq!(bmul128_full(big, 1), (big, 0));
}

#[test]
fn bmul128_known_vectors() {
    // x * x = x^2, fits in low.
    assert_eq!(bmul128_full(2, 2), (4, 0));
    // x^127 * x = x^128: low empty, hi bit 0 set.
    assert_eq!(bmul128_full(1u128 << 127, 2), (0, 1));
    // x^127 * x^127 = x^254: hi bit 126 set.
    assert_eq!(bmul128_full(1u128 << 127, 1u128 << 127), (0, 1u128 << 126));
    // 64-bit all-ones squared: (x^63 + ... + 1)^2 = x^126 + x^124 + ... + 1,
    // so alternating bits 0, 2, ..., 126 are set, which fits in low 128.
    assert_eq!(
        bmul128_full(0xFFFFFFFFFFFFFFFF, 0xFFFFFFFFFFFFFFFF),
        (0x55555555555555555555555555555555, 0),
    );
}
