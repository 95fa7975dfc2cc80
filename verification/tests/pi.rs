use num_bigint::{BigInt, Sign};
use pidigits::chudnovsky::{binary_split, chudnovsky, PiError};

const PI_1000: &str = "3.141592653589793238462643383279502884197169399375105820974944592307816406286208998628034825342117067982148086513282306647093844609550582231725359408128481117450284102701938521105559644622948954930381964428810975665933446128475648233786783165271201909145648566923460348610454326648213393607260249141273724587006606315588174881520920962829254091715364367892590360011330530548820466521384146951941511609433057270365759591953092186117381932611793105118548074462379962749567351885752724891227938183011949129833673362440656643086021394946395224737190702179860943702770539217176293176752384674818467669405132000568127145263560827785771342757789609173637178721468440901224953430146549585371050792279689258923542019956112129021960864034418159813629774771309960518707211349999998372978049951059731732816096318595024459455346908302642522308253344685035261931188171010003137838752886587533208381420617177669147303598253490428755468731159562863882353787593751957781857780532171226806613001927876611195909216420198";

#[test]
fn one_digit_is_the_literal_shortcut() {
    assert_eq!(chudnovsky(1).unwrap(), "3.1");
}

#[test]
fn zero_digits_rejected() {
    assert_eq!(chudnovsky(0).unwrap_err(), PiError::InvalidArgument);
}

#[test]
fn oversized_digit_count_rejected() {
    // the first digit count whose working precision digits * 4 no longer fits a u32
    assert_eq!(chudnovsky(u32::MAX / 4 + 1).unwrap_err(), PiError::InvalidArgument);
    assert_eq!(chudnovsky(u32::MAX).unwrap_err(), PiError::InvalidArgument);
}

#[test]
fn small_digit_counts() {
    assert_eq!(chudnovsky(2).unwrap(), "3.1");
    assert_eq!(chudnovsky(3).unwrap(), "3.14");
}

#[test]
fn known_digit_prefixes() {
    for d in [10usize, 50, 100, 1000] {
        let s = chudnovsky(d as u32).unwrap();
        assert_eq!(s, PI_1000[..d + 1], "digit count {}", d);
    }
}

#[test]
fn longer_requests_keep_stable_prefixes() {
    let s50 = chudnovsky(50).unwrap();
    let s100 = chudnovsky(100).unwrap();
    let s1000 = chudnovsky(1000).unwrap();
    assert_eq!(&s100[..51], s50.as_str());
    assert_eq!(&s1000[..101], s100.as_str());
}

#[test]
fn single_term_ranges_have_known_values() {
    let (p, q, r) = binary_split(0, 1);
    assert_eq!(p, BigInt::from(1u32));
    assert_eq!(q, BigInt::from(1u32));
    assert_eq!(r, BigInt::from(13591409u32));

    let (p, q, r) = binary_split(1, 2);
    assert_eq!(p, BigInt::from(5u32));
    assert_eq!(q, BigInt::from(10939058860032000u64));
    assert_eq!(r, BigInt::from(-2793657715i64));

    let (p, q, r) = binary_split(2, 3);
    assert_eq!(p, BigInt::from(231u32));
    assert_eq!(q, BigInt::from(87512470880256000u64));
    assert_eq!(r, BigInt::from(254994357387u64));
}

#[test]
fn single_term_ranges_match_leaf_formula() {
    for a in [1u32, 2, 3, 5, 8, 21] {
        let (p, q, r) = binary_split(a, a + 1);
        let ab = BigInt::from(a);
        let ep = (6 * &ab - 5) * (2 * &ab - 1) * (6 * &ab - 1);
        let eq = &ab * &ab * &ab * BigInt::from(10939058860032000u64);
        let mut er: BigInt = &ep * (13591409 + 545140134 * &ab);
        if a % 2 == 1 {
            er = -er;
        }
        assert_eq!(p, ep, "index {}", a);
        assert_eq!(q, eq, "index {}", a);
        assert_eq!(r, er, "index {}", a);
    }
}

#[test]
fn any_cut_gives_the_same_triple() {
    let whole = binary_split(0, 4);
    for m in 1u32..4 {
        let left = binary_split(0, m);
        let right = binary_split(m, 4);
        let p = &left.0 * &right.0;
        let q = &left.1 * &right.1;
        let r = &left.2 * &right.1 + &left.0 * &right.2;
        assert_eq!(p, whole.0, "cut {}", m);
        assert_eq!(q, whole.1, "cut {}", m);
        assert_eq!(r, whole.2, "cut {}", m);
    }
}

#[test]
fn leaf_sign_follows_index_parity() {
    assert_eq!(binary_split(0, 1).2.sign(), Sign::Plus);
    assert_eq!(binary_split(1, 2).2.sign(), Sign::Minus);
    assert_eq!(binary_split(2, 3).2.sign(), Sign::Plus);
    assert_eq!(binary_split(3, 4).2.sign(), Sign::Minus);
    assert_eq!(binary_split(4, 5).2.sign(), Sign::Plus);
}
