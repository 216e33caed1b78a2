use pip_fri::algebra::coset::Coset;
use pip_fri::algebra::field::ft255::Ft255;
use pip_fri::algebra::field::{Field, FieldOps};
use pip_fri::algebra::polynomial::MultilinearPolynomial;
use pip_fri::folding::fold_codeword;
use pip_fri::pcs::laws::prove_and_verify;
use pip_fri::random_oracle::RandomOracle;
use pip_fri::{CODE_RATE, SECURITY_BITS};

type F = Ft255;

fn f(x: u64) -> F {
    F::from_int(x)
}

fn limbs(x: F) -> [u64; 4] {
    x.limbs()
}

const MODULUS: [u64; 4] = [190543166070325249, 17254354020929724208, 18278385774042241385, 7366896798948731136];

#[test]
fn ft255_integers_are_held_in_montgomery_form() {
    assert_eq!(limbs(f(0)), [0, 0, 0, 0]);
    // 2^256 mod p
    assert_eq!(limbs(f(1)), [18065657741568901118, 2384780105559654815, 336716599334620460, 3712950475812089342]);
    assert_eq!(limbs(f(5)), [16160226080865648628, 14308680633357928895, 2020299596007722760, 3830958781162984436]);
    assert_eq!(limbs(f(u64::MAX)), [13785591677127841651, 16483243538402027856, 13785107197126175248, 4101125319691185138]);
}

#[test]
fn ft255_constants() {
    assert_eq!(F::log_order_value(), 41);
    assert_eq!(
        limbs(F::root_of_unity()),
        [11273735707518656615, 10803742158212994690, 9604558309451741198, 1652257763144146550]
    );
    assert_eq!(
        limbs(F::inverse_2()),
        [18256200907639226367, 1192390052779827407, 168358299667310230, 1856475237906044671]
    );
    assert!(F::inverse_2().mul(f(2)).equals(&f(1)));
    assert!(F::inverse_2().add(F::inverse_2()).equals(&f(1)));
}

#[test]
fn ft255_root_of_unity_has_the_advertised_order() {
    let mut x = F::root_of_unity();
    for _ in 0..40 {
        x = x.mul(x);
    }
    assert!(x.equals(&f(0).sub(f(1))));
    assert!(!x.equals(&f(1)));
    assert!(x.mul(x).equals(&f(1)));
}

#[test]
fn ft255_arithmetic_on_known_values() {
    let a = F::from_limbs([2341106124702515189, 16237511222226309503, 16263557157162687245, 3295265652374288393]).unwrap();
    let b = F::from_limbs([5558990052547131584, 15880091815368844607, 16136813543909275569, 458259158762207141]).unwrap();
    assert_eq!(limbs(a.add(b)), [7900096177249646773, 13670858963885602494, 13953626627362411199, 3753524811136495535]);
    assert_eq!(limbs(a.sub(b)), [15228860145864935221, 357419406857464895, 126743613253411676, 2837006493612081252]);
    assert_eq!(limbs(b.sub(a)), [3408427093914941644, 16896934614072259312, 18151642160788829709, 4529890305336649884]);
    assert_eq!(limbs(a.mul(b)), [5998348055279282182, 8609183429229747555, 11690451778018469921, 7316542033251847131]);
    assert_eq!(limbs(a.mul(a)), [5179481542823330609, 10902448249944227070, 4587185944020572394, 5791231424698183342]);
    assert_eq!(limbs(a.inverse()), [9154534818558090434, 3092590923875848315, 13583382548543205843, 4021630421201650919]);
    assert_eq!(limbs(f(3).inverse()), [6085400302546408789, 6546378042163126341, 56119433222436743, 3693282424920273493]);
    // p - 12345 is -12345
    assert!(b.add(f(12345)).is_zero());
}

#[test]
fn ft255_small_arithmetic() {
    assert!(f(7).add(f(8)).equals(&f(15)));
    assert!(f(7).mul(f(8)).equals(&f(56)));
    assert!(f(8).sub(f(7)).equals(&f(1)));
    assert!(f(7).sub(f(8)).add(f(1)).is_zero());
    assert!(f(1 << 63).mul(f(4)).equals(&f(1 << 62).mul(f(8))));
    for x in [f(1), f(2), f(12345), f(u64::MAX), f(0).sub(f(1))] {
        assert!(x.mul(x.inverse()).equals(&f(1)));
        assert!(x.mul(f(1)).equals(&x));
        assert!(x.add(f(0)).equals(&x));
        assert!(x.sub(x).is_zero());
    }
}

#[test]
fn ft255_zero_test_and_equality() {
    assert!(f(0).is_zero());
    assert!(!f(1).is_zero());
    assert!(f(9).equals(&f(9)));
    assert!(!f(9).equals(&f(10)));
}

#[test]
fn ft255_limbs_must_be_reduced() {
    assert!(F::from_limbs(MODULUS).is_none());
    assert!(F::from_limbs([u64::MAX; 4]).is_none());
    let mut below = MODULUS;
    below[0] -= 1;
    let top = F::from_limbs(below).unwrap();
    assert_eq!(limbs(top), below);
    // (p - 1) + 1 wraps to zero
    assert!(top.add(F::from_limbs([1, 0, 0, 0]).unwrap()).is_zero());
    let mut above = MODULUS;
    above[0] += 1;
    assert!(F::from_limbs(above).is_none());
}

#[test]
fn ft255_bytes_are_the_limbs_in_little_endian() {
    let x = F::from_limbs([0x0102, 0x0a0b, 3, 4]).unwrap();
    let bytes = x.to_bytes();
    assert_eq!(bytes.len(), 32);
    assert_eq!(bytes[..2], [0x02, 0x01]);
    assert_eq!(bytes[8..10], [0x0b, 0x0a]);
    assert_eq!(bytes[16], 3);
    assert_eq!(bytes[24], 4);
    let expected: Vec<u8> = x.limbs().iter().flat_map(|l| l.to_le_bytes().to_vec()).collect();
    assert_eq!(bytes, expected);
}

#[test]
fn ft255_random_elements_are_reduced_and_differ() {
    for _ in 0..20 {
        let x = F::random_element();
        assert!(F::from_limbs(x.limbs()).is_some());
    }
    assert!(!F::random_element().equals(&F::random_element()));
}

#[test]
fn ft255_fold_of_the_literal_vector() {
    // v = (1, 2, 3, 4) on {1, w, -1, -w} with w^2 = -1 and r = 5:
    // the first entry is ((1 + 3) + 5 (1 - 3)) / 2 = -3,
    // the second ((2 + 4) + 5 (2 - 4) / w) / 2 = 3 + 5 w
    let coset = Coset::new(4, f(1)).unwrap();
    let v = vec![f(1), f(2), f(3), f(4)];
    let folded = fold_codeword(&v, f(5), &coset);
    assert_eq!(folded.len(), 2);
    assert!(folded[0].equals(&f(0).sub(f(3))));
    let w = coset.element_inv_at(3);
    assert!(w.mul(w).equals(&f(0).sub(f(1))));
    assert!(folded[1].equals(&f(3).add(f(5).mul(w))));
}

#[test]
fn ft255_runs_the_batched_protocol() {
    let n = 3;
    let mut cosets = vec![Coset::new(1 << (n + CODE_RATE), f(7)).unwrap()];
    for i in 1..n {
        cosets.push(cosets[i - 1].pow(2));
    }
    let oracle = RandomOracle::<F>::new(n, SECURITY_BITS / CODE_RATE);
    let polys: Vec<MultilinearPolynomial<F>> =
        (0..2).map(|_| MultilinearPolynomial::random_polynomial(n)).collect();
    let copies: Vec<MultilinearPolynomial<F>> = polys
        .iter()
        .map(|p| MultilinearPolynomial::new(p.coefficients().clone()))
        .collect();
    let point = vec![f(11), f(22), f(33)];
    let comb = vec![f(2), f(3)];
    let (accepted, evaluation) =
        prove_and_verify(n, &cosets, polys, &oracle, point.clone(), comb.clone());
    assert!(accepted);
    let expected =
        f(2).mul(copies[0].evaluate(&point)).add(f(3).mul(copies[1].evaluate(&point)));
    assert!(evaluation.equals(&expected));
}

fn add_and_sub<T: Field>() {
    for _ in 0..100 {
        let a = T::random_element();
        let b = T::random_element();
        let c = a.add(b).sub(a);
        assert!(b.equals(&c));
        assert!(a.sub(b).add(b).equals(&a));
        assert!(a.add(b).equals(&b.add(a)));
        assert!(a.sub(a).is_zero());
    }
}

fn mult_and_inverse<T: Field>() {
    for _ in 0..100 {
        let a = T::random_element();
        if a.is_zero() {
            continue;
        }
        let b = a.inverse();
        assert!(a.mul(b).equals(&T::from_int(1)));
        assert!(a.mul(b).mul(a).equals(&a));
    }
    assert!(T::from_int(2).mul(T::inverse_2()).equals(&T::from_int(1)));
}

fn assigns<T: Field>() {
    for _ in 0..10 {
        let mut a = T::from_int(1);
        let b = T::random_element();
        let mut sum = T::from_int(0);
        for _ in 0..10 {
            sum = sum.add(a);
            a = a.mul(b);
        }
        // 1 + b + ... + b^9, times (b - 1), is b^10 - 1
        let one = T::from_int(1);
        assert!(sum.mul(b.sub(one)).equals(&a.sub(one)));
    }
}

fn pow_and_generator<T: Field>() {
    let mut x = T::root_of_unity();
    for _ in 0..T::log_order_value() - 1 {
        x = x.mul(x);
    }
    assert!(!x.equals(&T::from_int(1)));
    assert!(x.mul(x).equals(&T::from_int(1)));
    let seven = T::from_int(7);
    let mut power = T::from_int(1);
    for _ in 0..5 {
        power = power.mul(seven);
    }
    assert!(power.equals(&T::from_int(16807)));
}

#[test]
fn test() {
    add_and_sub::<Ft255>();
    mult_and_inverse::<Ft255>();
    assigns::<Ft255>();
    pow_and_generator::<Ft255>();
}
