use pip_fri::algebra::coset::{evaluate_at, Coset};
use pip_fri::algebra::field::mersenne61_ext::{Mersenne61Ext, MODULUS};
use pip_fri::algebra::field::{Field, FieldOps};
use pip_fri::algebra::polynomial::{EqMultilinear, MultilinearPolynomial};
use pip_fri::folding::{fold_codeword, linear_combination, reduce_query_list};
use pip_fri::pcs::prover::Prover;
use pip_fri::power_of_two::nearest_power_of_two;
use pip_fri::random_oracle::RandomOracle;
use pip_fri::CODE_RATE;

type F = Mersenne61Ext;

fn f(x: u64) -> F {
    F::from_int(x)
}

fn pair(a: u64, b: u64) -> (u64, u64) {
    (a, b)
}

fn parts(x: F) -> (u64, u64) {
    (x.real_part(), x.imag_part())
}

#[test]
fn field_addition_wraps_at_the_modulus() {
    let a = F::new(MODULUS - 1, 5);
    let b = F::new(3, MODULUS - 2);
    assert_eq!(parts(a.add(b)), pair(2, 3));
    assert_eq!(parts(a.sub(b)), pair(MODULUS - 4, 7));
}

#[test]
fn field_multiplication_uses_i_squared_minus_one() {
    // (2 + 3i)(4 + 5i) = 8 - 15 + (10 + 12)i
    assert_eq!(parts(F::new(2, 3).mul(F::new(4, 5))), pair(MODULUS - 7, 22));
    // i * i = -1
    assert_eq!(parts(F::new(0, 1).mul(F::new(0, 1))), pair(MODULUS - 1, 0));
    let big = F::new(MODULUS - 1, MODULUS - 1);
    // (-1 - i)^2 = 2i
    assert_eq!(parts(big.mul(big)), pair(0, 2));
}

#[test]
fn field_new_reduces_its_coordinates() {
    assert_eq!(parts(F::new(MODULUS, MODULUS + 1)), pair(0, 1));
    assert_eq!(parts(F::from_int(u64::MAX)), pair(u64::MAX % MODULUS, 0));
}

#[test]
fn field_inverse_inverts() {
    for x in [F::new(1, 0), F::new(0, 1), F::new(2, 3), F::new(MODULUS - 1, 12345), f(7)] {
        assert!(x.mul(x.inverse()).equals(&f(1)));
    }
    // 1 / i = -i
    assert_eq!(parts(F::new(0, 1).inverse()), pair(0, MODULUS - 1));
    // 1 / 2 is the constant half
    assert!(f(2).inverse().equals(&F::inverse_2()));
}

#[test]
fn field_half_is_the_inverse_of_two() {
    assert_eq!(parts(F::inverse_2()), pair(1 << 60, 0));
    assert!(F::inverse_2().mul(f(2)).equals(&f(1)));
}

#[test]
fn field_zero_test_and_equality() {
    assert!(f(0).is_zero());
    assert!(F::new(MODULUS, MODULUS).is_zero());
    assert!(!F::new(0, 1).is_zero());
    assert!(!f(1).is_zero());
    assert!(F::new(4, 9).equals(&F::new(4, 9)));
    assert!(!F::new(4, 9).equals(&F::new(9, 4)));
}

#[test]
fn field_bytes_are_little_endian_coordinates() {
    let bytes = F::new(0x0102, 0x0a0b0c).to_bytes();
    assert_eq!(
        bytes,
        vec![0x02, 0x01, 0, 0, 0, 0, 0, 0, 0x0c, 0x0b, 0x0a, 0, 0, 0, 0, 0]
    );
}

#[test]
fn field_root_of_unity_has_the_advertised_order() {
    assert_eq!(F::log_order_value(), 61);
    let mut x = F::root_of_unity();
    for _ in 0..60 {
        x = x.mul(x);
    }
    // after 60 squarings: minus one; after 61: one
    assert_eq!(parts(x), pair(MODULUS - 1, 0));
    assert!(x.mul(x).equals(&f(1)));
}

#[test]
fn field_names() {
    assert_eq!(F::field_name(), "Mersenne61Ext");
    assert_eq!(pip_fri::algebra::field::ft255::Ft255::field_name(), "Ft255");
}

#[test]
fn polynomial_counts_its_variables() {
    assert_eq!(MultilinearPolynomial::new(vec![f(1)]).variable_num(), 0);
    assert_eq!(MultilinearPolynomial::new(vec![f(1), f(2)]).variable_num(), 1);
    assert_eq!(MultilinearPolynomial::new((0..64).map(f).collect()).variable_num(), 6);
}

#[test]
fn field_random_elements_are_reduced() {
    for _ in 0..100 {
        let x = F::random_element();
        assert!(x.real_part() < MODULUS && x.imag_part() < MODULUS);
    }
    // two draws of 122 bits do not coincide
    assert!(!F::random_element().equals(&F::random_element()));
}

#[test]
fn coset_of_four_is_generated_by_i() {
    let coset = Coset::new(4, f(1)).unwrap();
    assert_eq!(coset.size(), 4);
    // the elements are 1, i, -1, -i; their inverses 1, -i, -1, i
    assert_eq!(parts(coset.element_inv_at(0)), pair(1, 0));
    assert_eq!(parts(coset.element_inv_at(1)), pair(0, MODULUS - 1));
    assert_eq!(parts(coset.element_inv_at(2)), pair(MODULUS - 1, 0));
    assert_eq!(parts(coset.element_inv_at(3)), pair(0, 1));
}

#[test]
fn coset_rejects_the_shift_zero() {
    assert!(Coset::new(8, f(0)).is_none());
    assert!(Coset::new(8, f(5)).is_some());
}

#[test]
fn coset_inverse_table_inverts_the_elements() {
    let shift = F::new(3, 4);
    let coset = Coset::new(16, shift).unwrap();
    // the elements are the values of the polynomial x
    let elements = coset.fft(vec![f(0), f(1)]);
    assert_eq!(elements.len(), 16);
    assert!(elements[0].equals(&shift));
    for i in 0..16 {
        assert!(elements[i].mul(coset.element_inv_at(i)).equals(&f(1)));
    }
}

#[test]
fn coset_squaring_halves_and_squares() {
    let coset = Coset::new(32, F::new(7, 11)).unwrap();
    let squared = coset.pow(2);
    assert_eq!(squared.size(), coset.size() / 2);
    for i in 0..16 {
        let inv = coset.element_inv_at(i);
        assert!(squared.element_inv_at(i).equals(&inv.mul(inv)));
    }
    let fourth = coset.pow(4);
    assert_eq!(fourth.size(), 8);
    for i in 0..8 {
        let inv = squared.element_inv_at(i);
        assert!(fourth.element_inv_at(i).equals(&inv.mul(inv)));
    }
    assert_eq!(coset.pow(1).size(), 32);
    assert_eq!(coset.pow(32).size(), 1);
}

#[test]
fn fft_evaluates_the_polynomial_on_the_coset() {
    let coset = Coset::new(8, f(3)).unwrap();
    let coeffs = vec![f(5), f(1), f(0), f(2)];
    let points = coset.fft(vec![f(0), f(1)]);
    let values = coset.fft(coeffs.clone());
    assert_eq!(values.len(), 8);
    for i in 0..8 {
        assert!(values[i].equals(&evaluate_at(&coeffs, points[i])));
    }
    // 5 + x + 2x^3 at x = 3
    assert_eq!(parts(values[0]), pair(62, 0));
    // at x = -3, the element half way round
    assert_eq!(parts(values[4]), pair(MODULUS - 52, 0));
}

#[test]
fn fft_takes_any_number_of_coefficients() {
    let coset = Coset::new(4, f(2)).unwrap();
    let coeffs = vec![f(1), f(1), f(1)];
    let values = coset.fft(coeffs);
    // 1 + x + x^2 at x = 2 and at x = -2
    assert_eq!(parts(values[0]), pair(7, 0));
    assert_eq!(parts(values[2]), pair(3, 0));
    let none = coset.fft(vec![]);
    assert!(none.iter().all(|v| v.is_zero()));
}

#[test]
fn horner_on_small_polynomials() {
    assert_eq!(parts(evaluate_at(&vec![], f(9))), pair(0, 0));
    assert_eq!(parts(evaluate_at(&vec![f(4)], f(9))), pair(4, 0));
    assert_eq!(parts(evaluate_at(&vec![f(4), f(2), f(1)], f(10))), pair(124, 0));
}

#[test]
fn fold_of_the_literal_vector() {
    // v = (1, 2, 3, 4) on {1, i, -1, -i} with r = 5:
    // ((1 + 3) + 5 (1 - 3) / 1) / 2 = -3, ((2 + 4) + 5 (2 - 4) / i) / 2 = 3 + 5i
    let coset = Coset::new(4, f(1)).unwrap();
    let v = vec![f(1), f(2), f(3), f(4)];
    let folded = fold_codeword(&v, f(5), &coset);
    assert_eq!(folded.len(), 2);
    assert_eq!(parts(folded[0]), pair(MODULUS - 3, 0));
    assert_eq!(parts(folded[1]), pair(3, 5));
    let again = Prover::fold(&v, f(5), &coset);
    assert!(again[0].equals(&folded[0]) && again[1].equals(&folded[1]));
}

#[test]
fn fold_follows_the_formula() {
    let coset = Coset::new(8, F::new(5, 6)).unwrap();
    let v: Vec<F> = (0..8).map(|i| F::new(3 * i + 1, i * i)).collect();
    let r = F::new(9, 2);
    let folded = fold_codeword(&v, r, &coset);
    assert_eq!(folded.len(), 4);
    for i in 0..4 {
        let x = v[i];
        let nx = v[i + 4];
        let expected = x
            .add(nx)
            .add(r.mul(x.sub(nx)).mul(coset.element_inv_at(i)))
            .mul(F::inverse_2());
        assert!(folded[i].equals(&expected));
    }
}

#[test]
fn fold_of_a_codeword_is_the_codeword_of_the_bound_polynomial() {
    // folding the values of c0 + c1 x + c2 x^2 + c3 x^3 with r gives the
    // values of (c0 + r c1) + (c2 + r c3) y on the squared coset
    let coset = Coset::new(8, f(3)).unwrap();
    let r = f(10);
    let values = coset.fft(vec![f(1), f(2), f(3), f(4)]);
    let folded = fold_codeword(&values, r, &coset);
    let expected = coset.pow(2).fft(vec![f(21), f(43)]);
    for i in 0..4 {
        assert!(folded[i].equals(&expected[i]));
    }
}

#[test]
fn linear_combination_of_values() {
    let vals = vec![f(2), f(3), f(5)];
    let comb = vec![f(7), f(11), f(13)];
    assert_eq!(parts(linear_combination(&vals, &comb)), pair(14 + 33 + 65, 0));
    assert_eq!(parts(linear_combination(&vec![], &vec![])), pair(0, 0));
    assert_eq!(parts(linear_combination(&vec![f(4)], &vec![f(6)])), pair(24, 0));
}

#[test]
fn query_positions_are_reduced_sorted_and_unique() {
    assert_eq!(reduce_query_list(&vec![5, 13, 2, 10, 5], 8), vec![2, 5]);
    assert_eq!(reduce_query_list(&vec![7, 6, 5, 4], 4), vec![0, 1, 2, 3]);
    assert_eq!(reduce_query_list(&vec![], 4), Vec::<usize>::new());
    assert_eq!(reduce_query_list(&vec![9, 9, 9], 1), vec![0]);
    assert_eq!(reduce_query_list(&vec![3, 1, 2], 16), vec![1, 2, 3]);
}

#[test]
fn multilinear_evaluation() {
    // 1 + 2 x0 + 3 x1 + 4 x0 x1 at (5, 7)
    let p = MultilinearPolynomial::new(vec![f(1), f(2), f(3), f(4)]);
    assert_eq!(p.variable_num(), 2);
    assert_eq!(p.coefficients().len(), 4);
    assert_eq!(parts(p.evaluate(&vec![f(5), f(7)])), pair(172, 0));
    let constant = MultilinearPolynomial::new(vec![f(9)]);
    assert_eq!(parts(constant.evaluate(&vec![])), pair(9, 0));
}

#[test]
fn hypercube_table_of_a_polynomial() {
    // positions count x0 as the high bit: (0,0), (0,1), (1,0), (1,1)
    let p = MultilinearPolynomial::new(vec![f(1), f(2), f(3), f(4)]);
    let table = p.evaluate_hypercube();
    let expected = [1u64, 4, 3, 10];
    assert_eq!(table.len(), 4);
    for i in 0..4 {
        assert_eq!(parts(table[i]), pair(expected[i], 0));
    }
    let zero = f(0);
    let one = f(1);
    assert!(table[1].equals(&p.evaluate(&vec![zero, one])));
    assert!(table[2].equals(&p.evaluate(&vec![one, zero])));
}

#[test]
fn equality_polynomial_table_and_value() {
    let point = vec![f(5), f(7)];
    let eq = EqMultilinear::new(point.clone());
    let table = eq.evaluate_hypercube();
    // (1-5)(1-7), (1-5) 7, 5 (1-7), 5 * 7
    assert_eq!(parts(table[0]), pair(24, 0));
    assert_eq!(parts(table[1]), pair(MODULUS - 28, 0));
    assert_eq!(parts(table[2]), pair(MODULUS - 30, 0));
    assert_eq!(parts(table[3]), pair(35, 0));
    // at a Boolean point the polynomial reads off the table
    assert!(eq.evaluate(&vec![f(1), f(0)]).equals(&table[2]));
    // (5*2 + (1-5)(1-2)) (7*3 + (1-7)(1-3)) = 14 * 33
    assert_eq!(parts(eq.evaluate(&vec![f(2), f(3)])), pair(462, 0));
}

#[test]
fn the_table_weighted_by_the_equality_polynomial_sums_to_the_value() {
    let p = MultilinearPolynomial::new((1..=8).map(f).collect());
    let point = vec![f(11), F::new(2, 9), f(4)];
    let table = p.evaluate_hypercube();
    let weights = EqMultilinear::new(point.clone()).evaluate_hypercube();
    let mut sum = f(0);
    for i in 0..8 {
        sum = sum.add(table[i].mul(weights[i]));
    }
    assert!(sum.equals(&p.evaluate(&point)));
}

#[test]
fn random_polynomial_has_two_to_the_n_coefficients() {
    let p = MultilinearPolynomial::<F>::random_polynomial(5);
    assert_eq!(p.variable_num(), 5);
    assert_eq!(p.coefficients().len(), 32);
}

#[test]
fn random_oracle_has_the_asked_cardinalities() {
    let oracle = RandomOracle::<F>::new(4, 33);
    assert_eq!(oracle.folding_challenges.len(), 4);
    assert_eq!(oracle.query_list.len(), 33);
    assert!(oracle.query_list.iter().all(|q| *q < 1 << (4 + CODE_RATE)));
    let empty = RandomOracle::<F>::new(0, 0);
    assert!(empty.folding_challenges.is_empty() && empty.query_list.is_empty());
}

#[test]
fn nearest_power_of_two_takes_the_smaller_on_a_tie() {
    let expected = [0usize, 1, 2, 2, 4, 4, 4, 8, 8, 8, 8, 8, 8, 16, 16, 16, 16];
    for (num, r) in expected.iter().enumerate() {
        assert_eq!(nearest_power_of_two(num), *r, "nearest to {}", num);
    }
    assert_eq!(nearest_power_of_two(23), 16);
    assert_eq!(nearest_power_of_two(24), 16);
    assert_eq!(nearest_power_of_two(25), 32);
    assert_eq!(nearest_power_of_two(1 << 40), 1 << 40);
}

fn ring_laws_hold<T: Field>() {
    for _ in 0..50 {
        let (a, b, c) = (T::random_element(), T::random_element(), T::random_element());
        assert!(a.add(b).add(c).equals(&a.add(b.add(c))));
        assert!(a.mul(b).mul(c).equals(&a.mul(b.mul(c))));
        assert!(a.mul(b.add(c)).equals(&a.mul(b).add(a.mul(c))));
        assert!(a.mul(b.sub(c)).equals(&a.mul(b).sub(a.mul(c))));
        assert!(a.mul(b).equals(&b.mul(a)));
        assert!(a.sub(b).equals(&a.add(T::from_int(0).sub(b))));
        assert!(a.add(T::from_int(0)).equals(&a));
        assert!(a.mul(T::from_int(1)).equals(&a));
        assert!(a.mul(T::from_int(0)).is_zero());
    }
}

#[test]
fn both_fields_obey_the_ring_laws() {
    ring_laws_hold::<F>();
    ring_laws_hold::<pip_fri::algebra::field::ft255::Ft255>();
}
