use pip_fri::algebra::coset::Coset;
use pip_fri::algebra::field::mersenne61_ext::Mersenne61Ext;
use pip_fri::algebra::field::FieldOps;
use pip_fri::algebra::polynomial::{EqMultilinear, MultilinearPolynomial};
use pip_fri::basefold::laws::prove_and_verify;
use pip_fri::basefold::prover::Prover;
use pip_fri::basefold::verification::{evaluate_round_polynomial, Verifier};
use pip_fri::random_oracle::RandomOracle;
use pip_fri::{CODE_RATE, SECURITY_BITS};

type F = Mersenne61Ext;

fn f(x: u64) -> F {
    F::from_int(x)
}

/// A reproducible stream of numbers.
struct Stream(u64);

impl Stream {
    fn next(&mut self) -> u64 {
        self.0 = self.0.wrapping_mul(6364136223846793005).wrapping_add(1442695040888963407);
        self.0 >> 1
    }

    fn element(&mut self) -> F {
        F::new(self.next(), self.next())
    }
}

fn cosets(n: usize) -> Vec<Coset<F>> {
    let mut cosets = vec![Coset::new(1 << (n + CODE_RATE), F::new(9, 1)).unwrap()];
    for i in 1..n {
        cosets.push(cosets[i - 1].pow(2));
    }
    cosets
}

fn oracle(n: usize, stream: &mut Stream) -> RandomOracle<F> {
    RandomOracle {
        folding_challenges: (0..n).map(|_| stream.element()).collect(),
        query_list: (0..SECURITY_BITS / CODE_RATE)
            .map(|_| (stream.next() % (1 << (n + CODE_RATE))) as usize)
            .collect(),
        rlc: stream.element(),
    }
}

fn polynomial(n: usize, stream: &mut Stream) -> MultilinearPolynomial<F> {
    MultilinearPolynomial::new((0..1 << n).map(|_| stream.element()).collect())
}

#[test]
fn the_honest_prover_is_accepted() {
    let mut stream = Stream(41);
    for n in 1..=7 {
        let cosets = cosets(n);
        let oracle = oracle(n, &mut stream);
        let mut prover = Prover::new(n, &cosets, polynomial(n, &mut stream), &oracle);
        let mut verifier = Verifier::new(n, &cosets, prover.commit_polynomial(), &oracle);
        let point = verifier.get_open_point();
        prover.send_evaluation(&mut verifier, &point);
        prover.prove(&point);
        prover.commit_foldings(&mut verifier);
        let proofs = prover.query();
        assert_eq!(proofs.len(), n);
        assert!(verifier.verify(&proofs), "n = {}", n);
    }
}

#[test]
fn the_first_round_sums_to_the_evaluation() {
    let n = 4;
    let mut stream = Stream(4);
    let cosets = cosets(n);
    let oracle = oracle(n, &mut stream);
    let poly = polynomial(n, &mut stream);
    let point: Vec<F> = (0..n).map(|_| stream.element()).collect();
    let table = poly.evaluate_hypercube();
    let weights = EqMultilinear::new(point.clone()).evaluate_hypercube();
    let value = poly.evaluate(&point);
    let mut prover = Prover::new(n, &cosets, poly, &oracle);
    prover.prove(&point);
    let (s0, s1, s2) = prover.sumcheck_value[0];

    // the sum over the cube of P(x) eq(z, x) is s0 + s1, and it is P(z)
    let mut sum = f(0);
    for x in 0..1 << n {
        sum = sum.add(table[x].mul(weights[x]));
    }
    assert!(sum.equals(&s0.add(s1)));
    assert!(value.equals(&s0.add(s1)));

    // the round polynomial takes the three sums at 0, 1 and 2
    assert!(evaluate_round_polynomial((s0, s1, s2), f(0)).equals(&s0));
    assert!(evaluate_round_polynomial((s0, s1, s2), f(1)).equals(&s1));
    assert!(evaluate_round_polynomial((s0, s1, s2), f(2)).equals(&s2));

    // and at the challenge it is the sum of the next round
    let (t0, t1, _) = prover.sumcheck_value[1];
    let next = evaluate_round_polynomial((s0, s1, s2), oracle.folding_challenges[0]);
    assert!(next.equals(&t0.add(t1)));
}

#[test]
fn the_round_polynomial_interpolates() {
    // 3 x^2 + 2 x + 7 takes 7, 12, 23 at 0, 1, 2, 40 at 3 and 92 at 5
    let sums = (f(7), f(12), f(23));
    assert_eq!(evaluate_round_polynomial(sums, f(5)).real_part(), 92);
    assert_eq!(evaluate_round_polynomial(sums, f(5)).imag_part(), 0);
    assert_eq!(evaluate_round_polynomial(sums, f(3)).real_part(), 40);
}

#[test]
fn the_final_value_is_the_polynomial_at_the_challenges() {
    let n = 5;
    let mut stream = Stream(14);
    let cosets = cosets(n);
    let oracle = oracle(n, &mut stream);
    let poly = polynomial(n, &mut stream);
    let expected = poly.evaluate(&oracle.folding_challenges);
    let point: Vec<F> = (0..n).map(|_| stream.element()).collect();
    let mut prover = Prover::new(n, &cosets, poly, &oracle);
    prover.prove(&point);
    assert!(prover.final_value.unwrap().equals(&expected));
    assert_eq!(prover.interpolations.len(), n);
    for i in 0..n {
        assert_eq!(prover.interpolations[i].value.len(), cosets[i].size());
        if i + 1 < n {
            let next = prover.evaluation_next_domain(i, oracle.folding_challenges[i]);
            for j in 0..next.len() {
                assert!(next[j].equals(&prover.interpolations[i + 1].value[j]));
            }
        }
    }
}

#[test]
fn setting_a_variable_in_a_table() {
    let mut table = vec![f(1), f(2), f(3), f(4), f(100), f(200)];
    Prover::sumcheck_next_domain(&mut table, 2, f(10));
    // (1 - 10) * 1 + 10 * 3 = 21, (1 - 10) * 2 + 10 * 4 = 22
    let expected = [21u64, 22, 3, 4, 100, 200];
    for i in 0..6 {
        assert_eq!(table[i].real_part(), expected[i]);
    }
}

#[test]
fn tampering_is_detected() {
    let n = 4;
    let mut stream = Stream(23);
    let cosets = cosets(n);
    let oracle = oracle(n, &mut stream);
    let mut prover = Prover::new(n, &cosets, polynomial(n, &mut stream), &oracle);
    let point: Vec<F> = (0..n).map(|_| stream.element()).collect();
    let mut verifier =
        Verifier::with_open_point(n, &cosets, prover.commit_polynomial(), &oracle, point.clone());
    prover.send_evaluation(&mut verifier, &point);
    prover.prove(&point);
    prover.commit_foldings(&mut verifier);
    let mut proofs = prover.query();
    assert!(verifier.verify(&proofs));

    for i in 0..n {
        let (s0, s1, s2) = verifier.sumcheck_values[i];
        verifier.sumcheck_values[i] = (s0.add(f(1)), s1, s2);
        assert!(!verifier.verify(&proofs));
        verifier.sumcheck_values[i] = (s0, s1.add(f(1)), s2);
        assert!(!verifier.verify(&proofs));
        verifier.sumcheck_values[i] = (s0, s1, s2.add(f(1)));
        assert!(!verifier.verify(&proofs));
        verifier.sumcheck_values[i] = (s0, s1, s2);
    }
    let evaluation = verifier.evaluation.unwrap();
    verifier.set_evaluation(evaluation.add(f(1)));
    assert!(!verifier.verify(&proofs));
    verifier.set_evaluation(evaluation);
    let final_value = verifier.final_value.unwrap();
    verifier.set_final_value(final_value.add(f(1)));
    assert!(!verifier.verify(&proofs));
    verifier.set_final_value(final_value);
    for i in 0..n - 1 {
        verifier.folding_root[i].merkle_root[3] ^= 4;
        assert!(!verifier.verify(&proofs));
        verifier.folding_root[i].merkle_root[3] ^= 4;
    }
    verifier.polynomial_root.merkle_root[0] ^= 1;
    assert!(!verifier.verify(&proofs));
    verifier.polynomial_root.merkle_root[0] ^= 1;
    assert!(verifier.verify(&proofs));

    for i in 0..n {
        proofs[i].proof_bytes[0] ^= 1;
        assert!(!verifier.verify(&proofs));
        proofs[i].proof_bytes[0] ^= 1;
        let keys: Vec<usize> = proofs[i].proof_values.keys().cloned().collect();
        for key in keys {
            let old = proofs[i].proof_values[&key];
            proofs[i].proof_values.insert(key, old.add(f(1)));
            assert!(!verifier.verify(&proofs));
            proofs[i].proof_values.insert(key, old);
        }
    }
    assert!(verifier.verify(&proofs));
    proofs.pop();
    assert!(!verifier.verify(&proofs));
}

#[test]
fn an_honest_run_is_accepted_and_evaluates_the_polynomial() {
    let mut stream = Stream(88);
    for n in [1, 2, 5] {
        let cosets = cosets(n);
        let oracle = oracle(n, &mut stream);
        let poly = polynomial(n, &mut stream);
        let copy = MultilinearPolynomial::new(poly.coefficients().clone());
        let point: Vec<F> = (0..n).map(|_| stream.element()).collect();
        let (accepted, evaluation) = prove_and_verify(n, &cosets, poly, &oracle, point.clone());
        assert!(accepted);
        assert!(evaluation.equals(&copy.evaluate(&point)));
    }
}

#[test]
fn the_round_sums_add_up_to_the_claims() {
    let n = 3;
    let mut stream = Stream(2);
    let cosets = cosets(n);
    let oracle = oracle(n, &mut stream);
    let poly = polynomial(n, &mut stream);
    let point: Vec<F> = (0..n).map(|_| stream.element()).collect();
    let mut claim = poly.evaluate(&point);
    let final_value = poly.evaluate(&oracle.folding_challenges);
    let mut prover = Prover::new(n, &cosets, poly, &oracle);
    prover.prove(&point);
    for i in 0..n {
        let (s0, s1, s2) = prover.sumcheck_value[i];
        assert!(s0.add(s1).equals(&claim));
        claim = evaluate_round_polynomial((s0, s1, s2), oracle.folding_challenges[i]);
    }
    let weight = EqMultilinear::new(point).evaluate(&oracle.folding_challenges);
    assert!(claim.equals(&final_value.mul(weight)));
}
