use pip_fri::algebra::coset::Coset;
use pip_fri::algebra::field::mersenne61_ext::Mersenne61Ext;
use pip_fri::algebra::field::FieldOps;
use pip_fri::algebra::polynomial::MultilinearPolynomial;
use pip_fri::folding::reduce_query_list;
use pip_fri::merkle_tree::MERKLE_ROOT_SIZE;
use pip_fri::pcs::laws::prove_and_verify;
use pip_fri::pcs::prover::Prover;
use pip_fri::pcs::verification::Verifier;
use pip_fri::query_result::QueryResult;
use pip_fri::random_oracle::RandomOracle;
use pip_fri::{CODE_RATE, SECURITY_BITS};

type F = Mersenne61Ext;

fn f(x: u64) -> F {
    F::from_int(x)
}

/// A reproducible stream of numbers.
struct Stream(u64);

impl Stream {
    fn next(&mut self) -> u64 {
        self.0 = self.0.wrapping_mul(6364136223846793005).wrapping_add(1442695040888963407);
        self.0 >> 1
    }

    fn element(&mut self) -> F {
        F::new(self.next(), self.next())
    }
}

fn cosets(n: usize) -> Vec<Coset<F>> {
    let mut cosets = vec![Coset::new(1 << (n + CODE_RATE), F::new(3, 8)).unwrap()];
    for i in 1..n {
        cosets.push(cosets[i - 1].pow(2));
    }
    cosets
}

fn oracle(n: usize, stream: &mut Stream) -> RandomOracle<F> {
    RandomOracle {
        folding_challenges: (0..n).map(|_| stream.element()).collect(),
        query_list: (0..SECURITY_BITS / CODE_RATE)
            .map(|_| (stream.next() % (1 << (n + CODE_RATE))) as usize)
            .collect(),
        rlc: stream.element(),
    }
}

fn polynomials(n: usize, m: usize, stream: &mut Stream) -> Vec<MultilinearPolynomial<F>> {
    (0..m)
        .map(|_| MultilinearPolynomial::new((0..1 << n).map(|_| stream.element()).collect()))
        .collect()
}

struct Run<'a> {
    verifier: Verifier<'a, F>,
    open_point: Vec<F>,
    combination: Vec<F>,
    polynomial_proof: Vec<QueryResult<F>>,
    folding_proof: Vec<QueryResult<F>>,
    function_proof: Vec<QueryResult<F>>,
}

fn run<'a>(
    n: usize,
    polys: Vec<MultilinearPolynomial<F>>,
    cosets: &'a Vec<Coset<F>>,
    oracle: &'a RandomOracle<F>,
    stream: &mut Stream,
) -> Run<'a> {
    let m = polys.len();
    let mut prover = Prover::new(n, cosets, polys, oracle);
    let commits = prover.commit_polynomial();
    let open_point: Vec<F> = (0..n).map(|_| stream.element()).collect();
    let combination: Vec<F> = (0..m).map(|_| stream.element()).collect();
    let mut verifier = Verifier::with_open_point(
        n,
        cosets,
        commits,
        oracle,
        open_point.clone(),
        combination.clone(),
    );
    prover.commit_functions(&open_point, &mut verifier, &combination);
    prover.prove();
    prover.commit_foldings(&mut verifier);
    let (polynomial_proof, folding_proof, function_proof) = prover.query();
    Run { verifier, open_point, combination, polynomial_proof, folding_proof, function_proof }
}

fn accepted(run: &Run) -> bool {
    run.verifier.verify(&run.polynomial_proof, &run.folding_proof, &run.function_proof)
}

#[test]
fn three_variables_one_polynomial_is_accepted() {
    let n = 3;
    let mut stream = Stream(2024);
    let cosets = cosets(n);
    let oracle = oracle(n, &mut stream);
    let polys = polynomials(n, 1, &mut stream);
    let run = run(n, polys, &cosets, &oracle, &mut stream);
    assert!(accepted(&run));

    // the paths of round i have log2(|C_i| / 2) digests for each position
    let mut indices = oracle.query_list.clone();
    let mut paths = 0;
    for i in 0..n {
        let half = cosets[i].size() / 2;
        indices = reduce_query_list(&indices, half);
        let layers = if i == 0 { 1 } else { 2 };
        paths += layers * indices.len() * (half.trailing_zeros() as usize) * MERKLE_ROOT_SIZE;
    }
    let bytes: usize = run
        .polynomial_proof
        .iter()
        .chain(run.folding_proof.iter())
        .chain(run.function_proof.iter())
        .map(|p| p.proof_bytes.len())
        .sum();
    assert_eq!(bytes, paths);
    let size: usize = run
        .polynomial_proof
        .iter()
        .chain(run.folding_proof.iter())
        .chain(run.function_proof.iter())
        .map(|p| p.proof_size())
        .sum();
    let queries = SECURITY_BITS / CODE_RATE;
    let bound = (2 * n - 1)
        * queries
        * ((n + CODE_RATE) * MERKLE_ROOT_SIZE + 2 * std::mem::size_of::<F>());
    assert!(size <= bound);
}

#[test]
fn completeness_over_sizes_and_batches() {
    let mut stream = Stream(7);
    for n in 3..=8 {
        for m in [1, 2, 4, 8] {
            let cosets = cosets(n);
            let oracle = oracle(n, &mut stream);
            let polys = polynomials(n, m, &mut stream);
            let run = run(n, polys, &cosets, &oracle, &mut stream);
            assert!(accepted(&run), "n = {}, m = {}", n, m);
        }
    }
}

#[test]
fn completeness_with_one_round() {
    let mut stream = Stream(99);
    let cosets = cosets(1);
    let oracle = oracle(1, &mut stream);
    let polys = polynomials(1, 3, &mut stream);
    let run = run(1, polys, &cosets, &oracle, &mut stream);
    assert!(run.folding_proof.is_empty() && run.function_proof.is_empty());
    assert!(accepted(&run));
}

#[test]
fn the_evaluation_is_the_combination_of_the_values_at_the_point() {
    let mut stream = Stream(31);
    for (n, m) in [(3, 1), (4, 2), (5, 4), (6, 8)] {
        let cosets = cosets(n);
        let oracle = oracle(n, &mut stream);
        let polys = polynomials(n, m, &mut stream);
        let copies: Vec<MultilinearPolynomial<F>> = polys
            .iter()
            .map(|p| MultilinearPolynomial::new(p.coefficients().clone()))
            .collect();
        let run = run(n, polys, &cosets, &oracle, &mut stream);
        let mut expected = f(0);
        for (c, p) in run.combination.iter().zip(copies.iter()) {
            expected = expected.add(c.mul(p.evaluate(&run.open_point)));
        }
        assert!(run.verifier.evaluation.unwrap().equals(&expected));
    }
}

#[test]
fn flipping_the_first_byte_of_a_folding_proof_is_detected() {
    let n = 5;
    let mut stream = Stream(5);
    let cosets = cosets(n);
    let oracle = oracle(n, &mut stream);
    let polys = polynomials(n, 1, &mut stream);
    let mut run = run(n, polys, &cosets, &oracle, &mut stream);
    assert!(accepted(&run));
    run.folding_proof[0].proof_bytes[0] ^= 1;
    assert!(!accepted(&run));
}

#[test]
fn replacing_a_coefficient_of_the_combination_is_detected() {
    let n = 5;
    let mut stream = Stream(52);
    let cosets = cosets(n);
    let oracle = oracle(n, &mut stream);
    let polys = polynomials(n, 2, &mut stream);
    let mut run = run(n, polys, &cosets, &oracle, &mut stream);
    let (_, combination) = run.verifier.get_open_point();
    assert!(combination[1].equals(&run.combination[1]));
    assert!(accepted(&run));
    run.verifier.combination[1] = combination[1].add(f(1));
    assert!(!accepted(&run));
}

#[test]
fn changing_what_the_verifier_was_told_is_detected() {
    let n = 4;
    let mut stream = Stream(77);
    let cosets = cosets(n);
    let oracle = oracle(n, &mut stream);
    let polys = polynomials(n, 2, &mut stream);
    let mut run = run(n, polys, &cosets, &oracle, &mut stream);
    assert!(accepted(&run));

    let evaluation = run.verifier.evaluation.unwrap();
    run.verifier.set_evaluation(evaluation.add(f(1)));
    assert!(!accepted(&run));
    run.verifier.set_evaluation(evaluation);
    assert!(accepted(&run));

    let final_value = run.verifier.final_value.unwrap();
    run.verifier.set_final_value(final_value.add(f(1)));
    assert!(!accepted(&run));
    run.verifier.set_final_value(final_value);

    for i in 0..n - 1 {
        run.verifier.folding_root[i].merkle_root[0] ^= 1;
        assert!(!accepted(&run));
        run.verifier.folding_root[i].merkle_root[0] ^= 1;
        run.verifier.function_root[i].merkle_root[31] ^= 1;
        assert!(!accepted(&run));
        run.verifier.function_root[i].merkle_root[31] ^= 1;
        run.verifier.function_root[i].leave_number /= 2;
        assert!(!accepted(&run));
        run.verifier.function_root[i].leave_number *= 2;
    }
    run.verifier.polynomial_roots[1].merkle_root[7] ^= 1;
    assert!(!accepted(&run));
    run.verifier.polynomial_roots[1].merkle_root[7] ^= 1;

    run.verifier.open_point[2] = run.verifier.open_point[2].add(f(1));
    assert!(!accepted(&run));
    run.verifier.open_point[2] = run.open_point[2];
    assert!(accepted(&run));
}

#[test]
fn changing_any_revealed_value_is_detected() {
    let n = 3;
    let mut stream = Stream(3);
    let cosets = cosets(n);
    let oracle = oracle(n, &mut stream);
    let polys = polynomials(n, 2, &mut stream);
    let mut run = run(n, polys, &cosets, &oracle, &mut stream);
    assert!(accepted(&run));
    for which in 0..3 {
        let count = match which {
            0 => run.polynomial_proof.len(),
            1 => run.folding_proof.len(),
            _ => run.function_proof.len(),
        };
        for p in 0..count {
            let keys: Vec<usize> = match which {
                0 => run.polynomial_proof[p].proof_values.keys().cloned().collect(),
                1 => run.folding_proof[p].proof_values.keys().cloned().collect(),
                _ => run.function_proof[p].proof_values.keys().cloned().collect(),
            };
            for key in keys {
                let proof = match which {
                    0 => &mut run.polynomial_proof[p],
                    1 => &mut run.folding_proof[p],
                    _ => &mut run.function_proof[p],
                };
                let old = proof.proof_values[&key];
                proof.proof_values.insert(key, old.add(f(1)));
                assert!(!accepted(&run));
                let proof = match which {
                    0 => &mut run.polynomial_proof[p],
                    1 => &mut run.folding_proof[p],
                    _ => &mut run.function_proof[p],
                };
                proof.proof_values.insert(key, old);
            }
        }
    }
    assert!(accepted(&run));
}

#[test]
fn proofs_of_the_wrong_shape_are_rejected() {
    let n = 3;
    let mut stream = Stream(11);
    let cosets = cosets(n);
    let oracle = oracle(n, &mut stream);
    let polys = polynomials(n, 2, &mut stream);
    let mut run = run(n, polys, &cosets, &oracle, &mut stream);
    assert!(accepted(&run));
    let last = run.folding_proof.pop().unwrap();
    assert!(!accepted(&run));
    run.folding_proof.push(last);
    let last = run.polynomial_proof.pop().unwrap();
    assert!(!accepted(&run));
    run.polynomial_proof.push(last);
    assert!(accepted(&run));
    run.verifier.final_value = None;
    assert!(!accepted(&run));
}

#[test]
fn a_verifier_that_was_told_nothing_rejects() {
    let n = 3;
    let mut stream = Stream(12);
    let cosets = cosets(n);
    let oracle = oracle(n, &mut stream);
    let polys = polynomials(n, 1, &mut stream);
    let prover = Prover::new(n, &cosets, polys, &oracle);
    let verifier = Verifier::new(n, 1, &cosets, prover.commit_polynomial(), &oracle);
    let (open_point, combination) = verifier.get_open_point();
    assert_eq!(open_point.len(), n);
    assert_eq!(combination.len(), 1);
    assert_eq!(verifier.polynomial_roots.len(), 1);
    assert_eq!(verifier.polynomial_roots[0].leave_number, 1 << (n + CODE_RATE - 1));
    assert!(!verifier.verify(&vec![], &vec![], &vec![]));
}

#[test]
fn the_combination_of_the_polynomials_starts_with_the_first() {
    // the first codeword, plus rlc times the second, plus rlc^2 times the third
    let n = 2;
    let mut stream = Stream(8);
    let cosets = cosets(n);
    let oracle = oracle(n, &mut stream);
    let polys = polynomials(n, 3, &mut stream);
    let prover = Prover::new(n, &cosets, polys, &oracle);
    let rlc = oracle.rlc;
    for i in 0..cosets[0].size() {
        let p: Vec<F> = prover.interpolate_polynomials.iter().map(|l| l.value[i]).collect();
        let expected = p[0].add(rlc.mul(p[1])).add(rlc.mul(rlc).mul(p[2]));
        assert!(prover.rlc_polynomial[i].equals(&expected));
    }
}

#[test]
fn the_chains_follow_their_recurrences() {
    let n = 3;
    let mut stream = Stream(21);
    let cosets = cosets(n);
    let oracle = oracle(n, &mut stream);
    let polys = polynomials(n, 2, &mut stream);
    let mut prover = Prover::new(n, &cosets, polys, &oracle);
    let commits = prover.commit_polynomial();
    let mut verifier = Verifier::new(n, 2, &cosets, commits, &oracle);
    let (z, comb) = verifier.get_open_point();
    prover.commit_functions(&z, &mut verifier, &comb);
    prover.prove();
    assert_eq!(prover.functions.len(), n - 1);
    assert_eq!(prover.foldings.len(), n - 1);
    let f0 = prover.combined_function.clone().unwrap();
    for i in 0..f0.len() {
        let expected = comb[0]
            .mul(prover.interpolate_polynomials[0].value[i])
            .add(comb[1].mul(prover.interpolate_polynomials[1].value[i]));
        assert!(f0[i].equals(&expected));
    }
    for round in 0..n {
        let g = if round == 0 { &prover.rlc_polynomial } else { &prover.foldings[round - 1].value };
        let fun = if round == 0 { &f0 } else { &prover.functions[round - 1].value };
        let half = cosets[round].size() / 2;
        let rho = oracle.folding_challenges[round];
        let next = prover.evaluation_next_domain(round, rho);
        assert_eq!(next.len(), half);
        for j in 0..half {
            let inv = cosets[round].element_inv_at(j);
            let (x, nx, fx, fnx) = (g[j], g[j + half], fun[j], fun[j + half]);
            let a = x.add(nx).add(rho.mul(x.sub(nx)).mul(inv));
            let expected = a.mul(rho).add(fx.add(fnx)).mul(rho).add(fx.sub(fnx).mul(inv));
            assert!(next[j].equals(&expected));
            if round < n - 1 {
                assert!(prover.foldings[round].value[j].equals(&expected));
            } else {
                assert!(prover.final_value.unwrap().equals(&expected));
            }
            let folded = fx.add(fnx).add(z[round].mul(fx.sub(fnx)).mul(inv)).mul(F::inverse_2());
            if round < n - 1 {
                assert!(prover.functions[round].value[j].equals(&folded));
            } else {
                assert!(verifier.evaluation.unwrap().equals(&folded));
            }
        }
    }
}

#[test]
fn an_honest_run_is_accepted_and_evaluates_the_combination() {
    let mut stream = Stream(61);
    for (n, m) in [(1, 1), (2, 3), (4, 2), (6, 4)] {
        let cosets = cosets(n);
        let oracle = oracle(n, &mut stream);
        let polys = polynomials(n, m, &mut stream);
        let copies: Vec<MultilinearPolynomial<F>> = polys
            .iter()
            .map(|p| MultilinearPolynomial::new(p.coefficients().clone()))
            .collect();
        let point: Vec<F> = (0..n).map(|_| stream.element()).collect();
        let comb: Vec<F> = (0..m).map(|_| stream.element()).collect();
        let (accepted, evaluation) =
            prove_and_verify(n, &cosets, polys, &oracle, point.clone(), comb.clone());
        assert!(accepted);
        let mut expected = f(0);
        for j in (0..m).rev() {
            let term = comb[j].mul(copies[j].evaluate(&point));
            expected = if j == m - 1 { term } else { term.add(expected) };
        }
        assert!(evaluation.equals(&expected));
    }
}

#[test]
fn an_empty_query_list_checks_no_value() {
    // with no position to query, only the shape of the proofs is looked at
    let n = 3;
    let mut stream = Stream(17);
    let cosets = cosets(n);
    let mut oracle = oracle(n, &mut stream);
    oracle.query_list.clear();
    let polys = polynomials(n, 1, &mut stream);
    let mut run = run(n, polys, &cosets, &oracle, &mut stream);
    assert!(accepted(&run));
    let final_value = run.verifier.final_value.unwrap();
    run.verifier.set_final_value(final_value.add(f(1)));
    assert!(accepted(&run));
}
