//! The verifier's random choices, drawn before the protocol starts.
use vstd::prelude::*;
use crate::algebra::field::Field;
use crate::power_of_two::exp2;
use crate::random::random_u64;
use crate::CODE_RATE;

verus! {

/// The folding challenges, one per round, the queried leaf positions and
/// the scalar that combines the committed polynomials.
pub struct RandomOracle<T: Field> {
    pub folding_challenges: Vec<T>,
    pub query_list: Vec<usize>,
    pub rlc: T,
}

impl<T: Field> RandomOracle<T> {
    /// Draws `total_round` challenges, `query_num` positions below
    /// `2^(total_round + CODE_RATE)` and the combining scalar, all at
    /// random.
    pub fn new(total_round: usize, query_num: usize) -> (oracle: Self)
        requires
            exp2((total_round + CODE_RATE) as nat) <= usize::MAX,
        ensures
            oracle.folding_challenges@.len() == total_round,
            oracle.query_list@.len() == query_num,
            forall|k: int|
                0 <= k < query_num ==> #[trigger] oracle.query_list@[k] < exp2(
                    (total_round + CODE_RATE) as nat,
                ),
            forall|k: int| 0 <= k < total_round ==> (#[trigger] oracle.folding_challenges@[k]).canonical(),
            oracle.rlc.canonical(),
    {
        proof {
            crate::power_of_two::lemma_exp2_exceeds((total_round + CODE_RATE) as nat);
        }
        let log_bound = total_round + CODE_RATE;
        let mut bound: usize = 1;
        let mut doubled: usize = 0;
        while doubled < log_bound
            invariant
                0 <= doubled <= log_bound,
                log_bound == total_round + CODE_RATE,
                bound == exp2(doubled as nat),
                exp2((total_round + CODE_RATE) as nat) <= usize::MAX,
            decreases log_bound - doubled,
        {
            proof {
                crate::power_of_two::lemma_exp2_increases(
                    (doubled + 1) as nat,
                    (total_round + CODE_RATE) as nat,
                );
            }
            bound = bound * 2;
            doubled = doubled + 1;
        }
        proof {
            crate::power_of_two::lemma_exp2_increases(0, log_bound as nat);
        }
        let mut folding_challenges: Vec<T> = Vec::new();
        let mut i: usize = 0;
        while i < total_round
            invariant
                0 <= i <= total_round,
                folding_challenges@.len() == i,
                forall|k: int| 0 <= k < i ==> (#[trigger] folding_challenges@[k]).canonical(),
            decreases total_round - i,
        {
            folding_challenges.push(T::random_element());
            i = i + 1;
        }
        let mut query_list: Vec<usize> = Vec::new();
        i = 0;
        while i < query_num
            invariant
                0 <= i <= query_num,
                bound >= 1,
                query_list@.len() == i,
                forall|k: int| 0 <= k < i ==> #[trigger] query_list@[k] < bound,
            decreases query_num - i,
        {
            let drawn = random_u64() % (bound as u64);
            query_list.push(drawn as usize);
            i = i + 1;
        }
        RandomOracle { folding_challenges, query_list, rlc: T::random_element() }
    }
}

} // verus!
