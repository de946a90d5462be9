use vstd::prelude::*;

verus! {

/// Fixed-point unit: rates and pheromone weights are stored in millionths,
/// so a stored value of `SCALE` stands for the real number one.
pub const SCALE: u64 = 1_000_000;

/// The longest protein sequence the engine accepts; keeps every lattice
/// coordinate inside `i32` and every contact count inside `u64`.
pub const MAX_SEQ_LEN: usize = 0x0800_0000;

/// Run parameters for one colony invocation, fixed at construction.
///
/// `evaporation` and `neutral_mutation_rate` are probabilities in millionths
/// of [`SCALE`]; `alpha` and `beta` are the (integer) exponents of the
/// pheromone weight and of the greedy heuristic in the construction rule.
#[derive(Debug, PartialEq, Eq, Structural, Clone, Copy)]
pub struct ACOConfig {
    pub ant_count: u16,
    pub max_iter: u16,
    pub no_impr_max: u16,
    pub evaporation: u32,
    pub alpha: u32,
    pub beta: u32,
    pub neutral_mutation_rate: u32,
}

/// Both probability fields must stay inside `[0, 1]`, that is `[0, SCALE]`.
pub open spec fn config_wf(c: ACOConfig) -> bool {
    &&& c.evaporation <= SCALE
    &&& c.neutral_mutation_rate <= SCALE
}

} // verus!
