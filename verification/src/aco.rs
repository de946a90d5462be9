use vstd::prelude::*;

use rayon::iter::{IntoParallelIterator, ParallelIterator};

use crate::config::{config_wf, ACOConfig, MAX_SEQ_LEN};
use crate::conformation::{
    assigned_of, fitness_of, fully_grown, lemma_fitness_shaped, lemma_pair_count_bounds, wf,
    Conformation,
};
use crate::pheromones::Pheromones;
use crate::protein::{AminoAcid, Protein};

verus! {

/// Notification interface of the colony loop: called once after each ant is
/// evaluated and once at the end of each iteration.  The core never inspects
/// what an implementation does with the values.
pub trait ACOLogger {
    fn log_iteration(&self, config: ACOConfig, iter: u16, conformation: &Conformation, fit: u64);

    fn log_ant(&self, config: ACOConfig, ant: u16, conformation: &Conformation, fit: u64);
}

/// A logger that does nothing; for runs whose progress nobody watches.
#[derive(Debug, Clone, Copy, PartialEq, Eq, Structural)]
pub struct SilentLogger;

impl ACOLogger for SilentLogger {
    fn log_iteration(&self, _config: ACOConfig, _iter: u16, _conformation: &Conformation, _fit: u64) {
    }

    fn log_ant(&self, _config: ACOConfig, _ant: u16, _conformation: &Conformation, _fit: u64) {
    }
}

/// What one finished ant hands back: a fully grown, acceptable conformation
/// of the given protein together with its exact fitness.
pub open spec fn ant_result_ok(res: (Conformation, u64), prot: Seq<AminoAcid>) -> bool {
    &&& wf(res.0@)
    &&& fully_grown(res.0@)
    &&& res.0@.prot == prot
    &&& res.0@.slots.len() == prot.len() - 2
    &&& res.1 == fitness_of(res.0@)
}

/// Runs local search until `no_impr_max` consecutive passes have brought no
/// improvement.  Fitness never decreases.
pub fn local_search_loop(conformation: &mut Conformation, no_impr_max: u16)
    requires
        wf(old(conformation)@),
        fully_grown(old(conformation)@),
    ensures
        wf(final(conformation)@),
        fully_grown(final(conformation)@),
        final(conformation)@.prot == old(conformation)@.prot,
        final(conformation)@.slots.len() == old(conformation)@.slots.len(),
        final(conformation).spec_config() == old(conformation).spec_config(),
        fitness_of(final(conformation)@) >= fitness_of(old(conformation)@),
{
    let ghost len2 = old(conformation)@.slots.len() as int + 2;
    proof {
        lemma_pair_count_bounds(
            old(conformation)@.prot,
            assigned_of(old(conformation)@),
            old(conformation)@.cursor + 2,
        );
    }
    let mut no_impr: u16 = 0;
    while no_impr < no_impr_max
        invariant
            wf(conformation@),
            fully_grown(conformation@),
            conformation@.prot == old(conformation)@.prot,
            conformation@.slots.len() == old(conformation)@.slots.len(),
            conformation.spec_config() == old(conformation).spec_config(),
            fitness_of(conformation@) >= fitness_of(old(conformation)@),
            no_impr <= no_impr_max,
            len2 == conformation@.slots.len() as int + 2,
            0 <= fitness_of(conformation@) <= len2 * len2,
        decreases len2 * len2 + 1 - fitness_of(conformation@), no_impr_max - no_impr,
    {
        if conformation.local_search() {
            no_impr = 0;
        } else {
            no_impr = no_impr + 1;
        }
        proof {
            lemma_pair_count_bounds(
                conformation@.prot,
                assigned_of(conformation@),
                conformation@.cursor + 2,
            );
        }
    }
}

/// One ant: a conformation grown by repeated `grow`/`rewind` until complete,
/// refined by local search, then evaluated.
pub fn build_ant(protein: &Protein, config: ACOConfig, pheromones: &Pheromones) -> (r: (
    Conformation,
    u64,
))
    requires
        3 <= protein@.len() <= MAX_SEQ_LEN,
        config_wf(config),
        pheromones.wf(),
        pheromones.spec_rows() == protein@.len() - 2,
    ensures
        ant_result_ok(r, protein@),
        r.0.spec_config() == config,
{
    let mut conf = Conformation::new(protein, config);
    let mut fuel: u64 = 0xFFFF_FFFF_FFFF_FFFF;
    while fuel > 0 && !conf.is_fully_grown()
        invariant
            wf(conf@),
            conf@.prot == protein@,
            conf@.slots.len() == protein@.len() - 2,
            conf.spec_config() == config,
            pheromones.wf(),
            pheromones.spec_rows() == protein@.len() - 2,
        decreases fuel,
    {
        if !conf.grow(pheromones) {
            conf.rewind();
        }
        fuel = fuel - 1;
    }
    if !conf.is_fully_grown() {
        // The retry budget above is astronomically large; should it ever run
        // out, the walk falls back to the straight-line fold, which is
        // acceptable for every chain.
        conf.reset_straight();
    }
    local_search_loop(&mut conf, config.no_impr_max);
    proof {
        lemma_fitness_shaped(conf@);
    }
    let fit = conf.evaluate();
    (conf, fit)
}

/// Relies on rayon's parallel iterator: one independent task per ant, each a
/// call of the verified `build_ant` on the shared read-only pheromone table,
/// with all results collected.
#[verifier::external_body]
fn build_ants(
    protein: &Protein,
    config: ACOConfig,
    pheromones: &Pheromones,
    count: u16,
) -> (r: Vec<(Conformation, u64)>)
    requires
        3 <= protein@.len() <= MAX_SEQ_LEN,
        config_wf(config),
        pheromones.wf(),
        pheromones.spec_rows() == protein@.len() - 2,
    ensures
        r@.len() == count,
        forall|k: int| 0 <= k < r@.len() ==> ant_result_ok(#[trigger] r@[k], protein@),
{
    (0..count).into_par_iter().map(|_| build_ant(protein, config, pheromones)).collect()
}

/// The colony loop: `max_iter` iterations of `ant_count` ants built in
/// parallel, an elitist best-so-far that replaces only on strict
/// improvement, and one pheromone update per iteration from the whole
/// population.  Returns the best conformation found and its fitness; the
/// fitness is `None` exactly when no ant ever ran.
pub fn aco_protein_folding_2dhp<L: ACOLogger>(
    protein: &Protein,
    config: ACOConfig,
    logger: L,
) -> (r: (Conformation, Option<u64>))
    requires
        3 <= protein@.len() <= MAX_SEQ_LEN,
        config_wf(config),
    ensures
        wf(r.0@),
        r.0@.prot == protein@,
        r.1 is Some ==> fully_grown(r.0@) && r.1->0 == fitness_of(r.0@),
        (r.1 is Some) == (config.max_iter > 0 && config.ant_count > 0),
{
    let mut pheromones = Pheromones::new(protein, config);
    let mut best_conformation = Conformation::new(protein, config);
    let mut best: Option<u64> = None;
    let mut iteration: u16 = 0;
    while iteration < config.max_iter
        invariant
            3 <= protein@.len() <= MAX_SEQ_LEN,
            config_wf(config),
            pheromones.wf(),
            pheromones.spec_rows() == protein@.len() - 2,
            wf(best_conformation@),
            best_conformation@.prot == protein@,
            best is Some ==> fully_grown(best_conformation@) && best->0 == fitness_of(
                best_conformation@,
            ),
            (best is Some) == (iteration > 0 && config.ant_count > 0),
            iteration <= config.max_iter,
        decreases config.max_iter - iteration,
    {
        let results = build_ants(protein, config, &pheromones, config.ant_count);
        let mut confs: Vec<Conformation> = Vec::new();
        let mut ant: usize = 0;
        while ant < results.len()
            invariant
                3 <= protein@.len() <= MAX_SEQ_LEN,
                results@.len() == config.ant_count,
                forall|k: int| 0 <= k < results@.len() ==> ant_result_ok(#[trigger] results@[k], protein@),
                ant <= results@.len(),
                confs@.len() == ant,
                forall|k: int|
                    0 <= k < confs@.len() ==> {
                        &&& wf(#[trigger] confs@[k]@)
                        &&& fully_grown(confs@[k]@)
                        &&& confs@[k]@.slots.len() == pheromones.spec_rows()
                    },
                pheromones.wf(),
                pheromones.spec_rows() == protein@.len() - 2,
                wf(best_conformation@),
                best_conformation@.prot == protein@,
                best is Some ==> fully_grown(best_conformation@) && best->0 == fitness_of(
                    best_conformation@,
                ),
                (best is Some) == ((iteration > 0 && config.ant_count > 0) || ant > 0),
            decreases results@.len() - ant,
        {
            let pair = &results[ant];
            logger.log_ant(config, ant as u16, &pair.0, pair.1);
            let better = match best {
                None => true,
                Some(b) => pair.1 > b,
            };
            if better {
                best_conformation = pair.0.clone();
                best = Some(pair.1);
            }
            confs.push(pair.0.clone());
            ant = ant + 1;
        }
        pheromones.update(confs.as_slice());
        let shown = match best {
            Some(b) => b,
            None => 0,
        };
        logger.log_iteration(config, iteration, &best_conformation, shown);
        iteration = iteration + 1;
    }
    (best_conformation, best)
}

} // verus!
