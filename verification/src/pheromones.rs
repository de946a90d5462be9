use vstd::prelude::*;

use crate::config::{config_wf, ACOConfig, MAX_SEQ_LEN, SCALE};
use crate::conformation::{assigned_of, dir_index, fitness_of, fully_grown, lemma_fitness_shaped, lemma_pair_count_bounds, slot_dir, wf, ConfModel, Conformation, Direction};
use crate::protein::{h_count, spec_h_count, Protein};

verus! {

/// Every pheromone weight handed to the sampler is capped here, so that the
/// sum of the three weights of a slot always fits in a `u64`.
pub const W_CAP: u64 = 4611686018427387903;

/// Starting pheromone level of every entry: 0.3 in millionths.
pub const INIT_PHEROMONE: u64 = 300_000;

/// Product capped at `W_CAP`.
pub open spec fn cap_mul(a: int, b: int) -> int {
    if a * b > W_CAP {
        W_CAP as int
    } else {
        a * b
    }
}

/// Fixed-point product (both factors in millionths), capped at `W_CAP`.
pub open spec fn fp_mul(a: int, b: int) -> int {
    if a * b / (SCALE as int) > W_CAP {
        W_CAP as int
    } else {
        a * b / (SCALE as int)
    }
}

/// Fixed-point power with capped intermediate products.
pub open spec fn fp_pow(a: int, e: nat) -> int
    decreases e,
{
    if e == 0 {
        SCALE as int
    } else {
        fp_mul(fp_pow(a, (e - 1) as nat), a)
    }
}

/// Integer power with capped intermediate products.
pub open spec fn int_pow_cap(h: int, e: nat) -> int
    decreases e,
{
    if e == 0 {
        1
    } else {
        cap_mul(int_pow_cap(h, (e - 1) as nat), h)
    }
}

/// Selection weight of a move: `pheromone^alpha * heuristic^beta`, in
/// millionths, with every product capped at `W_CAP`.
pub open spec fn weight_spec(ph: int, alpha: nat, beta: nat, h: int) -> int {
    cap_mul(fp_pow(ph, alpha), int_pow_cap(h, beta))
}

fn cap_mul_exec(a: u64, b: u64) -> (r: u64)
    ensures
        r == cap_mul(a as int, b as int),
        r <= W_CAP,
{
    proof {
        assert((a as int) * (b as int) <= (u64::MAX as int) * (u64::MAX as int))
            by (nonlinear_arith)
            requires
                a <= u64::MAX,
                b <= u64::MAX,
        ;
    }
    let p: u128 = (a as u128) * (b as u128);
    if p > W_CAP as u128 {
        W_CAP
    } else {
        p as u64
    }
}

fn fp_mul_exec(a: u64, b: u64) -> (r: u64)
    ensures
        r == fp_mul(a as int, b as int),
        r <= W_CAP,
{
    proof {
        assert((a as int) * (b as int) <= (u64::MAX as int) * (u64::MAX as int))
            by (nonlinear_arith)
            requires
                a <= u64::MAX,
                b <= u64::MAX,
        ;
    }
    let p: u128 = (a as u128) * (b as u128) / (SCALE as u128);
    if p > W_CAP as u128 {
        W_CAP
    } else {
        p as u64
    }
}

/// The position × move-symbol table of non-negative pheromone levels, stored
/// row-major in millionths, with the run configuration and the hydrophobic
/// residue count used to normalise deposits.
#[derive(Debug)]
pub struct Pheromones {
    pheromones: Vec<u64>,
    config: ACOConfig,
    h_count: u64,
}

impl Pheromones {
    /// The whole table, row-major: slot `i` holds entries `3i .. 3i + 3`.
    pub closed spec fn table(&self) -> Seq<u64> {
        self.pheromones@
    }

    /// Number of slot rows of the table.
    pub closed spec fn spec_rows(&self) -> int {
        self.pheromones@.len() as int / 3
    }

    pub closed spec fn spec_config(&self) -> ACOConfig {
        self.config
    }

    /// The stored hydrophobic-residue count of the sequence.
    pub closed spec fn hc(&self) -> int {
        self.h_count as int
    }

    /// Pheromone level of move column `d` at slot `i`.
    pub open spec fn entry(&self, i: int, d: int) -> int {
        self.table()[3 * i + d] as int
    }

    pub open spec fn wf(&self) -> bool {
        &&& self.table().len() == 3 * self.spec_rows()
        &&& config_wf(self.spec_config())
    }

    /// A fresh table for `protein`: one row per free residue, every entry at
    /// the starting level.
    pub fn new(protein: &Protein, config: ACOConfig) -> (r: Self)
        requires
            3 <= protein@.len() <= MAX_SEQ_LEN,
            config_wf(config),
        ensures
            r.wf(),
            r.spec_rows() == protein@.len() - 2,
            r.spec_config() == config,
            r.hc() == spec_h_count(protein@),
            forall|i: int, d: int|
                0 <= i < r.spec_rows() && 0 <= d < 3 ==> r.entry(i, d) == INIT_PHEROMONE,
    {
        let n = protein.len() - 2;
        let pheromones: Vec<u64> = vec![INIT_PHEROMONE; 3 * n];
        let hc = h_count(protein);
        Pheromones { pheromones, config, h_count: hc as u64 }
    }

    /// Selection weight `pheromone[i][d]^alpha * h^beta` for the construction
    /// rule; a pure read of the table.
    pub fn get_weight(&self, i: usize, d: Direction, h: u64) -> (r: u64)
        requires
            self.wf(),
            i < self.spec_rows(),
        ensures
            r == weight_spec(
                self.entry(i as int, dir_index(d)),
                self.spec_config().alpha as nat,
                self.spec_config().beta as nat,
                h as int,
            ),
            r <= W_CAP,
    {
        let n = self.pheromones.len();
        proof {
            assert(3 * (i as int) + 2 < n as int);
        }
        let ph = self.pheromones[3 * i + d.as_index()];
        let alpha = self.config.alpha;
        let beta = self.config.beta;
        let mut acc: u64 = SCALE;
        let mut k: u32 = 0;
        while k < alpha
            invariant
                k <= alpha,
                acc == fp_pow(ph as int, k as nat),
                acc <= W_CAP,
            decreases alpha - k,
        {
            acc = fp_mul_exec(acc, ph);
            k = k + 1;
        }
        let mut hb: u64 = 1;
        let mut k2: u32 = 0;
        while k2 < beta
            invariant
                k2 <= beta,
                hb == int_pow_cap(h as int, k2 as nat),
                hb <= W_CAP,
            decreases beta - k2,
        {
            hb = cap_mul_exec(hb, h);
            k2 = k2 + 1;
        }
        cap_mul_exec(acc, hb)
    }

    /// Pheromone level of move column `d` at slot `i`; a pure read.
    pub fn get(&self, i: usize, d: Direction) -> (r: u64)
        requires
            self.wf(),
            i < self.spec_rows(),
        ensures
            r == self.entry(i as int, dir_index(d)),
    {
        let n = self.pheromones.len();
        proof {
            assert(3 * (i as int) + 2 < n as int);
        }
        self.pheromones[3 * i + d.as_index()]
    }

    /// Number of slot rows of the table.
    pub fn rows(&self) -> (r: usize)
        requires
            self.wf(),
        ensures
            r == self.spec_rows(),
    {
        self.pheromones.len() / 3
    }
}

/// Level of an entry after multiplicative evaporation.
pub open spec fn evaporated(e: int, evap: int) -> int {
    e * (SCALE as int - evap) / (SCALE as int)
}

/// Addition saturating at the largest storable level.
pub open spec fn sat_add_u64(a: int, b: int) -> int {
    if a + b > u64::MAX {
        u64::MAX as int
    } else {
        a + b
    }
}

/// What one conformation of fitness `fit` deposits on the move column it
/// used: its fitness normalised by the hydrophobic-residue count, in
/// millionths.
pub open spec fn deposit_amount(fit: int, hc: int) -> int {
    if hc == 0 {
        0
    } else if fit * (SCALE as int) / hc > u64::MAX {
        u64::MAX as int
    } else {
        fit * (SCALE as int) / hc
    }
}

/// What conformation `c` deposits on column `d` of slot `i`: its normalised
/// fitness on the move it used there, nothing anywhere else.
pub open spec fn deposit_of(c: ConfModel, hc: int, i: int, d: int) -> int {
    if dir_index(slot_dir(c.slots[i])) == d {
        deposit_amount(fitness_of(c), hc)
    } else {
        0
    }
}

/// Entry of slot `i`, column `d` after the first `k` conformations have
/// deposited onto `base`.
pub open spec fn entry_after(
    cs: Seq<Conformation>,
    hc: int,
    i: int,
    d: int,
    base: int,
    k: int,
) -> int
    decreases k,
{
    if k <= 0 {
        base
    } else {
        sat_add_u64(entry_after(cs, hc, i, d, base, k - 1), deposit_of(cs[k - 1]@, hc, i, d))
    }
}

proof fn lemma_deposit_nonneg(c: ConfModel, hc: int, i: int, d: int)
    requires
        0 <= hc,
    ensures
        0 <= deposit_of(c, hc, i, d),
{
    lemma_pair_count_bounds(c.prot, assigned_of(c), c.cursor + 2);
    if hc != 0 && dir_index(slot_dir(c.slots[i])) == d {
        vstd::arithmetic::mul::lemma_mul_nonnegative(fitness_of(c), SCALE as int);
        vstd::arithmetic::div_mod::lemma_div_pos_is_pos(fitness_of(c) * (SCALE as int), hc);
    }
}

/// Deposits never push an entry outside the storable range.
proof fn lemma_entry_after_bounds(cs: Seq<Conformation>, hc: int, i: int, d: int, base: int, k: int)
    requires
        0 <= base <= u64::MAX,
        0 <= hc,
    ensures
        0 <= entry_after(cs, hc, i, d, base, k) <= u64::MAX,
    decreases k,
{
    if k > 0 {
        lemma_entry_after_bounds(cs, hc, i, d, base, k - 1);
        lemma_deposit_nonneg(cs[k - 1]@, hc, i, d);
    }
}

proof fn lemma_evap_bounds(e: int, evap: int)
    requires
        0 <= e <= u64::MAX,
        0 <= evap <= SCALE,
    ensures
        0 <= evaporated(e, evap) <= e,
{
    assert(0 <= e * (SCALE as int - evap) / (SCALE as int) <= e) by (nonlinear_arith)
        requires
            0 <= e,
            0 <= evap <= SCALE,
    ;
}

impl Pheromones {
    /// One collective learning step: every entry first evaporates by the
    /// factor `1 - evaporation`, then every supplied conformation deposits
    /// its normalised fitness onto the single entry for the move it actually
    /// used at each slot.  Every entry stays non-negative.
    pub fn update(&mut self, conformations: &[Conformation])
        requires
            old(self).wf(),
            forall|t: int|
                0 <= t < conformations@.len() ==> {
                    &&& wf(#[trigger] conformations@[t]@)
                    &&& fully_grown(conformations@[t]@)
                    &&& conformations@[t]@.slots.len() == old(self).spec_rows()
                },
        ensures
            final(self).wf(),
            final(self).spec_rows() == old(self).spec_rows(),
            final(self).spec_config() == old(self).spec_config(),
            final(self).hc() == old(self).hc(),
            forall|i: int, d: int|
                0 <= i < final(self).spec_rows() && 0 <= d < 3 ==> final(self).entry(i, d)
                    == entry_after(
                    conformations@,
                    old(self).hc(),
                    i,
                    d,
                    evaporated(
                        old(self).entry(i, d),
                        old(self).spec_config().evaporation as int,
                    ),
                    conformations@.len() as int,
                ),
            forall|i: int, d: int|
                0 <= i < final(self).spec_rows() && 0 <= d < 3 ==> final(self).entry(i, d) >= 0,
    {
        let ghost table0 = self.table();
        let ghost evap_g = self.config.evaporation as int;
        let ne = self.pheromones.len();
        let evap = self.config.evaporation;
        let mut x: usize = 0;
        while x < ne
            invariant
                self.pheromones@.len() == ne,
                ne == table0.len(),
                x <= ne,
                self.config == old(self).spec_config(),
                self.h_count == old(self).hc(),
                evap == self.config.evaporation,
                evap <= SCALE,
                table0 == old(self).table(),
                evap_g == evap as int,
                forall|y: int|
                    0 <= y < x ==> self.pheromones@[y] == evaporated(table0[y] as int, evap_g),
                forall|y: int| x <= y < ne ==> self.pheromones@[y] == table0[y],
            decreases ne - x,
        {
            let e = self.pheromones[x];
            proof {
                lemma_evap_bounds(e as int, evap_g);
                assert((e as int) * (SCALE as int - evap_g) <= (u64::MAX as int) * (SCALE as int))
                    by (nonlinear_arith)
                    requires
                        0 <= e as int <= u64::MAX as int,
                        0 <= SCALE as int - evap_g <= SCALE as int,
                ;
            }
            let v = (((e as u128) * ((SCALE - evap as u64) as u128)) / (SCALE as u128)) as u64;
            self.pheromones.set(x, v);
            x = x + 1;
        }
        let m = conformations.len();
        let rows = ne / 3;
        proof {
            assert(rows == self.spec_rows());
            assert forall|i: int, d: int| 0 <= i < rows && 0 <= d < 3 implies self.entry(i, d)
                == evaporated(old(self).entry(i, d), evap_g) by {
                assert(0 <= 3 * i + d < ne);
            }
        }
        let ghost hc_g = self.h_count as int;
        let mut t: usize = 0;
        while t < m
            invariant
                self.pheromones@.len() == ne,
                ne == 3 * rows,
                t <= m,
                m == conformations@.len(),
                self.config == old(self).spec_config(),
                self.h_count == old(self).hc(),
                hc_g == self.h_count as int,
                0 <= evap_g <= SCALE,
                forall|tt: int|
                    0 <= tt < conformations@.len() ==> {
                        &&& wf(#[trigger] conformations@[tt]@)
                        &&& fully_grown(conformations@[tt]@)
                        &&& conformations@[tt]@.slots.len() == rows
                    },
                forall|i: int, d: int|
                    0 <= i < rows && 0 <= d < 3 ==> #[trigger] self.pheromones@[3 * i + d]
                        == entry_after(
                        conformations@,
                        hc_g,
                        i,
                        d,
                        evaporated(old(self).entry(i, d), evap_g),
                        t as int,
                    ),
            decreases m - t,
        {
            let conf = &conformations[t];
            proof {
                lemma_fitness_shaped(conf@);
            }
            let fit = conf.evaluate();
            proof {
                lemma_pair_count_bounds(conf@.prot, assigned_of(conf@), conf@.cursor + 2);
                assert((fit as int) * (SCALE as int) <= (u64::MAX as int) * (SCALE as int))
                    by (nonlinear_arith)
                    requires
                        0 <= fit as int <= u64::MAX as int,
                ;
            }
            let dep: u64 = if self.h_count == 0 {
                0
            } else {
                let q = ((fit as u128) * (SCALE as u128)) / (self.h_count as u128);
                if q > u64::MAX as u128 {
                    u64::MAX
                } else {
                    q as u64
                }
            };
            proof {
                if hc_g != 0 {
                    vstd::arithmetic::mul::lemma_mul_nonnegative(fit as int, SCALE as int);
                    vstd::arithmetic::div_mod::lemma_div_pos_is_pos(
                        (fit as int) * (SCALE as int),
                        hc_g,
                    );
                }
                assert(dep as int == deposit_amount(fitness_of(conf@), hc_g));
            }
            let mut i: usize = 0;
            while i < rows
                invariant
                    self.pheromones@.len() == ne,
                    ne == 3 * rows,
                    i <= rows,
                    t < m,
                    m == conformations@.len(),
                    self.config == old(self).spec_config(),
                    self.h_count == old(self).hc(),
                    hc_g == self.h_count as int,
                    0 <= evap_g <= SCALE,
                    conf == &conformations@[t as int],
                    wf(conf@),
                    fully_grown(conf@),
                    conf@.slots.len() == rows,
                    dep as int == deposit_amount(fitness_of(conf@), hc_g),
                    forall|ii: int, d: int|
                        0 <= ii < rows && 0 <= d < 3 && ii < i ==> #[trigger] self.pheromones@[3
                            * ii + d] == entry_after(
                            conformations@,
                            hc_g,
                            ii,
                            d,
                            evaporated(old(self).entry(ii, d), evap_g),
                            t as int + 1,
                        ),
                    forall|ii: int, d: int|
                        0 <= ii < rows && 0 <= d < 3 && ii >= i ==> #[trigger] self.pheromones@[3
                            * ii + d] == entry_after(
                            conformations@,
                            hc_g,
                            ii,
                            d,
                            evaporated(old(self).entry(ii, d), evap_g),
                            t as int,
                        ),
                decreases rows - i,
            {
                let ghost before = self.pheromones@;
                let mv = conf.get(i);
                let di = mv.unwrap().as_index();
                proof {
                    assert(0 <= 3 * (i as int) + (di as int) && 3 * (i as int) + (di as int) < ne);
                }
                let idx = 3 * i + di;
                let e = self.pheromones[idx];
                let v = e.saturating_add(dep);
                self.pheromones.set(idx, v);
                proof {
                    let gi = i as int;
                    let gt = t as int;
                    assert forall|ii: int, d: int|
                        0 <= ii < rows && 0 <= d < 3 && ii < gi + 1 implies #[trigger] self
                        .pheromones@[3 * ii + d] == entry_after(
                        conformations@,
                        hc_g,
                        ii,
                        d,
                        evaporated(old(self).entry(ii, d), evap_g),
                        gt + 1,
                    ) by {
                        lemma_evap_bounds(old(self).entry(ii, d), evap_g);
                        lemma_entry_after_bounds(
                            conformations@,
                            hc_g,
                            ii,
                            d,
                            evaporated(old(self).entry(ii, d), evap_g),
                            gt,
                        );
                        lemma_deposit_nonneg(conf@, hc_g, ii, d);
                        if ii == gi {
                            if d == di as int {
                                assert(self.pheromones@[3 * ii + d] == sat_add_u64(
                                    before[3 * ii + d] as int,
                                    deposit_of(conf@, hc_g, ii, d),
                                ));
                            } else {
                                assert(3 * ii + d != 3 * gi + di as int);
                                assert(deposit_of(conf@, hc_g, ii, d) == 0);
                            }
                        } else {
                            assert(3 * ii + d != 3 * gi + di as int);
                        }
                    }
                }
                i = i + 1;
            }
            t = t + 1;
        }
        proof {
            assert forall|i: int, d: int|
                0 <= i < self.spec_rows() && 0 <= d < 3 implies self.entry(i, d) >= 0 by {
                lemma_evap_bounds(old(self).entry(i, d), evap_g);
                assert(0 <= hc_g);
                lemma_entry_after_bounds(
                    conformations@,
                    hc_g,
                    i,
                    d,
                    evaporated(old(self).entry(i, d), evap_g),
                    conformations@.len() as int,
                );
            }
        }
    }
}

} // verus!
