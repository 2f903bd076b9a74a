//! The simulation: two populations and their environment, advanced one
//! generation at a time.

use crate::config::{Config, UNIT};
use crate::environment::{
    frequency_sum,
    is_frequency_table,
    read_row,
    read_table,
    Environment,
    LookupMiss,
    PhenotypeMap,
    PhenotypeTableError,
    Row,
};
use crate::fitness::{
    draws_fit,
    global_contact_fitness,
    global_host_fitness,
    global_para_fitness,
    hosts_after,
    lemma_sampled_contact_penalises_once,
    penalised_host_fitness,
    sampled_contact_fitness,
    sampled_host_fitness,
    sampled_para_fitness,
};
use crate::ga::{
    ga_step,
    lemma_total_bounds,
    normalised,
    offspring_of,
    selects,
    total,
    DegenerateWeights,
};
use crate::genotype::{
    bit_bytes,
    integer_id,
    is_bits,
    lemma_bit_bytes_denote,
    lemma_bit_string_is_ascii,
    lemma_func_length_bounds,
    lemma_integer_id_is_weighted_sum,
    mutated,
    mutation_draws,
    Genotype,
};
use crate::text::{
    append_bytes,
    append_decimal,
    decimal_digits,
    lemma_decimal_digits_denote,
    lemma_split_of_joined,
    COMMA,
    NEWLINE,
};
use vstd::arithmetic::power2::pow2;
use vstd::prelude::*;
use vstd::string::StringSliceAdditionalSpecFns;

verus! {

/// Where a simulation stands.
#[derive(Clone, Copy, Debug, PartialEq, Eq)]
pub enum Phase {
    /// The populations exist; the frequency table has not been generated.
    Initializing,
    /// Generation steps are being run.
    Running,
    /// The last generation step has been run.
    Completed,
}

/// Both populations at one moment, as text: one table per population, as
/// `population_text` lays it out.
#[derive(Debug)]
pub struct Snapshot {
    pub hosts: Vec<u8>,
    pub parasites: Vec<u8>,
}

/// The state of a simulation: both populations, their environment, the phase
/// and the index of the next generation step.
#[derive(Debug)]
pub struct World {
    pub pop_host: Vec<Genotype>,
    pub pop_para: Vec<Genotype>,
    pub env: Environment,
    pub phase: Phase,
    pub step: u32,
}

/// Every member of a population is a genotype of `gen_len_max` bits.
pub open spec fn population_fits(pop: Seq<Genotype>, gen_len_max: nat) -> bool {
    forall|i: int| 0 <= i < pop.len() ==> (#[trigger] pop[i]).wf() && pop[i]@.len() == gen_len_max
}

/// Every member of a population has only zeros from bit `init_len` on, as a
/// fresh genotype has.
pub open spec fn population_is_fresh(pop: Seq<Genotype>, init_len: nat) -> bool {
    forall|i: int, k: int|
        0 <= i < pop.len() && init_len <= k < pop[i]@.len() ==> (#[trigger] pop[i]@[k]) == 0
}

/// The first line of a population table.
pub open spec fn snapshot_header() -> Seq<u8> {
    "genotype,ptype_id\n".spec_bytes()
}

/// One line of a population table: the genotype as a string of bits,
/// high-order bit first, a comma, the phenotype in decimal digits, and a
/// newline.
pub open spec fn record_text(geno: Seq<u32>, ptype: u64) -> Seq<u8> {
    bit_bytes(geno) + seq![COMMA] + decimal_digits(ptype as nat) + seq![NEWLINE]
}

/// The lines of the first `n` individuals of a population.
pub open spec fn records_text(pop: Seq<Genotype>, env: Environment, n: nat) -> Seq<u8>
    decreases n,
{
    if n == 0 {
        Seq::empty()
    } else {
        records_text(pop, env, (n - 1) as nat) + record_text(
            pop[n - 1]@,
            env.spec_ptype_id(&pop[n - 1]),
        )
    }
}

/// A population as a table: the header, then one line per individual in
/// population order.
pub open spec fn population_text(pop: Seq<Genotype>, env: Environment) -> Seq<u8> {
    snapshot_header() + records_text(pop, env, pop.len())
}

/// A line of a population table, without its newline, reads back as a row
/// of a phenotype table: it lists the genotype's integer encoding with the
/// phenotype.
pub proof fn lemma_record_reads_back(geno: Seq<u32>, ptype: u64, limit: nat)
    requires
        is_bits(geno),
        geno.len() > 0,
        integer_id(geno) < limit <= u64::MAX,
    ensures
        read_row(bit_bytes(geno) + seq![COMMA] + decimal_digits(ptype as nat), limit) == (
        Row::Entry { genotype: integer_id(geno) as u64, ptype }),
{
    let bits = bit_bytes(geno);
    let digits = decimal_digits(ptype as nat);
    lemma_bit_bytes_denote(geno);
    lemma_integer_id_is_weighted_sum(geno);
    lemma_decimal_digits_denote(ptype as nat);
    lemma_split_of_joined(bits, digits, COMMA);
}

/// Some fitness is positive, so the sum of all is.
pub proof fn lemma_total_is_positive(w: Seq<u64>, i: int)
    requires
        0 <= i < w.len(),
        w[i] > 0,
    ensures
        total(w) > 0,
{
    lemma_total_bounds(w);
}

impl World {
    /// The state is consistent with the run parameters: the parameters are
    /// valid, the populations have the configured sizes and hold genotypes
    /// of the configured length, and the step index lies within the run.
    /// Once the run has begun, the environment has a phenotype for every
    /// genotype of that length, and its frequency table has been generated.
    pub open spec fn wf(&self, cfg: &Config) -> bool {
        &&& cfg.valid()
        &&& self.pop_host@.len() == cfg.popsize_host
        &&& self.pop_para@.len() == cfg.popsize_para
        &&& population_fits(self.pop_host@, cfg.gen_len_max as nat)
        &&& population_fits(self.pop_para@, cfg.gen_len_max as nat)
        &&& self.step <= cfg.max_steps
        &&& self.phase == Phase::Initializing ==> self.step == 0
        &&& self.phase == Phase::Completed ==> self.step == cfg.max_steps
        &&& self.phase != Phase::Initializing ==> self.env.covers(cfg.gen_len_max as nat)
        &&& self.phase != Phase::Initializing ==> is_frequency_table(
            self.env.complexity_table@,
            self.env.gp_map,
            pow2(cfg.gen_len_max as nat),
        )
    }

    /// The phenotypes of the hosts, in population order.
    pub open spec fn host_ptypes(&self) -> Seq<u64> {
        self.env.spec_pop_ptypes(self.pop_host@)
    }

    /// The phenotypes of the parasites, in population order.
    pub open spec fn para_ptypes(&self) -> Seq<u64> {
        self.env.spec_pop_ptypes(self.pop_para@)
    }

    /// `hfit` and `pfit` can be the fitnesses of this generation. Under
    /// global contact they are determined; under sampled contact they are
    /// what some table of draws leads to.
    pub open spec fn possible_fitness(&self, cfg: &Config, hfit: Seq<u64>, pfit: Seq<u64>) -> bool {
        if cfg.contact_mode == 0 {
            &&& hfit == global_host_fitness(self.host_ptypes(), self.para_ptypes(), *cfg)
            &&& pfit == global_para_fitness(self.host_ptypes(), self.para_ptypes(), *cfg)
        } else {
            exists|draws: Seq<Seq<usize>>|
                {
                    &&& draws_fit(
                        draws,
                        self.para_ptypes().len(),
                        cfg.spec_contacts_per_parasite(),
                        self.host_ptypes().len(),
                    )
                    &&& hfit == #[trigger] sampled_host_fitness(
                        self.host_ptypes(),
                        self.para_ptypes(),
                        draws,
                        *cfg,
                    )
                    &&& pfit == sampled_para_fitness(
                        self.host_ptypes(),
                        self.para_ptypes(),
                        draws,
                        *cfg,
                    )
                }
        }
    }

    /// In a consistent state whose environment covers the genotype space the
    /// phenotype of every individual can be looked up.
    pub proof fn lemma_populations_resolve(&self, cfg: &Config)
        requires
            self.wf(cfg),
            self.env.covers(cfg.gen_len_max as nat),
        ensures
            forall|i: int|
                0 <= i < self.pop_host@.len() ==> self.env.resolves(#[trigger] &self.pop_host@[i]),
            forall|i: int|
                0 <= i < self.pop_para@.len() ==> self.env.resolves(#[trigger] &self.pop_para@[i]),
    {
        assert forall|i: int| 0 <= i < self.pop_host@.len() implies self.env.resolves(
            #[trigger] &self.pop_host@[i],
        ) by {
            let geno = self.pop_host@[i];
            assert(geno.wf() && geno@.len() == cfg.gen_len_max);
            lemma_func_length_bounds(geno@);
            lemma_integer_id_is_weighted_sum(geno@);
        }
        assert forall|i: int| 0 <= i < self.pop_para@.len() implies self.env.resolves(
            #[trigger] &self.pop_para@[i],
        ) by {
            let geno = self.pop_para@[i];
            assert(geno.wf() && geno@.len() == cfg.gen_len_max);
            lemma_func_length_bounds(geno@);
            lemma_integer_id_is_weighted_sum(geno@);
        }
    }

    /// Possible fitnesses have one entry per individual. Where the parasite
    /// effect is below 1 every host fitness is positive, and where the
    /// parasites' own fitness is positive every parasite fitness is.
    pub proof fn lemma_possible_fitness_is_positive(
        &self,
        cfg: &Config,
        hfit: Seq<u64>,
        pfit: Seq<u64>,
    )
        requires
            cfg.fitness_in_range(),
            self.possible_fitness(cfg, hfit, pfit),
        ensures
            hfit.len() == self.pop_host@.len(),
            pfit.len() == self.pop_para@.len(),
            cfg.para_effect < UNIT ==> forall|i: int| 0 <= i < hfit.len() ==> hfit[i] > 0,
            cfg.para_self_fit > 0 ==> forall|j: int| 0 <= j < pfit.len() ==> pfit[j] > 0,
    {
        if cfg.contact_mode != 0 {
            let draws = choose|draws: Seq<Seq<usize>>|
                {
                    &&& draws_fit(
                        draws,
                        self.para_ptypes().len(),
                        cfg.spec_contacts_per_parasite(),
                        self.host_ptypes().len(),
                    )
                    &&& hfit == #[trigger] sampled_host_fitness(
                        self.host_ptypes(),
                        self.para_ptypes(),
                        draws,
                        *cfg,
                    )
                    &&& pfit == sampled_para_fitness(
                        self.host_ptypes(),
                        self.para_ptypes(),
                        draws,
                        *cfg,
                    )
                };
            lemma_sampled_contact_penalises_once(
                self.host_ptypes(),
                self.para_ptypes(),
                draws,
                *cfg,
                self.para_ptypes().len(),
            );
            assert forall|i: int| 0 <= i < hfit.len() implies hfit[i] == UNIT || hfit[i]
                == penalised_host_fitness(*cfg) by {
                assert(hfit[i] == hosts_after(
                    self.host_ptypes(),
                    self.para_ptypes(),
                    draws,
                    *cfg,
                    self.para_ptypes().len(),
                )[i]);
            }
        }
    }

    /// A world in its first phase: the given environment and two populations
    /// of fresh random genotypes.
    pub fn with_environment(cfg: &Config, env: Environment) -> (world: World)
        requires
            cfg.valid(),
        ensures
            world.wf(cfg),
            world.phase == Phase::Initializing,
            world.env == env,
            population_is_fresh(world.pop_host@, cfg.init_len as nat),
            population_is_fresh(world.pop_para@, cfg.init_len as nat),
    {
        let mut new_hpop: Vec<Genotype> = Vec::new();
        let mut new_ppop: Vec<Genotype> = Vec::new();
        let mut count: u32 = 0;
        while count < cfg.popsize_host
            invariant
                count <= cfg.popsize_host,
                new_hpop.len() == count,
                population_fits(new_hpop@, cfg.gen_len_max as nat),
                population_is_fresh(new_hpop@, cfg.init_len as nat),
            decreases cfg.popsize_host - count,
        {
            new_hpop.push(Genotype::new_rand(cfg));
            count += 1;
        }
        let mut count: u32 = 0;
        while count < cfg.popsize_para
            invariant
                count <= cfg.popsize_para,
                new_ppop.len() == count,
                population_fits(new_ppop@, cfg.gen_len_max as nat),
                population_is_fresh(new_ppop@, cfg.init_len as nat),
            decreases cfg.popsize_para - count,
        {
            new_ppop.push(Genotype::new_rand(cfg));
            count += 1;
        }
        World { pop_host: new_hpop, pop_para: new_ppop, env, phase: Phase::Initializing, step: 0 }
    }

    /// A world in its first phase, with the environment loaded from the
    /// phenotype table held in `gptable`. Every table that can be loaded
    /// gives a world; whether it lists every genotype is found out when the
    /// run begins.
    pub fn init(cfg: &Config, gptable: &[u8]) -> (res: Result<World, PhenotypeTableError>)
        requires
            cfg.valid(),
        ensures
            match res {
                Ok(world) => {
                    &&& world.wf(cfg)
                    &&& world.phase == Phase::Initializing
                    &&& population_is_fresh(world.pop_host@, cfg.init_len as nat)
                    &&& population_is_fresh(world.pop_para@, cfg.init_len as nat)
                    &&& world.env.complexity_table@.len() == 0
                    &&& world.env.gp_map matches PhenotypeMap::TableBacked { table }
                    &&& read_table(gptable@, pow2(cfg.gen_len_max as nat)) == Ok::<
                        Map<u64, u64>,
                        PhenotypeTableError,
                    >(table@)
                },
                Err(e) => read_table(gptable@, pow2(cfg.gen_len_max as nat)) == Err::<
                    Map<u64, u64>,
                    PhenotypeTableError,
                >(e),
            },
    {
        match Environment::init(cfg, gptable) {
            Ok(env) => Ok(World::with_environment(cfg, env)),
            Err(e) => Err(e),
        }
    }

    /// The fitness of every host and of every parasite in this generation,
    /// under the configured contact mode. The first vector is for the hosts,
    /// the second for the parasites, both in population order.
    pub fn get_hp_fitness(&self, cfg: &Config) -> (fit: (Vec<u64>, Vec<u64>))
        requires
            self.wf(cfg),
            self.env.covers(cfg.gen_len_max as nat),
        ensures
            self.possible_fitness(cfg, fit.0@, fit.1@),
            fit.0@.len() == self.pop_host@.len(),
            fit.1@.len() == self.pop_para@.len(),
    {
        proof {
            self.lemma_populations_resolve(cfg);
        }
        let hptypes = self.env.get_pop_ptypes(&self.pop_host);
        let pptypes = self.env.get_pop_ptypes(&self.pop_para);
        assert(hptypes@ == self.host_ptypes());
        assert(pptypes@ == self.para_ptypes());
        if cfg.contact_mode == 0 {
            let fit = global_contact_fitness(&hptypes, &pptypes, cfg);
            proof {
                self.lemma_possible_fitness_is_positive(cfg, fit.0@, fit.1@);
            }
            fit
        } else {
            let fit = sampled_contact_fitness(&hptypes, &pptypes, cfg);
            proof {
                let draws = choose|draws: Seq<Seq<usize>>|
                    {
                        &&& draws_fit(
                            draws,
                            pptypes@.len(),
                            cfg.spec_contacts_per_parasite(),
                            hptypes@.len(),
                        )
                        &&& fit.0@ == #[trigger] sampled_host_fitness(
                            hptypes@,
                            pptypes@,
                            draws,
                            *cfg,
                        )
                        &&& fit.1@ == sampled_para_fitness(hptypes@, pptypes@, draws, *cfg)
                    };
                assert(fit.0@ == sampled_host_fitness(
                    self.host_ptypes(),
                    self.para_ptypes(),
                    draws,
                    *cfg,
                ));
                self.lemma_possible_fitness_is_positive(cfg, fit.0@, fit.1@);
            }
            fit
        }
    }

    /// Starts the run: generates the frequency table of the environment and
    /// enters the running phase at step 0.
    ///
    /// The run can begin only where the environment has a phenotype for
    /// every genotype of the configured length. Where one is missing, the
    /// first such genotype is reported and the world is left as it was.
    pub fn begin_run(&mut self, cfg: &Config) -> (res: Result<(), LookupMiss>)
        requires
            old(self).wf(cfg),
            old(self).phase == Phase::Initializing,
        ensures
            final(self).wf(cfg),
            match res {
                Ok(_) => {
                    &&& old(self).env.covers(cfg.gen_len_max as nat)
                    &&& final(self).phase == Phase::Running
                    &&& final(self).step == 0
                    &&& final(self).pop_host == old(self).pop_host
                    &&& final(self).pop_para == old(self).pop_para
                    &&& final(self).env.gp_map == old(self).env.gp_map
                    &&& frequency_sum(final(self).env.complexity_table@) == pow2(
                        cfg.gen_len_max as nat,
                    )
                },
                Err(miss) => {
                    &&& miss.genotype < pow2(cfg.gen_len_max as nat)
                    &&& old(self).env.gp_map.ptype_of(miss.genotype) is None
                    &&& forall|k: u64|
                        k < miss.genotype ==> (#[trigger] old(self).env.gp_map.ptype_of(k)) is Some
                    &&& *final(self) == *old(self)
                },
            },
    {
        match self.env.first_missing(cfg) {
            Some(genotype) => Err(LookupMiss { genotype }),
            None => {
                self.env.gen_complexity_table(cfg);
                self.phase = Phase::Running;
                Ok(())
            },
        }
    }

    /// Runs one generation step: the fitness of both populations is
    /// computed, then each population is replaced by its next generation.
    ///
    /// The result says whether a snapshot is due after this step, which is
    /// the case at every step index divisible by `save_every`. After the
    /// step with index `max_steps` the run is completed. Where the fitnesses
    /// of a population add up to zero nothing can be selected: the step
    /// fails and leaves the world as it was. That cannot happen where the
    /// parasite effect is below 1 and the parasites' own fitness is positive.
    pub fn run_step(&mut self, cfg: &Config) -> (res: Result<bool, DegenerateWeights>)
        requires
            old(self).wf(cfg),
            old(self).phase == Phase::Running,
        ensures
            final(self).wf(cfg),
            final(self).env == old(self).env,
            exists|hfit: Seq<u64>, pfit: Seq<u64>|
                {
                    &&& #[trigger] old(self).possible_fitness(cfg, hfit, pfit)
                    &&& match res {
                        Ok(_) => {
                            &&& total(hfit) > 0
                            &&& total(pfit) > 0
                            &&& forall|i: int|
                                0 <= i < final(self).pop_host@.len() ==> offspring_of(
                                    old(self).pop_host@,
                                    normalised(hfit),
                                    cfg.mut_host,
                                    (#[trigger] final(self).pop_host@[i])@,
                                )
                            &&& forall|i: int|
                                0 <= i < final(self).pop_para@.len() ==> offspring_of(
                                    old(self).pop_para@,
                                    normalised(pfit),
                                    cfg.mut_para,
                                    (#[trigger] final(self).pop_para@[i])@,
                                )
                        },
                        Err(_) => total(hfit) == 0 || total(pfit) == 0,
                    }
                },
            match res {
                Ok(save) => {
                    &&& save == (old(self).step % cfg.save_every == 0)
                    &&& old(self).step < cfg.max_steps ==> final(self).phase == Phase::Running
                        && final(self).step == old(self).step + 1
                    &&& old(self).step == cfg.max_steps ==> final(self).phase == Phase::Completed
                        && final(self).step == cfg.max_steps
                },
                Err(_) => *final(self) == *old(self),
            },
            cfg.para_effect < UNIT && cfg.para_self_fit > 0 ==> res is Ok,
    {
        let (hfit, pfit) = self.get_hp_fitness(cfg);
        proof {
            self.lemma_possible_fitness_is_positive(cfg, hfit@, pfit@);
            if cfg.para_effect < UNIT {
                lemma_total_is_positive(hfit@, 0);
            }
            if cfg.para_self_fit > 0 {
                lemma_total_is_positive(pfit@, 0);
            }
        }
        let new_hpop = match ga_step(&self.pop_host, &hfit, cfg.mut_host) {
            Ok(pop) => pop,
            Err(e) => {
                return Err(e);
            },
        };
        let new_ppop = match ga_step(&self.pop_para, &pfit, cfg.mut_para) {
            Ok(pop) => pop,
            Err(e) => {
                return Err(e);
            },
        };
        proof {
            assert forall|i: int| 0 <= i < new_hpop@.len() implies (#[trigger] new_hpop@[i]).wf()
                && new_hpop@[i]@.len() == cfg.gen_len_max by {
                lemma_offspring_keeps_length(
                    self.pop_host@,
                    normalised(hfit@),
                    cfg.mut_host,
                    new_hpop@[i]@,
                    cfg.gen_len_max as nat,
                );
            }
            assert forall|i: int| 0 <= i < new_ppop@.len() implies (#[trigger] new_ppop@[i]).wf()
                && new_ppop@[i]@.len() == cfg.gen_len_max by {
                lemma_offspring_keeps_length(
                    self.pop_para@,
                    normalised(pfit@),
                    cfg.mut_para,
                    new_ppop@[i]@,
                    cfg.gen_len_max as nat,
                );
            }
        }
        let save: bool = self.step % cfg.save_every == 0;
        self.pop_host = new_hpop;
        self.pop_para = new_ppop;
        if self.step < cfg.max_steps {
            self.step = self.step + 1;
        } else {
            self.phase = Phase::Completed;
        }
        Ok(save)
    }

    /// Both populations as they stand, rendered as tables for output.
    pub fn save_state(&self, cfg: &Config) -> (shot: Snapshot)
        requires
            self.wf(cfg),
            self.env.covers(cfg.gen_len_max as nat),
        ensures
            shot.hosts@ == population_text(self.pop_host@, self.env),
            shot.parasites@ == population_text(self.pop_para@, self.env),
    {
        proof {
            self.lemma_populations_resolve(cfg);
        }
        let hosts = population_table(&self.pop_host, &self.env);
        let parasites = population_table(&self.pop_para, &self.env);
        Snapshot { hosts, parasites }
    }
}

/// The table of one population.
fn population_table(pop: &Vec<Genotype>, env: &Environment) -> (out: Vec<u8>)
    requires
        forall|i: int| 0 <= i < pop.len() ==> env.resolves(#[trigger] &pop[i]),
    ensures
        out@ == population_text(pop@, *env),
{
    let mut out: Vec<u8> = Vec::new();
    append_bytes(&mut out, "genotype,ptype_id\n".as_bytes());
    assert(out@ =~= snapshot_header());
    let mut idx: usize = 0;
    while idx < pop.len()
        invariant
            idx <= pop.len(),
            forall|i: int| 0 <= i < pop.len() ==> env.resolves(#[trigger] &pop[i]),
            out@ == snapshot_header() + records_text(pop@, *env, idx as nat),
        decreases pop.len() - idx,
    {
        assert(env.resolves(&pop[idx as int]));
        let ghost before = out@;
        let bits = pop[idx].get_as_string();
        let ptype_id: u64 = env.g_to_ptype_id(&pop[idx]);
        let text: &str = bits.as_str();
        proof {
            lemma_bit_string_is_ascii(pop[idx as int]@);
            vstd::string::is_ascii_spec_bytes(text);
            assert(text.spec_bytes() =~= bit_bytes(pop[idx as int]@));
        }
        append_bytes(&mut out, text.as_bytes());
        out.push(COMMA);
        append_decimal(&mut out, ptype_id);
        out.push(NEWLINE);
        proof {
            assert(out@ =~= before + record_text(pop[idx as int]@, ptype_id));
            assert(out@ =~= snapshot_header() + records_text(pop@, *env, (idx + 1) as nat));
        }
        idx += 1;
    }
    out
}

/// An offspring of a population of genotypes of one length has that length.
proof fn lemma_offspring_keeps_length(
    pop: Seq<Genotype>,
    probs: Seq<u64>,
    rate: u64,
    child: Seq<u32>,
    gen_len_max: nat,
)
    requires
        population_fits(pop, gen_len_max),
        offspring_of(pop, probs, rate, child),
    ensures
        child.len() == gen_len_max,
{
    let (parent, draw, flips) = choose|parent: int, draw: int, flips: Seq<u64>|
        #![trigger selects(probs, draw, parent), mutated(pop[parent]@, rate, flips)]
        {
            &&& 0 <= draw < UNIT
            &&& selects(probs, draw, parent)
            &&& parent < pop.len()
            &&& mutation_draws(flips, pop[parent]@.len())
            &&& child == mutated(pop[parent]@, rate, flips)
        };
    assert(pop[parent]@.len() == gen_len_max);
}

} // verus!
