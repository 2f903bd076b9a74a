//! Run parameters, fixed once before a simulation starts.

use vstd::arithmetic::power2::{
    lemma2_to64,
    lemma2_to64_rest,
    lemma_pow2_strictly_increases,
    lemma_pow2_unfold,
    pow2,
};
use vstd::prelude::*;

verus! {

/// The fixed-point unit: the integer that stands for the real number 1.
///
/// A fitness of `UNIT` is the undisturbed host fitness, a probability of
/// `UNIT` is certainty, and a fraction of `UNIT` is the whole.
pub const UNIT: u64 = 1_000_000;

/// The longest genotype a run may use. With at most 63 bits every genotype's
/// integer encoding, and the size of the genotype space, fit in a `u64`.
pub const MAX_GEN_LEN: u32 = 63;

/// Immutable parameters of one run.
///
/// Fields that describe real quantities hold fixed-point values in units of
/// `1 / UNIT`.
#[derive(Clone, Copy, Debug, PartialEq, Eq)]
pub struct Config {
    /// Number of host individuals.
    pub popsize_host: u32,
    /// Number of parasite individuals.
    pub popsize_para: u32,
    /// Length of every genotype, in bits.
    pub gen_len_max: u32,
    /// Number of low-order bits that are randomised in a fresh genotype.
    pub init_len: u32,
    /// Replication cost slope of hosts (carried, not used by the fitness model).
    pub srca_host: u64,
    /// Replication cost offset of hosts (carried, not used by the fitness model).
    pub srcb_host: u64,
    /// Replication cost slope of parasites (carried, not used by the fitness model).
    pub srca_para: u64,
    /// Replication cost offset of parasites (carried, not used by the fitness model).
    pub srcb_para: u64,
    /// Fitness a host loses to a matching parasite.
    pub para_effect: u64,
    /// Fitness of a parasite that found no host.
    pub para_self_fit: u64,
    /// Fitness a parasite gains from a permissive host.
    pub para_perm_fit: u64,
    /// Per-bit mutation probability of hosts.
    pub mut_host: u64,
    /// Per-bit mutation probability of parasites.
    pub mut_para: u64,
    /// Contact mode: 0 is global contact, 1 is contact by random sampling.
    pub contact_mode: u32,
    /// Fraction of the host population each parasite samples in mode 1.
    pub contact_frac: u64,
    /// Index of the last generation step; steps `0..=max_steps` are run.
    pub max_steps: u32,
    /// A snapshot is due at every step divisible by this.
    pub save_every: u32,
}

impl Config {
    /// The fitness terms are in range: the parasite effect leaves host
    /// fitness non-negative, and the two parasite terms have a sum that fits
    /// in a `u64`.
    pub open spec fn fitness_in_range(&self) -> bool {
        &&& self.para_effect <= UNIT
        &&& self.para_self_fit + self.para_perm_fit <= u64::MAX
    }

    /// The blank configuration: every count and rate is zero, the replication
    /// cost offsets are 1.
    pub open spec fn blank() -> Config {
        Config {
            popsize_host: 0,
            popsize_para: 0,
            gen_len_max: 0,
            init_len: 0,
            srca_host: 0,
            srcb_host: UNIT,
            srca_para: 0,
            srcb_para: UNIT,
            para_effect: 0,
            para_self_fit: 0,
            para_perm_fit: 0,
            mut_host: 0,
            mut_para: 0,
            contact_mode: 0,
            contact_frac: 0,
            max_steps: 0,
            save_every: 0,
        }
    }

    /// The parameter combinations a simulation accepts: positive population
    /// sizes and snapshot interval, `init_len <= gen_len_max <= MAX_GEN_LEN`,
    /// probabilities and fractions within `[0, 1]`, fitness terms in range,
    /// and a known contact mode.
    pub open spec fn valid(&self) -> bool {
        &&& self.popsize_host > 0
        &&& self.popsize_para > 0
        &&& self.init_len <= self.gen_len_max
        &&& self.gen_len_max <= MAX_GEN_LEN
        &&& self.fitness_in_range()
        &&& self.mut_host <= UNIT
        &&& self.mut_para <= UNIT
        &&& self.contact_mode <= 1
        &&& self.contact_frac <= UNIT
        &&& self.save_every > 0
    }

    /// Number of hosts each parasite samples in contact mode 1:
    /// `floor(contact_frac * popsize_host)`.
    pub open spec fn spec_contacts_per_parasite(&self) -> int {
        (self.contact_frac * self.popsize_host) / (UNIT as int)
    }

    /// The parameters of the reference run.
    pub fn init() -> (cfg: Config)
        ensures
            cfg == (Config {
                popsize_host: 100,
                popsize_para: 100,
                gen_len_max: 5,
                init_len: 1,
                srca_host: 0,
                srcb_host: UNIT,
                srca_para: 0,
                srcb_para: UNIT,
                para_effect: 800_000,
                para_self_fit: 100_000,
                para_perm_fit: 500_000,
                mut_host: 2_000,
                mut_para: 2_000,
                contact_mode: 0,
                contact_frac: 0,
                max_steps: 1000,
                save_every: 1,
            }),
            cfg.valid(),
    {
        Config {
            popsize_host: 100,
            popsize_para: 100,
            gen_len_max: 5,
            init_len: 1,
            srca_host: 0,
            srcb_host: UNIT,
            srca_para: 0,
            srcb_para: UNIT,
            para_effect: 800_000,
            para_self_fit: 100_000,
            para_perm_fit: 500_000,
            mut_host: 2_000,
            mut_para: 2_000,
            contact_mode: 0,
            contact_frac: 0,
            max_steps: 1000,
            save_every: 1,
        }
    }

    /// Decides whether the parameters are acceptable.
    pub fn is_valid(&self) -> (ok: bool)
        ensures
            ok == self.valid(),
    {
        self.popsize_host > 0 && self.popsize_para > 0 && self.init_len <= self.gen_len_max
            && self.gen_len_max <= MAX_GEN_LEN && self.para_effect <= UNIT
            && self.para_perm_fit <= u64::MAX - self.para_self_fit && self.mut_host <= UNIT
            && self.mut_para <= UNIT && self.contact_mode <= 1 && self.contact_frac <= UNIT
            && self.save_every > 0
    }

    /// Number of genotypes of the configured length: `2^gen_len_max`.
    pub fn genotype_space(&self) -> (size: u64)
        requires
            self.gen_len_max <= MAX_GEN_LEN,
        ensures
            size == pow2(self.gen_len_max as nat),
            size <= 0x8000_0000_0000_0000,
    {
        let mut size: u64 = 1;
        let mut done: u32 = 0;
        proof {
            lemma2_to64();
            lemma2_to64_rest();
        }
        while done < self.gen_len_max
            invariant
                done <= self.gen_len_max <= MAX_GEN_LEN,
                size == pow2(done as nat),
                pow2(63) == 0x8000_0000_0000_0000,
            decreases self.gen_len_max - done,
        {
            proof {
                lemma_pow2_unfold((done + 1) as nat);
                if done + 1 < 63 {
                    lemma_pow2_strictly_increases((done + 1) as nat, 63);
                }
            }
            size = size * 2;
            done += 1;
        }
        proof {
            if self.gen_len_max < 63 {
                lemma_pow2_strictly_increases(self.gen_len_max as nat, 63);
            }
        }
        size
    }

    /// Number of hosts each parasite samples in contact mode 1.
    pub fn contacts_per_parasite(&self) -> (k: u32)
        requires
            self.contact_frac <= UNIT,
        ensures
            k == self.spec_contacts_per_parasite(),
            k <= self.popsize_host,
    {
        assert(self.contact_frac * self.popsize_host <= UNIT * self.popsize_host)
            by (nonlinear_arith)
            requires
                self.contact_frac <= UNIT,
        ;
        let product: u128 = (self.contact_frac as u128) * (self.popsize_host as u128);
        let k: u128 = product / (UNIT as u128);
        assert(k <= self.popsize_host) by (nonlinear_arith)
            requires
                k == (self.contact_frac * self.popsize_host) / (UNIT as int),
                self.contact_frac <= UNIT,
                UNIT == 1_000_000,
        ;
        k as u32
    }
}

impl Default for Config {
    /// The blank configuration that a parameter text is read into.
    fn default() -> (cfg: Config)
        ensures
            cfg == Config::blank(),
    {
        Config {
            popsize_host: 0,
            popsize_para: 0,
            gen_len_max: 0,
            init_len: 0,
            srca_host: 0,
            srcb_host: UNIT,
            srca_para: 0,
            srcb_para: UNIT,
            para_effect: 0,
            para_self_fit: 0,
            para_perm_fit: 0,
            mut_host: 0,
            mut_para: 0,
            contact_mode: 0,
            contact_frac: 0,
            max_steps: 0,
            save_every: 0,
        }
    }
}

} // verus!
