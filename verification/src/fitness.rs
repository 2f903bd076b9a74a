//! The fitness interaction between hosts and parasites.
//!
//! Both contact modes take the phenotypes of the two populations, in
//! population order, and give back one fitness per individual in the same
//! order. A host that no parasite reached has fitness `UNIT`; a parasite that
//! found no host has fitness `para_self_fit`.

use crate::config::{Config, UNIT};
use crate::random::random_below;
use vstd::prelude::*;

verus! {

/// Fitness of a host that a parasite has attached to: `1 - para_effect`.
pub open spec fn penalised_host_fitness(cfg: Config) -> u64 {
    (UNIT - cfg.para_effect) as u64
}

/// Fitness of a parasite that found a permissive host:
/// `para_self_fit + para_perm_fit`.
pub open spec fn rewarded_para_fitness(cfg: Config) -> u64 {
    (cfg.para_self_fit + cfg.para_perm_fit) as u64
}

/// Host fitness under global contact: a host is penalised exactly when its
/// phenotype occurs anywhere among the parasites.
pub open spec fn global_host_fitness(hptypes: Seq<u64>, pptypes: Seq<u64>, cfg: Config) -> Seq<
    u64,
> {
    Seq::new(
        hptypes.len(),
        |i: int|
            if pptypes.contains(hptypes[i]) {
                penalised_host_fitness(cfg)
            } else {
                UNIT
            },
    )
}

/// Parasite fitness under global contact: a parasite is rewarded exactly when
/// its phenotype occurs anywhere among the hosts.
pub open spec fn global_para_fitness(hptypes: Seq<u64>, pptypes: Seq<u64>, cfg: Config) -> Seq<
    u64,
> {
    Seq::new(
        pptypes.len(),
        |j: int|
            if hptypes.contains(pptypes[j]) {
                rewarded_para_fitness(cfg)
            } else {
                cfg.para_self_fit
            },
    )
}

/// Two populations share no phenotype.
pub open spec fn no_shared_phenotype(hptypes: Seq<u64>, pptypes: Seq<u64>) -> bool {
    forall|i: int, j: int|
        0 <= i < hptypes.len() && 0 <= j < pptypes.len() ==> hptypes[i] != pptypes[j]
}

/// Decides whether phenotype `ptype` occurs in `ptypes`.
pub fn contains_ptype(ptypes: &Vec<u64>, ptype: u64) -> (found: bool)
    ensures
        found == ptypes@.contains(ptype),
{
    let mut i: usize = 0;
    while i < ptypes.len()
        invariant
            i <= ptypes.len(),
            forall|k: int| 0 <= k < i ==> ptypes[k] != ptype,
        decreases ptypes.len() - i,
    {
        if ptypes[i] == ptype {
            return true;
        }
        i += 1;
    }
    false
}

/// Contact mode 0: fitness of both populations under global contact.
///
/// The first vector holds the host fitnesses, the second the parasite
/// fitnesses. The result depends only on which phenotypes occur in each
/// population.
pub fn global_contact_fitness(hptypes: &Vec<u64>, pptypes: &Vec<u64>, cfg: &Config) -> (fit: (
    Vec<u64>,
    Vec<u64>,
))
    requires
        cfg.fitness_in_range(),
    ensures
        fit.0@ == global_host_fitness(hptypes@, pptypes@, *cfg),
        fit.1@ == global_para_fitness(hptypes@, pptypes@, *cfg),
{
    let mut hfit: Vec<u64> = Vec::new();
    let mut pfit: Vec<u64> = Vec::new();
    let mut idxh: usize = 0;
    while idxh < hptypes.len()
        invariant
            cfg.fitness_in_range(),
            idxh <= hptypes.len(),
            hfit.len() == idxh,
            forall|i: int|
                0 <= i < idxh ==> hfit[i] == global_host_fitness(hptypes@, pptypes@, *cfg)[i],
        decreases hptypes.len() - idxh,
    {
        if contains_ptype(pptypes, hptypes[idxh]) {
            hfit.push(UNIT - cfg.para_effect);
        } else {
            hfit.push(UNIT);
        }
        idxh += 1;
    }
    let mut idxp: usize = 0;
    while idxp < pptypes.len()
        invariant
            cfg.fitness_in_range(),
            idxp <= pptypes.len(),
            pfit.len() == idxp,
            forall|j: int|
                0 <= j < idxp ==> pfit[j] == global_para_fitness(hptypes@, pptypes@, *cfg)[j],
        decreases pptypes.len() - idxp,
    {
        if contains_ptype(hptypes, pptypes[idxp]) {
            pfit.push(cfg.para_self_fit + cfg.para_perm_fit);
        } else {
            pfit.push(cfg.para_self_fit);
        }
        idxp += 1;
    }
    (hfit, pfit)
}

/// Under global contact, populations that share no phenotype leave every
/// host at fitness `UNIT` and every parasite at `para_self_fit`.
pub proof fn lemma_global_contact_without_shared_phenotype(
    hptypes: Seq<u64>,
    pptypes: Seq<u64>,
    cfg: Config,
)
    requires
        no_shared_phenotype(hptypes, pptypes),
    ensures
        global_host_fitness(hptypes, pptypes, cfg) == Seq::new(hptypes.len(), |i: int| UNIT),
        global_para_fitness(hptypes, pptypes, cfg) == Seq::new(
            pptypes.len(),
            |j: int| cfg.para_self_fit,
        ),
{
    assert forall|i: int| 0 <= i < hptypes.len() implies !pptypes.contains(hptypes[i]) by {
        if pptypes.contains(hptypes[i]) {
            let j = choose|j: int| 0 <= j < pptypes.len() && pptypes[j] == hptypes[i];
            assert(hptypes[i] != pptypes[j]);
        }
    }
    assert forall|j: int| 0 <= j < pptypes.len() implies !hptypes.contains(pptypes[j]) by {
        if hptypes.contains(pptypes[j]) {
            let i = choose|i: int| 0 <= i < hptypes.len() && hptypes[i] == pptypes[j];
            assert(hptypes[i] != pptypes[j]);
        }
    }
    assert(global_host_fitness(hptypes, pptypes, cfg) =~= Seq::new(
        hptypes.len(),
        |i: int| UNIT,
    ));
    assert(global_para_fitness(hptypes, pptypes, cfg) =~= Seq::new(
        pptypes.len(),
        |j: int| cfg.para_self_fit,
    ));
}

/// Whether a parasite of phenotype `ptype` that meets the host at `idx`
/// attaches to it: the host has the parasite's phenotype and its fitness is
/// still exactly `UNIT`.
pub open spec fn attaches(hfit: Seq<u64>, hptypes: Seq<u64>, ptype: u64, idx: int) -> bool {
    &&& 0 <= idx < hfit.len()
    &&& idx < hptypes.len()
    &&& hptypes[idx] == ptype
    &&& hfit[idx] == UNIT
}

/// The host that a parasite attaches to when it meets the hosts at `draws`
/// in turn: the first drawn host it can attach to, if there is one. Draws
/// after the first success play no part.
pub open spec fn attached_host(
    hfit: Seq<u64>,
    hptypes: Seq<u64>,
    ptype: u64,
    draws: Seq<usize>,
) -> Option<int>
    decreases draws.len(),
{
    if draws.len() == 0 {
        None
    } else {
        match attached_host(hfit, hptypes, ptype, draws.drop_last()) {
            Some(i) => Some(i),
            None => if attaches(hfit, hptypes, ptype, draws.last() as int) {
                Some(draws.last() as int)
            } else {
                None
            },
        }
    }
}

/// Host fitness after one parasite has made its contacts: the host it
/// attached to, if any, drops to `1 - para_effect`.
pub open spec fn hosts_after_parasite(
    hfit: Seq<u64>,
    hptypes: Seq<u64>,
    ptype: u64,
    draws: Seq<usize>,
    cfg: Config,
) -> Seq<u64> {
    match attached_host(hfit, hptypes, ptype, draws) {
        Some(i) => hfit.update(i, penalised_host_fitness(cfg)),
        None => hfit,
    }
}

/// Fitness of one parasite after its contacts: rewarded exactly when it
/// attached to a host.
pub open spec fn para_fitness_after(
    hfit: Seq<u64>,
    hptypes: Seq<u64>,
    ptype: u64,
    draws: Seq<usize>,
    cfg: Config,
) -> u64 {
    if attached_host(hfit, hptypes, ptype, draws) is Some {
        rewarded_para_fitness(cfg)
    } else {
        cfg.para_self_fit
    }
}

/// Host fitness once the first `n` parasites, in population order, have made
/// their contacts; `draws[j]` lists the hosts that parasite `j` meets.
pub open spec fn hosts_after(
    hptypes: Seq<u64>,
    pptypes: Seq<u64>,
    draws: Seq<Seq<usize>>,
    cfg: Config,
    n: nat,
) -> Seq<u64>
    decreases n,
{
    if n == 0 {
        Seq::new(hptypes.len(), |i: int| UNIT)
    } else {
        hosts_after_parasite(
            hosts_after(hptypes, pptypes, draws, cfg, (n - 1) as nat),
            hptypes,
            pptypes[n - 1],
            draws[n - 1],
            cfg,
        )
    }
}

/// Host fitness under sampled contact, given every parasite's draws.
pub open spec fn sampled_host_fitness(
    hptypes: Seq<u64>,
    pptypes: Seq<u64>,
    draws: Seq<Seq<usize>>,
    cfg: Config,
) -> Seq<u64> {
    hosts_after(hptypes, pptypes, draws, cfg, pptypes.len())
}

/// Parasite fitness under sampled contact, given every parasite's draws.
/// Parasite `j` meets the hosts as the parasites before it have left them.
pub open spec fn sampled_para_fitness(
    hptypes: Seq<u64>,
    pptypes: Seq<u64>,
    draws: Seq<Seq<usize>>,
    cfg: Config,
) -> Seq<u64> {
    Seq::new(
        pptypes.len(),
        |j: int|
            para_fitness_after(
                hosts_after(hptypes, pptypes, draws, cfg, j as nat),
                hptypes,
                pptypes[j],
                draws[j],
                cfg,
            ),
    )
}

/// The draws of a whole generation as sequences.
pub open spec fn draw_table(draws: Seq<Vec<usize>>) -> Seq<Seq<usize>> {
    Seq::new(draws.len(), |j: int| draws[j]@)
}

/// A table of draws fits a generation: one list per parasite, each of
/// `contacts` host indices below `hosts`.
pub open spec fn draws_fit(
    draws: Seq<Seq<usize>>,
    parasites: nat,
    contacts: int,
    hosts: nat,
) -> bool {
    &&& draws.len() == parasites
    &&& forall|j: int| 0 <= j < parasites ==> (#[trigger] draws[j]).len() == contacts
    &&& forall|j: int, m: int|
        0 <= j < parasites && 0 <= m < draws[j].len() ==> #[trigger] draws[j][m] < hosts
}

/// Once a prefix of the draws has led to an attachment, later draws do not
/// change it.
pub proof fn lemma_attached_host_is_first(
    hfit: Seq<u64>,
    hptypes: Seq<u64>,
    ptype: u64,
    draws: Seq<usize>,
    n: int,
)
    requires
        0 <= n <= draws.len(),
        attached_host(hfit, hptypes, ptype, draws.take(n)) is Some,
    ensures
        attached_host(hfit, hptypes, ptype, draws) == attached_host(
            hfit,
            hptypes,
            ptype,
            draws.take(n),
        ),
    decreases draws.len() - n,
{
    if n == draws.len() {
        assert(draws.take(n) =~= draws);
    } else {
        assert(draws.drop_last().take(n) =~= draws.take(n));
        lemma_attached_host_is_first(hfit, hptypes, ptype, draws.drop_last(), n);
    }
}

/// The host fitness after `n` parasites depends on the draws of those `n`
/// parasites only.
pub proof fn lemma_hosts_after_depends_on_prefix(
    hptypes: Seq<u64>,
    pptypes: Seq<u64>,
    draws_a: Seq<Seq<usize>>,
    draws_b: Seq<Seq<usize>>,
    cfg: Config,
    n: nat,
)
    requires
        n <= draws_a.len(),
        n <= draws_b.len(),
        forall|j: int| 0 <= j < n ==> draws_a[j] == draws_b[j],
    ensures
        hosts_after(hptypes, pptypes, draws_a, cfg, n) == hosts_after(
            hptypes,
            pptypes,
            draws_b,
            cfg,
            n,
        ),
    decreases n,
{
    if n > 0 {
        lemma_hosts_after_depends_on_prefix(hptypes, pptypes, draws_a, draws_b, cfg, (n - 1) as nat);
    }
}

/// One contact: the parasite of phenotype `ptype` meets the host at `idx`.
///
/// It attaches exactly when the host has its phenotype and is still at
/// fitness `UNIT`; the host then drops to `1 - para_effect`. Otherwise
/// nothing changes.
pub fn try_attach(
    hfit: &mut Vec<u64>,
    hptypes: &Vec<u64>,
    ptype: u64,
    idx: usize,
    cfg: &Config,
) -> (attached: bool)
    requires
        cfg.para_effect <= UNIT,
        old(hfit).len() == hptypes.len(),
        idx < hptypes.len(),
    ensures
        attached == attaches(old(hfit)@, hptypes@, ptype, idx as int),
        attached ==> final(hfit)@ == old(hfit)@.update(idx as int, penalised_host_fitness(*cfg)),
        !attached ==> final(hfit)@ == old(hfit)@,
{
    if hptypes[idx] == ptype && hfit[idx] == UNIT {
        hfit.set(idx, UNIT - cfg.para_effect);
        true
    } else {
        false
    }
}

/// The contacts of one parasite with the hosts at `draws`, in that order,
/// ending at the first host it attaches to. Returns the parasite's fitness.
pub fn contact_with_draws(
    hfit: &mut Vec<u64>,
    hptypes: &Vec<u64>,
    ptype: u64,
    draws: &Vec<usize>,
    cfg: &Config,
) -> (fit: u64)
    requires
        cfg.fitness_in_range(),
        old(hfit).len() == hptypes.len(),
        forall|m: int| 0 <= m < draws.len() ==> draws[m] < hptypes.len(),
    ensures
        final(hfit)@ == hosts_after_parasite(old(hfit)@, hptypes@, ptype, draws@, *cfg),
        final(hfit).len() == old(hfit).len(),
        fit == para_fitness_after(old(hfit)@, hptypes@, ptype, draws@, *cfg),
{
    let ghost before = hfit@;
    let mut attached = false;
    let mut m: usize = 0;
    while m < draws.len() && !attached
        invariant
            cfg.fitness_in_range(),
            m <= draws.len(),
            hfit.len() == hptypes.len(),
            before.len() == hptypes.len(),
            forall|m: int| 0 <= m < draws.len() ==> draws[m] < hptypes.len(),
            attached == (attached_host(before, hptypes@, ptype, draws@.take(m as int)) is Some),
            hfit@ == hosts_after_parasite(before, hptypes@, ptype, draws@.take(m as int), *cfg),
        decreases draws.len() - m,
    {
        attached = try_attach(hfit, hptypes, ptype, draws[m], cfg);
        m += 1;
        assert(draws@.take(m as int).drop_last() =~= draws@.take(m - 1));
    }
    proof {
        if attached {
            lemma_attached_host_is_first(before, hptypes@, ptype, draws@, m as int);
        } else {
            assert(draws@.take(m as int) =~= draws@);
        }
    }
    if attached {
        cfg.para_self_fit + cfg.para_perm_fit
    } else {
        cfg.para_self_fit
    }
}

/// Contact mode 1 with the draws given: fitness of both populations when
/// parasite `j` meets the hosts at `draws[j]`.
///
/// Parasites are served in population order; a host that one parasite has
/// attached to is closed to all later ones.
pub fn sampled_contact_fitness_with_draws(
    hptypes: &Vec<u64>,
    pptypes: &Vec<u64>,
    draws: &Vec<Vec<usize>>,
    cfg: &Config,
) -> (fit: (Vec<u64>, Vec<u64>))
    requires
        cfg.fitness_in_range(),
        draws.len() == pptypes.len(),
        forall|j: int, m: int|
            0 <= j < draws.len() && 0 <= m < draws[j].len() ==> #[trigger] draws[j][m]
                < hptypes.len(),
    ensures
        fit.0@ == sampled_host_fitness(hptypes@, pptypes@, draw_table(draws@), *cfg),
        fit.1@ == sampled_para_fitness(hptypes@, pptypes@, draw_table(draws@), *cfg),
{
    let mut hfit: Vec<u64> = Vec::new();
    let mut pfit: Vec<u64> = Vec::new();
    let mut idxh: usize = 0;
    while idxh < hptypes.len()
        invariant
            idxh <= hptypes.len(),
            hfit.len() == idxh,
            forall|i: int| 0 <= i < idxh ==> hfit[i] == UNIT,
        decreases hptypes.len() - idxh,
    {
        hfit.push(UNIT);
        idxh += 1;
    }
    let ghost table = draw_table(draws@);
    assert(hfit@ =~= hosts_after(hptypes@, pptypes@, table, *cfg, 0));
    let mut idxp: usize = 0;
    while idxp < pptypes.len()
        invariant
            cfg.fitness_in_range(),
            idxp <= pptypes.len(),
            draws.len() == pptypes.len(),
            table == draw_table(draws@),
            forall|j: int, m: int|
                0 <= j < draws.len() && 0 <= m < draws[j].len() ==> #[trigger] draws[j][m]
                    < hptypes.len(),
            hfit.len() == hptypes.len(),
            hfit@ == hosts_after(hptypes@, pptypes@, table, *cfg, idxp as nat),
            pfit.len() == idxp,
            forall|j: int|
                0 <= j < idxp ==> pfit[j] == sampled_para_fitness(
                    hptypes@,
                    pptypes@,
                    table,
                    *cfg,
                )[j],
        decreases pptypes.len() - idxp,
    {
        assert(table[idxp as int] == draws[idxp as int]@);
        let fit = contact_with_draws(&mut hfit, hptypes, pptypes[idxp], &draws[idxp], cfg);
        pfit.push(fit);
        idxp += 1;
    }
    (hfit, pfit)
}

/// The contacts of one parasite with up to `contacts` hosts drawn at random,
/// ending at the first host it attaches to. Returns the parasite's fitness.
fn contact_at_random(
    hfit: &mut Vec<u64>,
    hptypes: &Vec<u64>,
    ptype: u64,
    contacts: u32,
    cfg: &Config,
) -> (res: (u64, Ghost<Seq<usize>>))
    requires
        cfg.fitness_in_range(),
        old(hfit).len() == hptypes.len(),
        contacts > 0 ==> hptypes.len() > 0,
    ensures
        final(hfit).len() == old(hfit).len(),
        res.1@.len() == contacts,
        forall|m: int| 0 <= m < res.1@.len() ==> res.1@[m] < hptypes.len(),
        final(hfit)@ == hosts_after_parasite(old(hfit)@, hptypes@, ptype, res.1@, *cfg),
        res.0 == para_fitness_after(old(hfit)@, hptypes@, ptype, res.1@, *cfg),
{
    let ghost before = hfit@;
    let ghost mut drawn: Seq<usize> = Seq::empty();
    let mut attached = false;
    let mut m: u32 = 0;
    while m < contacts && !attached
        invariant
            cfg.fitness_in_range(),
            m <= contacts,
            contacts > 0 ==> hptypes.len() > 0,
            hfit.len() == hptypes.len(),
            before.len() == hptypes.len(),
            drawn.len() == m,
            forall|i: int| 0 <= i < drawn.len() ==> drawn[i] < hptypes.len(),
            attached == (attached_host(before, hptypes@, ptype, drawn) is Some),
            hfit@ == hosts_after_parasite(before, hptypes@, ptype, drawn, *cfg),
        decreases contacts - m,
    {
        let test_idx: usize = random_below(hptypes.len() as u64) as usize;
        attached = try_attach(hfit, hptypes, ptype, test_idx, cfg);
        m += 1;
        proof {
            assert(drawn.push(test_idx).drop_last() =~= drawn);
            drawn = drawn.push(test_idx);
        }
    }
    let ghost draws = drawn + Seq::new((contacts - m) as nat, |i: int| 0usize);
    proof {
        assert(draws.take(m as int) =~= drawn);
        if attached {
            lemma_attached_host_is_first(before, hptypes@, ptype, draws, m as int);
        } else {
            assert(draws =~= drawn);
        }
    }
    if attached {
        (cfg.para_self_fit + cfg.para_perm_fit, Ghost(draws))
    } else {
        (cfg.para_self_fit, Ghost(draws))
    }
}

/// Contact mode 1: fitness of both populations under contact by random
/// sampling.
///
/// Each parasite, in population order, meets up to
/// `floor(contact_frac * popsize_host)` hosts drawn uniformly at random with
/// replacement, and attaches to the first one that has its phenotype and is
/// still at fitness `UNIT`. Whatever is drawn, the result is the one that
/// `sampled_contact_fitness_with_draws` computes from some table of draws
/// that fits the generation.
pub fn sampled_contact_fitness(hptypes: &Vec<u64>, pptypes: &Vec<u64>, cfg: &Config) -> (fit: (
    Vec<u64>,
    Vec<u64>,
))
    requires
        cfg.fitness_in_range(),
        cfg.contact_frac <= UNIT,
        cfg.spec_contacts_per_parasite() > 0 ==> hptypes.len() > 0,
    ensures
        exists|draws: Seq<Seq<usize>>|
            {
                &&& draws_fit(
                    draws,
                    pptypes@.len(),
                    cfg.spec_contacts_per_parasite(),
                    hptypes@.len(),
                )
                &&& fit.0@ == #[trigger] sampled_host_fitness(hptypes@, pptypes@, draws, *cfg)
                &&& fit.1@ == sampled_para_fitness(hptypes@, pptypes@, draws, *cfg)
            },
{
    let mut hfit: Vec<u64> = Vec::new();
    let mut pfit: Vec<u64> = Vec::new();
    let mut idxh: usize = 0;
    while idxh < hptypes.len()
        invariant
            idxh <= hptypes.len(),
            hfit.len() == idxh,
            forall|i: int| 0 <= i < idxh ==> hfit[i] == UNIT,
        decreases hptypes.len() - idxh,
    {
        hfit.push(UNIT);
        idxh += 1;
    }
    let contacts: u32 = cfg.contacts_per_parasite();
    let ghost mut table: Seq<Seq<usize>> = Seq::empty();
    assert(hfit@ =~= hosts_after(hptypes@, pptypes@, table, *cfg, 0));
    let mut idxp: usize = 0;
    while idxp < pptypes.len()
        invariant
            cfg.fitness_in_range(),
            idxp <= pptypes.len(),
            contacts == cfg.spec_contacts_per_parasite(),
            contacts > 0 ==> hptypes.len() > 0,
            draws_fit(table, idxp as nat, contacts as int, hptypes@.len()),
            hfit.len() == hptypes.len(),
            hfit@ == hosts_after(hptypes@, pptypes@, table, *cfg, idxp as nat),
            pfit.len() == idxp,
            forall|j: int|
                0 <= j < idxp ==> pfit[j] == para_fitness_after(
                    hosts_after(hptypes@, pptypes@, table, *cfg, j as nat),
                    hptypes@,
                    pptypes[j],
                    table[j],
                    *cfg,
                ),
        decreases pptypes.len() - idxp,
    {
        let ghost earlier = table;
        let (fit, drawn) = contact_at_random(&mut hfit, hptypes, pptypes[idxp], contacts, cfg);
        proof {
            table = earlier.push(drawn@);
            assert forall|n: nat| n <= idxp implies #[trigger] hosts_after(
                hptypes@,
                pptypes@,
                table,
                *cfg,
                n,
            ) == hosts_after(hptypes@, pptypes@, earlier, *cfg, n) by {
                lemma_hosts_after_depends_on_prefix(hptypes@, pptypes@, table, earlier, *cfg, n);
            }
            assert(table[idxp as int] == drawn@);
            assert(hosts_after(hptypes@, pptypes@, table, *cfg, idxp as nat) == hosts_after(
                hptypes@,
                pptypes@,
                earlier,
                *cfg,
                idxp as nat,
            ));
            assert(hfit@ == hosts_after(hptypes@, pptypes@, table, *cfg, (idxp + 1) as nat));
        }
        pfit.push(fit);
        idxp += 1;
    }
    proof {
        assert(pfit@ =~= sampled_para_fitness(hptypes@, pptypes@, table, *cfg));
        assert(hfit@ == sampled_host_fitness(hptypes@, pptypes@, table, *cfg));
    }
    (hfit, pfit)
}

/// Under sampled contact no host is penalised twice: whatever is drawn, and
/// however many parasites share its phenotype, at every stage of a
/// generation a host's fitness is either `UNIT` or `1 - para_effect`.
pub proof fn lemma_sampled_contact_penalises_once(
    hptypes: Seq<u64>,
    pptypes: Seq<u64>,
    draws: Seq<Seq<usize>>,
    cfg: Config,
    n: nat,
)
    ensures
        hosts_after(hptypes, pptypes, draws, cfg, n).len() == hptypes.len(),
        forall|i: int|
            0 <= i < hptypes.len() ==> {
                let fit = #[trigger] hosts_after(hptypes, pptypes, draws, cfg, n)[i];
                fit == UNIT || fit == penalised_host_fitness(cfg)
            },
    decreases n,
{
    if n > 0 {
        lemma_sampled_contact_penalises_once(hptypes, pptypes, draws, cfg, (n - 1) as nat);
        let before = hosts_after(hptypes, pptypes, draws, cfg, (n - 1) as nat);
        lemma_attached_host_is_drawn(before, hptypes, pptypes[n - 1], draws[n - 1]);
    }
}

/// A parasite attaches only to a host that it has drawn and can attach to.
pub proof fn lemma_attached_host_is_drawn(
    hfit: Seq<u64>,
    hptypes: Seq<u64>,
    ptype: u64,
    draws: Seq<usize>,
)
    ensures
        attached_host(hfit, hptypes, ptype, draws) matches Some(i) ==> attaches(
            hfit,
            hptypes,
            ptype,
            i,
        ) && exists|m: int| 0 <= m < draws.len() && draws[m] == i,
    decreases draws.len(),
{
    if draws.len() > 0 {
        lemma_attached_host_is_drawn(hfit, hptypes, ptype, draws.drop_last());
        match attached_host(hfit, hptypes, ptype, draws.drop_last()) {
            Some(i) => {
                let m = choose|m: int| 0 <= m < draws.drop_last().len() && draws.drop_last()[m] == i;
                assert(draws[m] == i);
            },
            None => {
                if attaches(hfit, hptypes, ptype, draws.last() as int) {
                    assert(draws[draws.len() - 1] == draws.last());
                }
            },
        }
    }
}

/// The number of the first `n` parasites that attach to the host at `i`.
pub open spec fn attachments_to(
    hptypes: Seq<u64>,
    pptypes: Seq<u64>,
    draws: Seq<Seq<usize>>,
    cfg: Config,
    n: nat,
    i: int,
) -> nat
    decreases n,
{
    if n == 0 {
        0
    } else {
        attachments_to(hptypes, pptypes, draws, cfg, (n - 1) as nat, i) + if attached_host(
            hosts_after(hptypes, pptypes, draws, cfg, (n - 1) as nat),
            hptypes,
            pptypes[n - 1],
            draws[n - 1],
        ) == Some(i) {
            1nat
        } else {
            0nat
        }
    }
}

/// Where the parasite effect is not zero, at most one parasite of a
/// generation attaches to a host, however many share its phenotype and
/// whatever is drawn; and the hosts below fitness `UNIT` are exactly those
/// that one parasite has attached to.
pub proof fn lemma_host_is_attached_at_most_once(
    hptypes: Seq<u64>,
    pptypes: Seq<u64>,
    draws: Seq<Seq<usize>>,
    cfg: Config,
    n: nat,
    i: int,
)
    requires
        0 < cfg.para_effect <= UNIT,
        0 <= i < hptypes.len(),
    ensures
        attachments_to(hptypes, pptypes, draws, cfg, n, i) <= 1,
        attachments_to(hptypes, pptypes, draws, cfg, n, i) == 1 <==> hosts_after(
            hptypes,
            pptypes,
            draws,
            cfg,
            n,
        )[i] != UNIT,
    decreases n,
{
    if n > 0 {
        let before = hosts_after(hptypes, pptypes, draws, cfg, (n - 1) as nat);
        lemma_host_is_attached_at_most_once(hptypes, pptypes, draws, cfg, (n - 1) as nat, i);
        lemma_sampled_contact_penalises_once(hptypes, pptypes, draws, cfg, (n - 1) as nat);
        lemma_attached_host_is_drawn(before, hptypes, pptypes[n - 1], draws[n - 1]);
    }
}

/// Under sampled contact, populations that share no phenotype leave every
/// host at fitness `UNIT` and every parasite at `para_self_fit`, whatever is
/// drawn.
pub proof fn lemma_sampled_contact_without_shared_phenotype(
    hptypes: Seq<u64>,
    pptypes: Seq<u64>,
    draws: Seq<Seq<usize>>,
    cfg: Config,
)
    requires
        no_shared_phenotype(hptypes, pptypes),
    ensures
        sampled_host_fitness(hptypes, pptypes, draws, cfg) == Seq::new(
            hptypes.len(),
            |i: int| UNIT,
        ),
        sampled_para_fitness(hptypes, pptypes, draws, cfg) == Seq::new(
            pptypes.len(),
            |j: int| cfg.para_self_fit,
        ),
{
    assert forall|n: nat| n <= pptypes.len() implies #[trigger] hosts_after(
        hptypes,
        pptypes,
        draws,
        cfg,
        n,
    ) == Seq::new(hptypes.len(), |i: int| UNIT) by {
        lemma_hosts_untouched_without_shared_phenotype(hptypes, pptypes, draws, cfg, n);
    }
    assert forall|j: int| 0 <= j < pptypes.len() implies sampled_para_fitness(
        hptypes,
        pptypes,
        draws,
        cfg,
    )[j] == cfg.para_self_fit by {
        let before = hosts_after(hptypes, pptypes, draws, cfg, j as nat);
        lemma_attached_host_is_drawn(before, hptypes, pptypes[j], draws[j]);
    }
    assert(sampled_para_fitness(hptypes, pptypes, draws, cfg) =~= Seq::new(
        pptypes.len(),
        |j: int| cfg.para_self_fit,
    ));
}

proof fn lemma_hosts_untouched_without_shared_phenotype(
    hptypes: Seq<u64>,
    pptypes: Seq<u64>,
    draws: Seq<Seq<usize>>,
    cfg: Config,
    n: nat,
)
    requires
        no_shared_phenotype(hptypes, pptypes),
        n <= pptypes.len(),
    ensures
        hosts_after(hptypes, pptypes, draws, cfg, n) == Seq::new(hptypes.len(), |i: int| UNIT),
    decreases n,
{
    if n > 0 {
        lemma_hosts_untouched_without_shared_phenotype(hptypes, pptypes, draws, cfg, (n - 1) as nat);
        let before = hosts_after(hptypes, pptypes, draws, cfg, (n - 1) as nat);
        lemma_attached_host_is_drawn(before, hptypes, pptypes[n - 1], draws[n - 1]);
    }
}

} // verus!
