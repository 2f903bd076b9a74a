use hpcomplexity::config::{Config, UNIT};
use hpcomplexity::environment::{
    parse_row, Environment, LookupMiss, PhenotypeCount, PhenotypeTableError, Row,
};
use hpcomplexity::ga::DegenerateWeights;
use hpcomplexity::genotype::Genotype;
use hpcomplexity::world::{Phase, World};

const TABLE: &str = "genotype,ptype_id\n000,0\n001,0\n010,1\n011,1\n100,2\n101,2\n110,3\n111,3\n";

fn small_config() -> Config {
    let mut cfg = Config::init();
    cfg.gen_len_max = 3;
    cfg.init_len = 2;
    cfg.popsize_host = 6;
    cfg.popsize_para = 4;
    cfg.max_steps = 7;
    cfg.save_every = 3;
    cfg
}

fn check_populations(world: &World, cfg: &Config) {
    assert_eq!(world.pop_host.len(), cfg.popsize_host as usize);
    assert_eq!(world.pop_para.len(), cfg.popsize_para as usize);
    for g in world.pop_host.iter().chain(world.pop_para.iter()) {
        assert_eq!(g.sequence.len(), cfg.gen_len_max as usize);
        assert!(g.is_wf());
    }
}

#[test]
fn world_starts_in_the_initializing_phase() {
    let cfg = small_config();
    let world = World::init(&cfg, TABLE.as_bytes()).unwrap();
    assert_eq!(world.phase, Phase::Initializing);
    assert_eq!(world.step, 0);
    assert!(world.env.complexity_table.is_empty());
    check_populations(&world, &cfg);
    for g in world.pop_host.iter().chain(world.pop_para.iter()) {
        assert_eq!(g.sequence[2], 0);
    }
}

#[test]
fn world_is_not_built_on_a_bad_table() {
    let cfg = small_config();
    assert!(matches!(
        World::init(&cfg, b"genotype,ptype_id\n1000,0\n"),
        Err(PhenotypeTableError::GenotypeOverLimit)
    ));
    assert!(matches!(
        World::init(&cfg, b"genotype,ptype_id\n2,0\n"),
        Err(PhenotypeTableError::Malformed)
    ));
}

#[test]
fn world_is_built_on_a_table_that_leaves_a_genotype_out() {
    let cfg = small_config();
    let world = World::init(&cfg, b"genotype,ptype_id\n000,0\n").unwrap();
    assert_eq!(world.phase, Phase::Initializing);
    check_populations(&world, &cfg);
    assert_eq!(world.env.gp_map.lookup(0), Some(0));
    assert_eq!(world.env.gp_map.lookup(1), None);
}

#[test]
fn run_does_not_begin_where_a_genotype_has_no_phenotype() {
    let cfg = small_config();
    let mut world =
        World::init(&cfg, b"genotype,ptype_id\n000,0\n001,0\n010,1\n100,2\n").unwrap();
    assert_eq!(world.begin_run(&cfg), Err(LookupMiss { genotype: 3 }));
    assert_eq!(world.phase, Phase::Initializing);
    assert_eq!(world.step, 0);
    assert!(world.env.complexity_table.is_empty());
    check_populations(&world, &cfg);
    let mut empty = World::init(&cfg, b"").unwrap();
    assert_eq!(empty.begin_run(&cfg), Err(LookupMiss { genotype: 0 }));
}

#[test]
fn begin_run_generates_the_frequency_table() {
    let cfg = small_config();
    let mut world = World::init(&cfg, TABLE.as_bytes()).unwrap();
    assert_eq!(world.begin_run(&cfg), Ok(()));
    assert_eq!(world.phase, Phase::Running);
    assert_eq!(world.step, 0);
    assert_eq!(
        world.env.complexity_table,
        vec![
            PhenotypeCount { ptype_id: 0, frequency: 2 },
            PhenotypeCount { ptype_id: 1, frequency: 2 },
            PhenotypeCount { ptype_id: 2, frequency: 2 },
            PhenotypeCount { ptype_id: 3, frequency: 2 },
        ]
    );
    check_populations(&world, &cfg);
}

#[test]
fn run_takes_max_steps_plus_one_steps() {
    let cfg = small_config();
    let mut world = World::init(&cfg, TABLE.as_bytes()).unwrap();
    assert_eq!(world.begin_run(&cfg), Ok(()));
    let mut steps = 0;
    let mut due = Vec::new();
    while world.phase == Phase::Running {
        let index = world.step;
        assert_eq!(index, steps);
        if world.run_step(&cfg).unwrap() {
            due.push(index);
        }
        check_populations(&world, &cfg);
        steps += 1;
    }
    assert_eq!(steps, 8);
    assert_eq!(world.phase, Phase::Completed);
    assert_eq!(world.step, 7);
    assert_eq!(due, vec![0, 3, 6]);
}

#[test]
fn run_with_max_steps_zero_takes_one_step() {
    let mut cfg = small_config();
    cfg.max_steps = 0;
    cfg.save_every = 5;
    let mut world = World::init(&cfg, TABLE.as_bytes()).unwrap();
    assert_eq!(world.begin_run(&cfg), Ok(()));
    assert_eq!(world.run_step(&cfg), Ok(true));
    assert_eq!(world.phase, Phase::Completed);
    assert_eq!(world.step, 0);
}

#[test]
fn run_under_sampled_contact() {
    let mut cfg = small_config();
    cfg.contact_mode = 1;
    cfg.contact_frac = 500_000;
    let mut world = World::init(&cfg, TABLE.as_bytes()).unwrap();
    assert_eq!(world.begin_run(&cfg), Ok(()));
    while world.phase == Phase::Running {
        let (hfit, pfit) = world.get_hp_fitness(&cfg);
        assert_eq!(hfit.len(), 6);
        assert_eq!(pfit.len(), 4);
        for f in hfit {
            assert!(f == UNIT || f == 200_000);
        }
        for f in pfit {
            assert!(f == 100_000 || f == 600_000);
        }
        assert!(world.run_step(&cfg).is_ok());
        check_populations(&world, &cfg);
    }
    assert_eq!(world.phase, Phase::Completed);
}

#[test]
fn run_without_mutation_and_variation_keeps_the_zero_genotype() {
    let mut cfg = small_config();
    cfg.init_len = 0;
    cfg.mut_host = 0;
    cfg.mut_para = 0;
    let mut world = World::init(&cfg, TABLE.as_bytes()).unwrap();
    assert_eq!(world.begin_run(&cfg), Ok(()));
    while world.phase == Phase::Running {
        let (hfit, pfit) = world.get_hp_fitness(&cfg);
        assert_eq!(hfit, vec![200_000; 6]);
        assert_eq!(pfit, vec![600_000; 4]);
        world.run_step(&cfg).unwrap();
        for g in world.pop_host.iter().chain(world.pop_para.iter()) {
            assert_eq!(g.sequence, vec![0, 0, 0]);
        }
    }
}

#[test]
fn run_at_full_mutation_rate_flips_the_population_each_step() {
    let mut cfg = small_config();
    cfg.init_len = 0;
    cfg.mut_host = UNIT;
    cfg.mut_para = UNIT;
    let mut world = World::init(&cfg, TABLE.as_bytes()).unwrap();
    assert_eq!(world.begin_run(&cfg), Ok(()));
    world.run_step(&cfg).unwrap();
    for g in world.pop_host.iter().chain(world.pop_para.iter()) {
        assert_eq!(g.sequence, vec![1, 1, 1]);
    }
    world.run_step(&cfg).unwrap();
    for g in world.pop_host.iter().chain(world.pop_para.iter()) {
        assert_eq!(g.sequence, vec![0, 0, 0]);
    }
}

#[test]
fn step_fails_on_degenerate_fitness_and_leaves_the_world() {
    let mut cfg = small_config();
    cfg.para_self_fit = 0;
    let env = Environment::procedural(vec![4]);
    let mut world = World::with_environment(&cfg, env);
    world.pop_host = vec![Genotype { sequence: vec![1, 0, 0] }; 6];
    world.pop_para = vec![Genotype { sequence: vec![0, 0, 1] }; 4];
    assert_eq!(world.begin_run(&cfg), Ok(()));
    assert_eq!(world.get_hp_fitness(&cfg), (vec![UNIT; 6], vec![0; 4]));
    assert_eq!(world.run_step(&cfg), Err(DegenerateWeights));
    assert_eq!(world.phase, Phase::Running);
    assert_eq!(world.step, 0);
    assert_eq!(world.pop_host, vec![Genotype { sequence: vec![1, 0, 0] }; 6]);
    assert_eq!(world.pop_para, vec![Genotype { sequence: vec![0, 0, 1] }; 4]);
}

#[test]
fn step_fails_when_every_host_loses_all_fitness() {
    let mut cfg = small_config();
    cfg.para_effect = UNIT;
    cfg.init_len = 0;
    let mut world = World::with_environment(&cfg, Environment::procedural(vec![4]));
    assert_eq!(world.begin_run(&cfg), Ok(()));
    assert_eq!(world.run_step(&cfg), Err(DegenerateWeights));
}

#[test]
fn world_fitness_under_global_contact_follows_the_phenotypes() {
    let cfg = small_config();
    let mut world = World::init(&cfg, TABLE.as_bytes()).unwrap();
    world.pop_host = [0u64, 2, 1, 4, 7, 6].iter().map(|n| Genotype::from_integer(*n, &cfg)).collect();
    world.pop_para = [3u64, 6, 6, 1].iter().map(|n| Genotype::from_integer(*n, &cfg)).collect();
    let (hfit, pfit) = world.get_hp_fitness(&cfg);
    assert_eq!(hfit, vec![200_000, 200_000, 200_000, UNIT, 200_000, 200_000]);
    assert_eq!(pfit, vec![600_000, 600_000, 600_000, 600_000]);
}

#[test]
fn saved_state_renders_every_individual() {
    let cfg = small_config();
    let mut world = World::init(&cfg, TABLE.as_bytes()).unwrap();
    world.pop_host = [0u64, 2, 1, 4, 7, 6].iter().map(|n| Genotype::from_integer(*n, &cfg)).collect();
    world.pop_para = [3u64, 6, 6, 1].iter().map(|n| Genotype::from_integer(*n, &cfg)).collect();
    let shot = world.save_state(&cfg);
    assert_eq!(
        String::from_utf8(shot.hosts).unwrap(),
        "genotype,ptype_id\n000,0\n010,1\n001,0\n100,2\n111,3\n110,3\n"
    );
    assert_eq!(
        String::from_utf8(shot.parasites).unwrap(),
        "genotype,ptype_id\n011,1\n110,3\n110,3\n001,0\n"
    );
}

#[test]
fn saved_state_renders_large_phenotypes_in_decimal() {
    let mut cfg = small_config();
    cfg.gen_len_max = 1;
    cfg.init_len = 0;
    cfg.popsize_host = 1;
    cfg.popsize_para = 1;
    let mut world =
        World::init(&cfg, b"genotype,ptype_id\n0,18446744073709551615\n1,1234567890\n").unwrap();
    world.pop_para = vec![Genotype { sequence: vec![1] }];
    let shot = world.save_state(&cfg);
    assert_eq!(String::from_utf8(shot.hosts).unwrap(), "genotype,ptype_id\n0,18446744073709551615\n");
    assert_eq!(String::from_utf8(shot.parasites).unwrap(), "genotype,ptype_id\n1,1234567890\n");
}

#[test]
fn saved_state_of_a_population_is_a_table_of_that_population() {
    let cfg = small_config();
    let world = World::init(&cfg, TABLE.as_bytes()).unwrap();
    let shot = world.save_state(&cfg);
    let text = String::from_utf8(shot.hosts).unwrap();
    let rows: Vec<&str> = text.lines().collect();
    assert_eq!(rows.len(), 7);
    assert_eq!(rows[0], "genotype,ptype_id");
    for (row, geno) in rows[1..].iter().zip(world.pop_host.iter()) {
        let expected = format!("{},{}", geno.get_as_string(), world.env.g_to_ptype_id(geno));
        assert_eq!(*row, expected);
    }
}

#[test]
fn saved_state_reads_back_as_rows_of_a_phenotype_table() {
    let cfg = small_config();
    let world = World::init(&cfg, TABLE.as_bytes()).unwrap();
    let shot = world.save_state(&cfg);
    let text = String::from_utf8(shot.parasites).unwrap();
    let rows: Vec<&str> = text.lines().skip(1).collect();
    assert_eq!(rows.len(), world.pop_para.len());
    for (row, geno) in rows.iter().zip(world.pop_para.iter()) {
        let expected = Row::Entry {
            genotype: geno.get_as_integer(),
            ptype: world.env.g_to_ptype_id(geno),
        };
        assert_eq!(parse_row(row.as_bytes(), 8), expected);
    }
}

#[test]
fn saved_state_of_the_whole_genotype_space_loads_as_a_phenotype_table() {
    let mut cfg = small_config();
    cfg.popsize_host = 8;
    let mut world = World::with_environment(&cfg, Environment::procedural(vec![3, 5]));
    world.pop_host = (0..8u64).rev().map(|n| Genotype::from_integer(n, &cfg)).collect();
    let shot = world.save_state(&cfg);
    let loaded = Environment::init(&cfg, &shot.hosts).unwrap();
    for id in 0..8u64 {
        assert_eq!(loaded.gp_map.lookup(id), world.env.gp_map.lookup(id));
    }
}
