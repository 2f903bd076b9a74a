use hpcomplexity::config::Config;
use hpcomplexity::environment::{
    parse_row, Environment, PhenotypeCount, PhenotypeMap, PhenotypeTableError, Row,
};
use hpcomplexity::genotype::Genotype;

fn config_with_length(gen_len_max: u32) -> Config {
    let mut cfg = Config::init();
    cfg.gen_len_max = gen_len_max;
    cfg.init_len = 0;
    cfg
}

fn error_of(cfg: &Config, text: &str) -> PhenotypeTableError {
    match Environment::init(cfg, text.as_bytes()) {
        Ok(_) => panic!("the table was accepted"),
        Err(e) => e,
    }
}

const FULL_TABLE: &str = "genotype,ptype_id\n00,0\n01,0\n10,1\n11,2\n";

#[test]
fn table_rows_are_read_as_binary_genotype_and_decimal_phenotype() {
    assert!(matches!(parse_row(b"101,17", 8), Row::Entry { genotype: 5, ptype: 17 }));
    assert!(matches!(parse_row(b"0,0", 1), Row::Entry { genotype: 0, ptype: 0 }));
    assert!(matches!(parse_row(b"11,2,rest", 4), Row::Entry { genotype: 3, ptype: 2 }));
    assert!(matches!(parse_row(b"+101,+17", 8), Row::Entry { genotype: 5, ptype: 17 }));
}

#[test]
fn table_rows_with_fewer_than_two_fields_are_blank() {
    assert!(matches!(parse_row(b"", 8), Row::Blank));
    assert!(matches!(parse_row(b"101", 8), Row::Blank));
    assert!(matches!(parse_row(b"not a row", 8), Row::Blank));
}

#[test]
fn table_rows_beyond_the_genotype_space_are_over_limit() {
    assert!(matches!(parse_row(b"1000,1", 8), Row::OverLimit));
    assert!(matches!(parse_row(b"1000,oops", 8), Row::OverLimit));
    assert!(matches!(parse_row(b"111,1", 8), Row::Entry { genotype: 7, ptype: 1 }));
}

#[test]
fn table_rows_with_bad_numerals_are_malformed() {
    assert!(matches!(parse_row(b"12,1", 8), Row::Malformed));
    assert!(matches!(parse_row(b",1", 8), Row::Malformed));
    assert!(matches!(parse_row(b"01,", 8), Row::Malformed));
    assert!(matches!(parse_row(b"01,x1", 8), Row::Malformed));
    assert!(matches!(parse_row(b"01, 1", 8), Row::Malformed));
    assert!(matches!(parse_row(b"-01,1", 8), Row::Malformed));
    assert!(matches!(parse_row(b"+,1", 8), Row::Malformed));
}

#[test]
fn table_backed_environment_resolves_every_genotype() {
    let cfg = config_with_length(2);
    let env = Environment::init(&cfg, FULL_TABLE.as_bytes()).unwrap();
    assert!(env.complexity_table.is_empty());
    assert_eq!(env.gp_map.lookup(0), Some(0));
    assert_eq!(env.gp_map.lookup(1), Some(0));
    assert_eq!(env.gp_map.lookup(2), Some(1));
    assert_eq!(env.gp_map.lookup(3), Some(2));
    assert_eq!(env.gp_map.lookup(4), None);
    assert_eq!(env.g_to_ptype_id(&Genotype { sequence: vec![0, 1] }), 1);
    assert_eq!(env.g_to_ptype_id(&Genotype { sequence: vec![1, 1] }), 2);
    assert_eq!(env.g_to_ptype_id(&Genotype { sequence: vec![0, 0] }), 0);
}

#[test]
fn table_header_and_blank_lines_are_passed_over() {
    let cfg = config_with_length(1);
    let env = Environment::init(&cfg, b"1,9\n\n0,4\r\n\r\nnote\n1,5").unwrap();
    assert_eq!(env.gp_map.lookup(0), Some(4));
    assert_eq!(env.gp_map.lookup(1), Some(5));
}

#[test]
fn table_later_row_for_a_genotype_counts() {
    let cfg = config_with_length(1);
    let env = Environment::init(&cfg, b"h\n0,1\n1,2\n0,3\n").unwrap();
    assert_eq!(env.gp_map.lookup(0), Some(3));
    assert_eq!(env.gp_map.lookup(1), Some(2));
}

#[test]
fn table_with_genotype_over_limit_is_refused() {
    let cfg = config_with_length(2);
    assert_eq!(
        error_of(&cfg, "genotype,ptype_id\n00,0\n01,0\n10,1\n11,2\n100,3\n"),
        PhenotypeTableError::GenotypeOverLimit
    );
    assert_eq!(error_of(&cfg, "h\n11111,0\n"), PhenotypeTableError::GenotypeOverLimit);
}

#[test]
fn table_with_genotype_at_the_limit_minus_one_is_accepted() {
    let cfg = config_with_length(2);
    assert!(Environment::init(&cfg, b"h\n11,0\n10,0\n01,0\n00,0").is_ok());
}

#[test]
fn malformed_table_is_refused() {
    let cfg = config_with_length(2);
    assert_eq!(error_of(&cfg, "h\n00,0\n0a,1\n"), PhenotypeTableError::Malformed);
    assert_eq!(error_of(&cfg, "h\n00,zero\n"), PhenotypeTableError::Malformed);
    assert_eq!(error_of(&cfg, "h\n00,-1\n"), PhenotypeTableError::Malformed);
}

#[test]
fn first_bad_row_of_a_table_decides_the_error() {
    let cfg = config_with_length(2);
    assert_eq!(error_of(&cfg, "h\n100,0\n0a,1\n"), PhenotypeTableError::GenotypeOverLimit);
    assert_eq!(error_of(&cfg, "h\n0a,1\n100,0\n"), PhenotypeTableError::Malformed);
}

#[test]
fn table_that_leaves_a_genotype_out_is_loaded() {
    let cfg = config_with_length(2);
    let env = Environment::init(&cfg, b"h\n00,0\n01,0\n11,2\n").unwrap();
    assert_eq!(env.gp_map.lookup(0), Some(0));
    assert_eq!(env.gp_map.lookup(1), Some(0));
    assert_eq!(env.gp_map.lookup(2), None);
    assert_eq!(env.gp_map.lookup(3), Some(2));
    assert!(env.complexity_table.is_empty());
    assert!(!env.covers_space(&cfg));
    assert_eq!(env.first_missing(&cfg), Some(2));
}

#[test]
fn empty_table_is_loaded_and_lists_nothing() {
    let cfg = config_with_length(2);
    let env = Environment::init(&cfg, b"").unwrap();
    assert_eq!(env.gp_map.lookup(0), None);
    assert!(!env.covers_space(&cfg));
    assert_eq!(env.first_missing(&cfg), Some(0));
}

#[test]
fn table_without_a_header_loses_its_first_row() {
    let cfg = config_with_length(2);
    let env = Environment::init(&cfg, b"00,0\n01,0\n10,1\n11,2\n").unwrap();
    assert_eq!(env.gp_map.lookup(0), None);
    assert_eq!(env.gp_map.lookup(1), Some(0));
    assert_eq!(env.gp_map.lookup(2), Some(1));
    assert_eq!(env.gp_map.lookup(3), Some(2));
    assert_eq!(env.first_missing(&cfg), Some(0));
}

#[test]
fn loading_fails_exactly_on_a_bad_row() {
    let cfg = config_with_length(2);
    assert!(Environment::init(&cfg, b"h\n11,7\n").is_ok());
    assert!(Environment::init(&cfg, b"h\n+11,+7\n").is_ok());
    assert!(Environment::init(&cfg, b"h\n\nnote\n").is_ok());
    assert_eq!(error_of(&cfg, "h\n100,7\n"), PhenotypeTableError::GenotypeOverLimit);
    assert_eq!(error_of(&cfg, "h\n1x,7\n"), PhenotypeTableError::Malformed);
}

#[test]
fn complete_table_covers_the_genotype_space() {
    let cfg = config_with_length(2);
    let env = Environment::init(&cfg, FULL_TABLE.as_bytes()).unwrap();
    assert!(env.covers_space(&cfg));
    assert_eq!(env.first_missing(&cfg), None);
    let wider = config_with_length(3);
    assert!(!env.covers_space(&wider));
    assert_eq!(env.first_missing(&wider), Some(4));
}

#[test]
fn procedural_environment_covers_every_genotype_space() {
    let env = Environment::procedural(vec![16, 24, 30]);
    assert!(env.covers_space(&config_with_length(0)));
    assert!(env.covers_space(&config_with_length(5)));
    assert!(env.covers_space(&config_with_length(10)));
}

#[test]
fn procedural_environment_maps_by_thresholds() {
    let env = Environment::procedural(vec![16, 24, 30]);
    assert_eq!(env.gp_map.lookup(0), Some(0));
    assert_eq!(env.gp_map.lookup(15), Some(0));
    assert_eq!(env.gp_map.lookup(16), Some(1));
    assert_eq!(env.gp_map.lookup(23), Some(1));
    assert_eq!(env.gp_map.lookup(24), Some(2));
    assert_eq!(env.gp_map.lookup(29), Some(2));
    assert_eq!(env.gp_map.lookup(30), Some(3));
    assert_eq!(env.gp_map.lookup(31), Some(3));
    assert_eq!(env.gp_map.lookup(u64::MAX), Some(3));
    assert!(matches!(env.gp_map, PhenotypeMap::Procedural { .. }));
}

#[test]
fn procedural_environment_without_thresholds_has_one_phenotype() {
    let env = Environment::procedural(vec![]);
    assert_eq!(env.gp_map.lookup(0), Some(0));
    assert_eq!(env.gp_map.lookup(77), Some(0));
}

#[test]
fn population_phenotypes_keep_population_order() {
    let cfg = config_with_length(5);
    let env = Environment::procedural(vec![16, 24, 30]);
    let pop: Vec<Genotype> =
        [31u64, 0, 24, 16, 15, 30].iter().map(|n| Genotype::from_integer(*n, &cfg)).collect();
    assert_eq!(env.get_pop_ptypes(&pop), vec![3, 0, 2, 1, 0, 3]);
    assert_eq!(env.get_pop_ptypes(&Vec::new()), Vec::<u64>::new());
}

#[test]
fn frequency_table_of_procedural_map() {
    let cfg = config_with_length(5);
    let mut env = Environment::procedural(vec![16, 24, 30]);
    env.gen_complexity_table(&cfg);
    assert_eq!(
        env.complexity_table,
        vec![
            PhenotypeCount { ptype_id: 0, frequency: 16 },
            PhenotypeCount { ptype_id: 1, frequency: 8 },
            PhenotypeCount { ptype_id: 2, frequency: 6 },
            PhenotypeCount { ptype_id: 3, frequency: 2 },
        ]
    );
}

#[test]
fn frequency_table_is_sorted_by_phenotype() {
    let cfg = config_with_length(2);
    let mut env = Environment::init(&cfg, b"h\n00,9\n01,2\n10,9\n11,5\n").unwrap();
    env.gen_complexity_table(&cfg);
    assert_eq!(
        env.complexity_table,
        vec![
            PhenotypeCount { ptype_id: 2, frequency: 1 },
            PhenotypeCount { ptype_id: 5, frequency: 1 },
            PhenotypeCount { ptype_id: 9, frequency: 2 },
        ]
    );
}

#[test]
fn frequencies_add_up_to_the_genotype_space() {
    for len in 0..11u32 {
        let cfg = config_with_length(len);
        let mut env = Environment::procedural(vec![3, 5, 100, 101, 700]);
        env.gen_complexity_table(&cfg);
        let sum: u64 = env.complexity_table.iter().map(|r| r.frequency).sum();
        assert_eq!(sum, 1u64 << len);
        for record in &env.complexity_table {
            assert!(record.frequency >= 1 && record.frequency <= 1u64 << len);
        }
    }
}

#[test]
fn complexity_is_never_negative() {
    let cfg = config_with_length(5);
    let mut env = Environment::procedural(vec![16, 24, 30]);
    env.gen_complexity_table(&cfg);
    let space = cfg.genotype_space() as f64;
    let complexity: Vec<f64> =
        env.complexity_table.iter().map(|r| space.ln() - (r.frequency as f64).ln()).collect();
    assert!((complexity[0] - 2f64.ln()).abs() < 1e-12);
    assert!((complexity[3] - 16f64.ln()).abs() < 1e-12);
    for c in complexity {
        assert!(c >= 0.0);
    }
}

#[test]
fn frequency_table_can_be_generated_again() {
    let cfg = config_with_length(3);
    let mut env = Environment::procedural(vec![4]);
    env.gen_complexity_table(&cfg);
    env.gen_complexity_table(&cfg);
    assert_eq!(
        env.complexity_table,
        vec![
            PhenotypeCount { ptype_id: 0, frequency: 4 },
            PhenotypeCount { ptype_id: 1, frequency: 4 },
        ]
    );
}
