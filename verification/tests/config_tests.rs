use hpcomplexity::config::{Config, MAX_GEN_LEN, UNIT};

#[test]
fn reference_parameters() {
    let cfg = Config::init();
    assert_eq!(cfg.popsize_host, 100);
    assert_eq!(cfg.popsize_para, 100);
    assert_eq!(cfg.gen_len_max, 5);
    assert_eq!(cfg.init_len, 1);
    assert_eq!(cfg.srca_host, 0);
    assert_eq!(cfg.srcb_host, UNIT);
    assert_eq!(cfg.srca_para, 0);
    assert_eq!(cfg.srcb_para, UNIT);
    assert_eq!(cfg.para_effect, 800_000);
    assert_eq!(cfg.para_self_fit, 100_000);
    assert_eq!(cfg.para_perm_fit, 500_000);
    assert_eq!(cfg.mut_host, 2_000);
    assert_eq!(cfg.mut_para, 2_000);
    assert_eq!(cfg.max_steps, 1000);
    assert_eq!(cfg.save_every, 1);
    assert!(cfg.is_valid());
}

#[test]
fn blank_parameters() {
    let cfg = Config::default();
    assert_eq!(cfg.popsize_host, 0);
    assert_eq!(cfg.popsize_para, 0);
    assert_eq!(cfg.gen_len_max, 0);
    assert_eq!(cfg.srcb_host, UNIT);
    assert_eq!(cfg.srcb_para, UNIT);
    assert_eq!(cfg.para_effect, 0);
    assert_eq!(cfg.max_steps, 0);
    assert_eq!(cfg.save_every, 0);
    assert!(!cfg.is_valid());
}

#[test]
fn validity_rejects_each_broken_parameter() {
    let good = Config::init();
    let mut c = good;
    c.popsize_host = 0;
    assert!(!c.is_valid());
    let mut c = good;
    c.popsize_para = 0;
    assert!(!c.is_valid());
    let mut c = good;
    c.init_len = 6;
    assert!(!c.is_valid());
    let mut c = good;
    c.gen_len_max = MAX_GEN_LEN + 1;
    assert!(!c.is_valid());
    let mut c = good;
    c.para_effect = UNIT + 1;
    assert!(!c.is_valid());
    let mut c = good;
    c.para_self_fit = u64::MAX;
    c.para_perm_fit = 1;
    assert!(!c.is_valid());
    let mut c = good;
    c.mut_host = UNIT + 1;
    assert!(!c.is_valid());
    let mut c = good;
    c.mut_para = UNIT + 1;
    assert!(!c.is_valid());
    let mut c = good;
    c.contact_mode = 2;
    assert!(!c.is_valid());
    let mut c = good;
    c.contact_frac = UNIT + 1;
    assert!(!c.is_valid());
    let mut c = good;
    c.save_every = 0;
    assert!(!c.is_valid());
}

#[test]
fn validity_accepts_the_limits() {
    let mut c = Config::init();
    c.gen_len_max = MAX_GEN_LEN;
    c.init_len = MAX_GEN_LEN;
    c.para_effect = UNIT;
    c.mut_host = UNIT;
    c.mut_para = 0;
    c.contact_mode = 1;
    c.contact_frac = UNIT;
    c.max_steps = 0;
    c.para_self_fit = u64::MAX - 1;
    c.para_perm_fit = 1;
    assert!(c.is_valid());
}

#[test]
fn genotype_space_is_two_to_the_length() {
    let mut c = Config::init();
    assert_eq!(c.genotype_space(), 32);
    c.gen_len_max = 0;
    assert_eq!(c.genotype_space(), 1);
    c.gen_len_max = 25;
    assert_eq!(c.genotype_space(), 33_554_432);
    c.gen_len_max = 63;
    assert_eq!(c.genotype_space(), 1u64 << 63);
}

#[test]
fn contacts_per_parasite_is_the_floor_of_the_fraction_of_hosts() {
    let mut c = Config::init();
    c.popsize_host = 10;
    c.contact_frac = 350_000;
    assert_eq!(c.contacts_per_parasite(), 3);
    c.contact_frac = UNIT;
    assert_eq!(c.contacts_per_parasite(), 10);
    c.contact_frac = 0;
    assert_eq!(c.contacts_per_parasite(), 0);
    c.contact_frac = 99_999;
    assert_eq!(c.contacts_per_parasite(), 0);
    c.contact_frac = 100_000;
    assert_eq!(c.contacts_per_parasite(), 1);
    c.popsize_host = u32::MAX;
    c.contact_frac = UNIT;
    assert_eq!(c.contacts_per_parasite(), u32::MAX);
}
