//! The genotype-to-phenotype map, and the table of phenotype frequencies
//! over the whole genotype space.

use crate::config::{Config, MAX_GEN_LEN};
use crate::genotype::{lemma_func_length_bounds, Genotype};
use crate::text::{lines, lines_of, numeral, parse_numeral, pieces, split, split_on, COMMA};
use std::collections::HashMap;
use vstd::arithmetic::power2::pow2;
use vstd::prelude::*;

verus! {

broadcast use vstd::std_specs::hash::group_hash_axioms;

/// Why a phenotype table could not be loaded.
#[derive(Clone, Copy, Debug, PartialEq, Eq)]
pub enum PhenotypeTableError {
    /// A row with two or more fields does not start with a binary numeral
    /// and a decimal numeral.
    Malformed,
    /// A row lists a genotype that lies outside the genotype space.
    GenotypeOverLimit,
}

/// A genotype of the genotype space has no phenotype: the map does not list
/// it. `genotype` is the integer encoding of the first such genotype.
#[derive(Clone, Copy, Debug, PartialEq, Eq)]
pub struct LookupMiss {
    pub genotype: u64,
}

/// What one line of a phenotype table says.
#[derive(Clone, Copy, Debug, PartialEq, Eq)]
pub enum Row {
    /// A line with fewer than two fields: it is passed over.
    Blank,
    /// A genotype, by its integer encoding, with its phenotype.
    Entry { genotype: u64, ptype: u64 },
    /// The genotype lies outside the genotype space.
    OverLimit,
    /// A field is not a numeral.
    Malformed,
}

/// One record of the frequency table: a phenotype and the number of
/// genotypes of the whole genotype space that map to it.
#[derive(Clone, Copy, Debug, PartialEq, Eq)]
pub struct PhenotypeCount {
    pub ptype_id: u64,
    pub frequency: u64,
}

/// The two ways of mapping a genotype's integer encoding to a phenotype.
#[derive(Debug)]
pub enum PhenotypeMap {
    /// By thresholds: the phenotype is the index of the first threshold
    /// above the encoding, and the number of thresholds if none is above.
    Procedural { thresholds: Vec<u64> },
    /// By an explicit table keyed by the encoding.
    TableBacked { table: HashMap<u64, u64> },
}

/// The genotype-to-phenotype map together with the frequency table derived
/// from it. The frequency table is empty until it is generated.
#[derive(Debug)]
pub struct Environment {
    pub complexity_table: Vec<PhenotypeCount>,
    pub gp_map: PhenotypeMap,
}

/// The index of the first threshold at or after `from` that lies above `id`;
/// the number of thresholds if there is none.
pub open spec fn first_above(thresholds: Seq<u64>, id: u64, from: nat) -> nat
    decreases thresholds.len() - from,
{
    if from >= thresholds.len() {
        thresholds.len()
    } else if id < thresholds[from as int] {
        from
    } else {
        first_above(thresholds, id, from + 1)
    }
}

/// What a line of a phenotype table says, for a genotype space of `limit`
/// genotypes. The first field is the genotype as a binary numeral, the
/// second the phenotype as a decimal numeral; further fields are ignored.
pub open spec fn read_row(line: Seq<u8>, limit: nat) -> Row {
    let fields = split_on(line, COMMA);
    if fields.len() < 2 {
        Row::Blank
    } else {
        match numeral(fields[0], 2) {
            None => Row::Malformed,
            Some(genotype) => if genotype >= limit {
                Row::OverLimit
            } else {
                match numeral(fields[1], 10) {
                    None => Row::Malformed,
                    Some(ptype) => Row::Entry { genotype, ptype },
                }
            },
        }
    }
}

/// The table read from the first `n` lines of a text. Line 0 is a header
/// and says nothing. The first row that cannot be accepted decides the
/// error; of two rows for one genotype the later one counts.
pub open spec fn table_after(lines: Seq<Seq<u8>>, limit: nat, n: nat) -> Result<
    Map<u64, u64>,
    PhenotypeTableError,
>
    decreases n,
{
    if n <= 1 {
        Ok(Map::empty())
    } else {
        match table_after(lines, limit, (n - 1) as nat) {
            Err(e) => Err(e),
            Ok(table) => match read_row(lines[n - 1], limit) {
                Row::Blank => Ok(table),
                Row::Entry { genotype, ptype } => Ok(table.insert(genotype, ptype)),
                Row::OverLimit => Err(PhenotypeTableError::GenotypeOverLimit),
                Row::Malformed => Err(PhenotypeTableError::Malformed),
            },
        }
    }
}

/// The table that a text holds for a genotype space of `limit` genotypes:
/// what its rows list, provided that every row can be accepted. A table need
/// not list every genotype.
pub open spec fn read_table(text: Seq<u8>, limit: nat) -> Result<
    Map<u64, u64>,
    PhenotypeTableError,
> {
    table_after(lines_of(text), limit, lines_of(text).len())
}

/// The number of encodings below `n` that `map` sends to `ptype`.
pub open spec fn count_of(map: PhenotypeMap, ptype: u64, n: nat) -> nat
    decreases n,
{
    if n == 0 {
        0
    } else {
        count_of(map, ptype, (n - 1) as nat) + if map.ptype_of((n - 1) as u64) == Some(ptype) {
            1nat
        } else {
            0nat
        }
    }
}

/// The sum of all frequencies of a table.
pub open spec fn frequency_sum(table: Seq<PhenotypeCount>) -> nat
    decreases table.len(),
{
    if table.len() == 0 {
        0
    } else {
        frequency_sum(table.drop_last()) + table.last().frequency as nat
    }
}

/// Some record of the table is for `ptype`.
pub open spec fn has_record(table: Seq<PhenotypeCount>, ptype: u64) -> bool {
    exists|i: int| 0 <= i < table.len() && (#[trigger] table[i]).ptype_id == ptype
}

/// `table` is the frequency table of `map` over the encodings below `n`:
/// one record for each phenotype that occurs, in ascending order of
/// phenotype, each with the number of encodings that map to it.
pub open spec fn is_frequency_table(table: Seq<PhenotypeCount>, map: PhenotypeMap, n: nat) -> bool {
    &&& forall|i: int, j: int|
        0 <= i < j < table.len() ==> (#[trigger] table[i]).ptype_id < (#[trigger] table[j]).ptype_id
    &&& forall|i: int|
        0 <= i < table.len() ==> 0 < (#[trigger] table[i]).frequency == count_of(
            map,
            table[i].ptype_id,
            n,
        )
    &&& forall|id: u64|
        id < n ==> (#[trigger] map.ptype_of(id)) is Some && has_record(
            table,
            map.ptype_of(id).unwrap(),
        )
}

/// A phenotype that no encoding below `n` maps to has count 0.
pub proof fn lemma_count_of_absent(map: PhenotypeMap, ptype: u64, n: nat)
    requires
        n <= u64::MAX,
        forall|id: u64| id < n ==> #[trigger] map.ptype_of(id) != Some(ptype),
    ensures
        count_of(map, ptype, n) == 0,
    decreases n,
{
    if n > 0 {
        lemma_count_of_absent(map, ptype, (n - 1) as nat);
        assert(map.ptype_of((n - 1) as u64) != Some(ptype));
    }
}

/// No phenotype is counted more often than there are encodings.
pub proof fn lemma_count_of_bound(map: PhenotypeMap, ptype: u64, n: nat)
    ensures
        count_of(map, ptype, n) <= n,
    decreases n,
{
    if n > 0 {
        lemma_count_of_bound(map, ptype, (n - 1) as nat);
    }
}

/// Replacing one record changes the sum by the change of its frequency.
pub proof fn lemma_frequency_sum_update(table: Seq<PhenotypeCount>, pos: int, record: PhenotypeCount)
    requires
        0 <= pos < table.len(),
    ensures
        frequency_sum(table.update(pos, record)) == frequency_sum(table) - table[pos].frequency
            + record.frequency,
    decreases table.len(),
{
    if pos == table.len() - 1 {
        assert(table.update(pos, record).drop_last() =~= table.drop_last());
    } else {
        lemma_frequency_sum_update(table.drop_last(), pos, record);
        assert(table.update(pos, record).drop_last() =~= table.drop_last().update(pos, record));
    }
}

/// Inserting a record adds its frequency to the sum.
pub proof fn lemma_frequency_sum_insert(table: Seq<PhenotypeCount>, pos: int, record: PhenotypeCount)
    requires
        0 <= pos <= table.len(),
    ensures
        frequency_sum(table.insert(pos, record)) == frequency_sum(table) + record.frequency,
    decreases table.len(),
{
    if pos == table.len() {
        assert(table.insert(pos, record).drop_last() =~= table);
    } else {
        lemma_frequency_sum_insert(table.drop_last(), pos, record);
        assert(table.insert(pos, record).drop_last() =~= table.drop_last().insert(pos, record));
        assert(table.insert(pos, record).last() == table.last());
    }
}

/// Every frequency of a frequency table lies between 1 and the size of the
/// space it was counted over.
pub proof fn lemma_frequencies_in_range(table: Seq<PhenotypeCount>, map: PhenotypeMap, n: nat)
    requires
        is_frequency_table(table, map, n),
    ensures
        forall|i: int| 0 <= i < table.len() ==> 1 <= (#[trigger] table[i]).frequency <= n,
{
    assert forall|i: int| 0 <= i < table.len() implies 1 <= (#[trigger] table[i]).frequency
        <= n by {
        lemma_count_of_bound(map, table[i].ptype_id, n);
    }
}

/// Reads one line of a phenotype table.
pub fn parse_row(line: &[u8], limit: u64) -> (row: Row)
    ensures
        row == read_row(line@, limit as nat),
{
    let fields = split(line, COMMA);
    if fields.len() < 2 {
        return Row::Blank;
    }
    proof {
        assert(pieces(fields@)[0] == fields[0]@);
        assert(pieces(fields@)[1] == fields[1]@);
    }
    match parse_numeral(fields[0].as_slice(), 2) {
        None => Row::Malformed,
        Some(genotype) => {
            if genotype >= limit {
                Row::OverLimit
            } else {
                match parse_numeral(fields[1].as_slice(), 10) {
                    None => Row::Malformed,
                    Some(ptype) => Row::Entry { genotype, ptype },
                }
            }
        },
    }
}

impl PhenotypeMap {
    /// The phenotype of the genotype with integer encoding `id`, if the map
    /// has one for it.
    pub open spec fn ptype_of(&self, id: u64) -> Option<u64> {
        match self {
            PhenotypeMap::Procedural { thresholds } => Some(first_above(thresholds@, id, 0) as u64),
            PhenotypeMap::TableBacked { table } => if table@.contains_key(id) {
                Some(table@[id])
            } else {
                None
            },
        }
    }

    /// Looks up the phenotype of the genotype with integer encoding `id`.
    pub fn lookup(&self, id: u64) -> (ptype: Option<u64>)
        ensures
            ptype == self.ptype_of(id),
    {
        match self {
            PhenotypeMap::Procedural { thresholds } => {
                let mut idx: usize = 0;
                while idx < thresholds.len()
                    invariant
                        idx <= thresholds.len(),
                        self.ptype_of(id) == Some(first_above(thresholds@, id, 0) as u64),
                        first_above(thresholds@, id, 0) == first_above(thresholds@, id, idx as nat),
                    decreases thresholds.len() - idx,
                {
                    if id < thresholds[idx] {
                        return Some(idx as u64);
                    }
                    idx += 1;
                }
                Some(idx as u64)
            },
            PhenotypeMap::TableBacked { table } => {
                match table.get(&id) {
                    Some(ptype) => Some(*ptype),
                    None => None,
                }
            },
        }
    }
}

impl Environment {
    /// The map has a phenotype for every genotype of `gen_len_max` bits.
    pub open spec fn covers(&self, gen_len_max: nat) -> bool {
        forall|id: u64| id < pow2(gen_len_max) ==> (#[trigger] self.gp_map.ptype_of(id)) is Some
    }

    /// The phenotype of `geno` can be looked up: `geno` is well formed, its
    /// encoding fits in a `u64`, and the map has a phenotype for it.
    pub open spec fn resolves(&self, geno: &Genotype) -> bool {
        &&& geno.wf()
        &&& geno@.len() <= u32::MAX
        &&& geno.spec_func_length() <= 64
        &&& self.gp_map.ptype_of(geno.spec_integer_id() as u64) is Some
    }

    /// The phenotype of a genotype that `resolves`.
    pub open spec fn spec_ptype_id(&self, geno: &Genotype) -> u64 {
        self.gp_map.ptype_of(geno.spec_integer_id() as u64).unwrap()
    }

    /// The phenotypes of a population, in population order.
    pub open spec fn spec_pop_ptypes(&self, pop: Seq<Genotype>) -> Seq<u64> {
        Seq::new(pop.len(), |i: int| self.spec_ptype_id(&pop[i]))
    }

    /// An environment that maps by thresholds. With thresholds 16, 24, 30 the
    /// encodings below 16 have phenotype 0, those below 24 phenotype 1,
    /// those below 30 phenotype 2, and all others phenotype 3.
    pub fn procedural(thresholds: Vec<u64>) -> (env: Environment)
        ensures
            env.gp_map == (PhenotypeMap::Procedural { thresholds }),
            env.complexity_table@.len() == 0,
            forall|gen_len_max: nat| env.covers(gen_len_max),
    {
        Environment {
            complexity_table: Vec::new(),
            gp_map: PhenotypeMap::Procedural { thresholds },
        }
    }

    /// An environment that maps by the phenotype table held in `gptable`.
    ///
    /// The text is read line by line. The first line is a header. Every
    /// other line with at least two comma-separated fields is a row: a
    /// genotype as a binary numeral, then its phenotype as a decimal
    /// numeral. Loading fails at the first row that is malformed or lists a
    /// genotype of `2^gen_len_max` or more, and for no other reason: a table
    /// that leaves a genotype out is loaded, and `covers_space` tells
    /// whether it does.
    pub fn init(cfg: &Config, gptable: &[u8]) -> (res: Result<Environment, PhenotypeTableError>)
        requires
            cfg.gen_len_max <= MAX_GEN_LEN,
        ensures
            match res {
                Ok(env) => {
                    &&& env.gp_map matches PhenotypeMap::TableBacked { table }
                    &&& read_table(gptable@, pow2(cfg.gen_len_max as nat)) == Ok::<
                        Map<u64, u64>,
                        PhenotypeTableError,
                    >(table@)
                    &&& env.complexity_table@.len() == 0
                },
                Err(e) => read_table(gptable@, pow2(cfg.gen_len_max as nat)) == Err::<
                    Map<u64, u64>,
                    PhenotypeTableError,
                >(e),
            },
    {
        let limit: u64 = cfg.genotype_space();
        let rows = lines(gptable);
        let ghost all = lines_of(gptable@);
        let mut table: HashMap<u64, u64> = HashMap::new();
        let mut idx: usize = 1;
        while idx < rows.len()
            invariant
                1 <= idx,
                idx <= rows.len() || idx == 1,
                all == pieces(rows@),
                all == lines_of(gptable@),
                limit == pow2(cfg.gen_len_max as nat),
                table_after(all, limit as nat, idx as nat) == Ok::<
                    Map<u64, u64>,
                    PhenotypeTableError,
                >(table@),
            decreases rows.len() - idx,
        {
            proof {
                assert(all[idx as int] == rows[idx as int]@);
            }
            match parse_row(rows[idx].as_slice(), limit) {
                Row::Blank => {},
                Row::Entry { genotype, ptype } => {
                    table.insert(genotype, ptype);
                },
                Row::OverLimit => {
                    proof {
                        lemma_table_error_stays(all, limit as nat, (idx + 1) as nat, all.len());
                    }
                    return Err(PhenotypeTableError::GenotypeOverLimit);
                },
                Row::Malformed => {
                    proof {
                        lemma_table_error_stays(all, limit as nat, (idx + 1) as nat, all.len());
                    }
                    return Err(PhenotypeTableError::Malformed);
                },
            }
            idx += 1;
        }
        Ok(Environment { complexity_table: Vec::new(), gp_map: PhenotypeMap::TableBacked { table } })
    }

    /// The integer encoding of the first genotype of `gen_len_max` bits
    /// that the map has no phenotype for, if there is one. The test looks
    /// up the genotypes of the space in turn, so its work grows with
    /// `2^gen_len_max`.
    pub fn first_missing(&self, cfg: &Config) -> (missing: Option<u64>)
        requires
            cfg.gen_len_max <= MAX_GEN_LEN,
        ensures
            match missing {
                Some(id) => {
                    &&& id < pow2(cfg.gen_len_max as nat)
                    &&& self.gp_map.ptype_of(id) is None
                    &&& forall|k: u64| k < id ==> (#[trigger] self.gp_map.ptype_of(k)) is Some
                },
                None => self.covers(cfg.gen_len_max as nat),
            },
    {
        let limit: u64 = cfg.genotype_space();
        let mut id: u64 = 0;
        while id < limit
            invariant
                id <= limit,
                limit == pow2(cfg.gen_len_max as nat),
                forall|k: u64| k < id ==> (#[trigger] self.gp_map.ptype_of(k)) is Some,
            decreases limit - id,
        {
            if self.gp_map.lookup(id).is_none() {
                return Some(id);
            }
            id += 1;
        }
        None
    }

    /// Decides whether the map has a phenotype for every genotype of
    /// `gen_len_max` bits.
    pub fn covers_space(&self, cfg: &Config) -> (ok: bool)
        requires
            cfg.gen_len_max <= MAX_GEN_LEN,
        ensures
            ok == self.covers(cfg.gen_len_max as nat),
    {
        self.first_missing(cfg).is_none()
    }

    /// The phenotype of a genotype.
    ///
    /// The map must have a phenotype for the genotype; no phenotype stands
    /// in for a missing one. Verified callers prove that it has one. A
    /// caller that cannot be sure looks the encoding up with
    /// `PhenotypeMap::lookup`, which answers a miss with `None`.
    pub fn g_to_ptype_id(&self, geno: &Genotype) -> (ptype: u64)
        requires
            self.resolves(geno),
        ensures
            ptype == self.spec_ptype_id(geno),
    {
        let gtype_id: u64 = geno.get_as_integer();
        self.gp_map.lookup(gtype_id).unwrap()
    }

    /// The phenotypes of a population, in population order.
    pub fn get_pop_ptypes(&self, pop: &Vec<Genotype>) -> (ptypes: Vec<u64>)
        requires
            forall|i: int| 0 <= i < pop.len() ==> self.resolves(#[trigger] &pop[i]),
        ensures
            ptypes@ == self.spec_pop_ptypes(pop@),
    {
        let mut ptypes: Vec<u64> = Vec::new();
        let mut idx: usize = 0;
        while idx < pop.len()
            invariant
                idx <= pop.len(),
                forall|i: int| 0 <= i < pop.len() ==> self.resolves(#[trigger] &pop[i]),
                ptypes.len() == idx,
                forall|i: int| 0 <= i < idx ==> ptypes[i] == self.spec_ptype_id(&pop[i]),
            decreases pop.len() - idx,
        {
            assert(self.resolves(&pop[idx as int]));
            ptypes.push(self.g_to_ptype_id(&pop[idx]));
            idx += 1;
        }
        assert(ptypes@ =~= self.spec_pop_ptypes(pop@));
        ptypes
    }

    /// Generates the frequency table: every genotype of `gen_len_max` bits
    /// is built from its integer encoding and mapped to its phenotype, and
    /// the genotypes of each phenotype are counted.
    ///
    /// The frequencies add up to the size of the genotype space,
    /// `2^gen_len_max`. The work grows with that size, so `gen_len_max`
    /// should stay small (25 is a practical limit).
    pub fn gen_complexity_table(&mut self, cfg: &Config)
        requires
            cfg.gen_len_max <= MAX_GEN_LEN,
            old(self).covers(cfg.gen_len_max as nat),
        ensures
            final(self).gp_map == old(self).gp_map,
            is_frequency_table(
                final(self).complexity_table@,
                final(self).gp_map,
                pow2(cfg.gen_len_max as nat),
            ),
            frequency_sum(final(self).complexity_table@) == pow2(cfg.gen_len_max as nat),
    {
        let limit: u64 = cfg.genotype_space();
        let mut table: Vec<PhenotypeCount> = Vec::new();
        let mut gid: u64 = 0;
        while gid < limit
            invariant
                gid <= limit,
                limit == pow2(cfg.gen_len_max as nat),
                limit <= 0x8000_0000_0000_0000,
                cfg.gen_len_max <= MAX_GEN_LEN,
                *self == *old(self),
                self.covers(cfg.gen_len_max as nat),
                is_frequency_table(table@, self.gp_map, gid as nat),
                frequency_sum(table@) == gid,
            decreases limit - gid,
        {
            let geno = Genotype::from_integer(gid, cfg);
            proof {
                lemma_func_length_bounds(geno@);
                assert(self.gp_map.ptype_of(gid) is Some);
            }
            let ptype: u64 = self.g_to_ptype_id(&geno);
            let pos: usize = record_position(&table, ptype);
            let ghost before = table@;
            if pos < table.len() && table[pos].ptype_id == ptype {
                let seen: u64 = table[pos].frequency;
                proof {
                    lemma_count_of_bound(self.gp_map, ptype, gid as nat);
                }
                table.set(pos, PhenotypeCount { ptype_id: ptype, frequency: seen + 1 });
                proof {
                    lemma_frequency_sum_update(before, pos as int, table@[pos as int]);
                    lemma_table_after_recount(before, table@, self.gp_map, gid, pos as int);
                }
            } else {
                table.insert(pos, PhenotypeCount { ptype_id: ptype, frequency: 1 });
                proof {
                    lemma_frequency_sum_insert(before, pos as int, table@[pos as int]);
                    lemma_table_after_new_record(before, table@, self.gp_map, gid, pos as int);
                }
            }
            gid += 1;
        }
        self.complexity_table = table;
    }
}

/// The place of `ptype` in a table in ascending order of phenotype: the
/// index of the first record whose phenotype is not below `ptype`.
fn record_position(table: &Vec<PhenotypeCount>, ptype: u64) -> (pos: usize)
    ensures
        pos <= table.len(),
        forall|i: int| 0 <= i < pos ==> (#[trigger] table[i]).ptype_id < ptype,
        pos < table.len() ==> table[pos as int].ptype_id >= ptype,
{
    let mut pos: usize = 0;
    while pos < table.len()
        invariant
            pos <= table.len(),
            forall|i: int| 0 <= i < pos ==> (#[trigger] table[i]).ptype_id < ptype,
        decreases table.len() - pos,
    {
        if table[pos].ptype_id >= ptype {
            return pos;
        }
        pos += 1;
    }
    pos
}

/// Once reading a table has failed, the lines that follow change nothing.
proof fn lemma_table_error_stays(lines: Seq<Seq<u8>>, limit: nat, n: nat, m: nat)
    requires
        table_after(lines, limit, n) is Err,
        n <= m || m <= 1,
    ensures
        m >= n ==> table_after(lines, limit, m) == table_after(lines, limit, n),
    decreases m,
{
    if m > n {
        lemma_table_error_stays(lines, limit, n, (m - 1) as nat);
    }
}

/// Counting one more encoding whose phenotype already has a record.
proof fn lemma_table_after_recount(
    before: Seq<PhenotypeCount>,
    after: Seq<PhenotypeCount>,
    map: PhenotypeMap,
    gid: u64,
    pos: int,
)
    requires
        gid < u64::MAX,
        is_frequency_table(before, map, gid as nat),
        0 <= pos < before.len(),
        map.ptype_of(gid) == Some(before[pos].ptype_id),
        after == before.update(
            pos,
            PhenotypeCount {
                ptype_id: before[pos].ptype_id,
                frequency: (before[pos].frequency + 1) as u64,
            },
        ),
        before[pos].frequency < u64::MAX,
    ensures
        is_frequency_table(after, map, (gid + 1) as nat),
{
    let n = (gid + 1) as nat;
    assert forall|i: int| 0 <= i < after.len() implies 0 < (#[trigger] after[i]).frequency
        == count_of(map, after[i].ptype_id, n) by {
        if i != pos {
            assert(after[i] == before[i]);
            if i < pos {
                assert(before[i].ptype_id < before[pos].ptype_id);
            } else {
                assert(before[pos].ptype_id < before[i].ptype_id);
            }
        }
    }
    assert forall|id: u64| id < n implies (#[trigger] map.ptype_of(id)) is Some && has_record(
        after,
        map.ptype_of(id).unwrap(),
    ) by {
        if id < gid {
            let i = choose|i: int|
                0 <= i < before.len() && (#[trigger] before[i]).ptype_id == map.ptype_of(
                    id,
                ).unwrap();
            assert(after[i].ptype_id == before[i].ptype_id);
        } else {
            assert(after[pos].ptype_id == map.ptype_of(id).unwrap());
        }
    }
    assert forall|i: int, j: int| 0 <= i < j < after.len() implies (#[trigger] after[i]).ptype_id
        < (#[trigger] after[j]).ptype_id by {
        assert(after[i].ptype_id == before[i].ptype_id);
        assert(after[j].ptype_id == before[j].ptype_id);
    }
}

/// Counting one more encoding whose phenotype has no record yet.
proof fn lemma_table_after_new_record(
    before: Seq<PhenotypeCount>,
    after: Seq<PhenotypeCount>,
    map: PhenotypeMap,
    gid: u64,
    pos: int,
)
    requires
        gid < u64::MAX,
        is_frequency_table(before, map, gid as nat),
        map.ptype_of(gid) is Some,
        0 <= pos <= before.len(),
        forall|i: int| 0 <= i < pos ==> (#[trigger] before[i]).ptype_id < map.ptype_of(gid).unwrap(),
        pos < before.len() ==> before[pos].ptype_id > map.ptype_of(gid).unwrap(),
        after == before.insert(
            pos,
            PhenotypeCount { ptype_id: map.ptype_of(gid).unwrap(), frequency: 1 },
        ),
    ensures
        is_frequency_table(after, map, (gid + 1) as nat),
{
    let n = (gid + 1) as nat;
    let ptype = map.ptype_of(gid).unwrap();
    assert forall|i: int| 0 <= i < before.len() implies (#[trigger] before[i]).ptype_id
        != ptype by {
        if i >= pos {
            if i > pos {
                assert(before[pos].ptype_id < before[i].ptype_id);
            }
        }
    }
    assert forall|id: u64| id < gid implies #[trigger] map.ptype_of(id) != Some(ptype) by {
        assert(has_record(before, map.ptype_of(id).unwrap()));
    }
    lemma_count_of_absent(map, ptype, gid as nat);
    assert forall|i: int| 0 <= i < after.len() implies 0 < (#[trigger] after[i]).frequency
        == count_of(map, after[i].ptype_id, n) by {
        if i < pos {
            assert(after[i] == before[i]);
        } else if i > pos {
            assert(after[i] == before[i - 1]);
        }
    }
    assert forall|id: u64| id < n implies (#[trigger] map.ptype_of(id)) is Some && has_record(
        after,
        map.ptype_of(id).unwrap(),
    ) by {
        if id < gid {
            let i = choose|i: int|
                0 <= i < before.len() && (#[trigger] before[i]).ptype_id == map.ptype_of(
                    id,
                ).unwrap();
            if i < pos {
                assert(after[i].ptype_id == before[i].ptype_id);
            } else {
                assert(after[i + 1].ptype_id == before[i].ptype_id);
            }
        } else {
            assert(after[pos].ptype_id == ptype);
        }
    }
    assert forall|i: int, j: int| 0 <= i < j < after.len() implies (#[trigger] after[i]).ptype_id
        < (#[trigger] after[j]).ptype_id by {
        let a = if i < pos {
            i
        } else {
            i - 1
        };
        let b = if j < pos {
            j
        } else {
            j - 1
        };
        if i != pos {
            assert(after[i] == before[a]);
        }
        if j != pos {
            assert(after[j] == before[b]);
        }
        if i != pos && j != pos {
            assert(before[a].ptype_id < before[b].ptype_id);
        } else if i == pos {
            if b > pos {
                assert(before[pos].ptype_id < before[b].ptype_id);
            }
        }
    }
}

} // verus!
