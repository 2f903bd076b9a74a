//! The text form of the run parameters: one `name,value` pair per line.

use crate::config::{Config, UNIT};
use crate::text::{
    digit_string,
    lines,
    lines_of,
    numeral,
    parse_digits,
    parse_numeral,
    pieces,
    split,
    split_on,
    COMMA,
};
use vstd::prelude::*;
use vstd::string::StringSliceAdditionalSpecFns;

verus! {

/// The byte that separates the whole part of a number from its fraction.
pub const POINT: u8 = 46;

/// The number of decimal places of a fixed-point value: `UNIT` is ten to
/// this power.
pub const PLACES: usize = 6;

/// Why a parameter text could not be read.
#[derive(Clone, Copy, Debug, PartialEq, Eq)]
pub enum ConfigLoadError {
    /// A line names a parameter and gives no value for it.
    MissingValue,
    /// The value of a parameter is not a number of the parameter's kind, or
    /// does not fit.
    BadValue,
}

/// The parameters that a text can set.
#[derive(Clone, Copy, Debug, PartialEq, Eq)]
pub enum Field {
    PopsizeHost,
    PopsizePara,
    GenLenMax,
    InitLen,
    SrcaHost,
    SrcbHost,
    SrcaPara,
    SrcbPara,
    ParaEffect,
    ParaSelfFit,
    ParaPermFit,
    MutHost,
    MutPara,
    ContactMode,
    ContactFrac,
    MaxSteps,
    SaveEvery,
}

/// Ten to the power `n`.
pub open spec fn ten_to(n: nat) -> nat
    decreases n,
{
    if n == 0 {
        1
    } else {
        10 * ten_to((n - 1) as nat)
    }
}

/// The parameter that a name stands for, if it is the name of one.
pub open spec fn field_named(name: Seq<u8>) -> Option<Field> {
    if name == "popsize_host".spec_bytes() {
        Some(Field::PopsizeHost)
    } else if name == "popsize_para".spec_bytes() {
        Some(Field::PopsizePara)
    } else if name == "gen_len_max".spec_bytes() {
        Some(Field::GenLenMax)
    } else if name == "init_len".spec_bytes() {
        Some(Field::InitLen)
    } else if name == "srca_host".spec_bytes() {
        Some(Field::SrcaHost)
    } else if name == "srcb_host".spec_bytes() {
        Some(Field::SrcbHost)
    } else if name == "srca_para".spec_bytes() {
        Some(Field::SrcaPara)
    } else if name == "srcb_para".spec_bytes() {
        Some(Field::SrcbPara)
    } else if name == "para_effect".spec_bytes() {
        Some(Field::ParaEffect)
    } else if name == "para_self_fit".spec_bytes() {
        Some(Field::ParaSelfFit)
    } else if name == "para_perm_fit".spec_bytes() {
        Some(Field::ParaPermFit)
    } else if name == "mut_host".spec_bytes() {
        Some(Field::MutHost)
    } else if name == "mut_para".spec_bytes() {
        Some(Field::MutPara)
    } else if name == "contact_mode".spec_bytes() {
        Some(Field::ContactMode)
    } else if name == "contact_frac".spec_bytes() {
        Some(Field::ContactFrac)
    } else if name == "max_steps".spec_bytes() {
        Some(Field::MaxSteps)
    } else if name == "save_every".spec_bytes() {
        Some(Field::SaveEvery)
    } else {
        None
    }
}

/// The parameter is a count: its value is a whole number that fits in a
/// `u32`. All other parameters are real quantities in fixed point.
pub open spec fn is_count(field: Field) -> bool {
    match field {
        Field::PopsizeHost
        | Field::PopsizePara
        | Field::GenLenMax
        | Field::InitLen
        | Field::ContactMode
        | Field::MaxSteps
        | Field::SaveEvery => true,
        _ => false,
    }
}

/// The fixed-point value that a decimal number denotes. The number is a
/// numeral, or a numeral and a string of at most six digits with a point
/// between them; its value in units of `1 / UNIT` must fit in a `u64`.
pub open spec fn fixed_point(s: Seq<u8>) -> Option<u64> {
    let parts = split_on(s, POINT);
    if parts.len() > 2 {
        None
    } else {
        match numeral(parts[0], 10) {
            None => None,
            Some(whole) => {
                if parts.len() == 1 {
                    if whole * UNIT <= u64::MAX {
                        Some((whole * UNIT) as u64)
                    } else {
                        None
                    }
                } else {
                    match digit_string(parts[1], 10) {
                        None => None,
                        Some(fraction) => {
                            let value = whole * UNIT + fraction * ten_to(
                                (PLACES - parts[1].len()) as nat,
                            );
                            if parts[1].len() <= PLACES && value <= u64::MAX {
                                Some(value as u64)
                            } else {
                                None
                            }
                        },
                    }
                }
            },
        }
    }
}

/// The value that a text gives to a parameter.
pub open spec fn field_value(field: Field, text: Seq<u8>) -> Option<u64> {
    if is_count(field) {
        match numeral(text, 10) {
            Some(count) => if count <= u32::MAX {
                Some(count)
            } else {
                None
            },
            None => None,
        }
    } else {
        fixed_point(text)
    }
}

/// The parameters with one of them set.
pub open spec fn with_field(cfg: Config, field: Field, value: u64) -> Config {
    match field {
        Field::PopsizeHost => Config { popsize_host: value as u32, ..cfg },
        Field::PopsizePara => Config { popsize_para: value as u32, ..cfg },
        Field::GenLenMax => Config { gen_len_max: value as u32, ..cfg },
        Field::InitLen => Config { init_len: value as u32, ..cfg },
        Field::SrcaHost => Config { srca_host: value, ..cfg },
        Field::SrcbHost => Config { srcb_host: value, ..cfg },
        Field::SrcaPara => Config { srca_para: value, ..cfg },
        Field::SrcbPara => Config { srcb_para: value, ..cfg },
        Field::ParaEffect => Config { para_effect: value, ..cfg },
        Field::ParaSelfFit => Config { para_self_fit: value, ..cfg },
        Field::ParaPermFit => Config { para_perm_fit: value, ..cfg },
        Field::MutHost => Config { mut_host: value, ..cfg },
        Field::MutPara => Config { mut_para: value, ..cfg },
        Field::ContactMode => Config { contact_mode: value as u32, ..cfg },
        Field::ContactFrac => Config { contact_frac: value, ..cfg },
        Field::MaxSteps => Config { max_steps: value as u32, ..cfg },
        Field::SaveEvery => Config { save_every: value as u32, ..cfg },
    }
}

/// The parameters after one more line. A line whose first field names no
/// parameter says nothing.
pub open spec fn read_line(cfg: Config, line: Seq<u8>) -> Result<Config, ConfigLoadError> {
    let fields = split_on(line, COMMA);
    match field_named(fields[0]) {
        None => Ok(cfg),
        Some(field) => if fields.len() < 2 {
            Err(ConfigLoadError::MissingValue)
        } else {
            match field_value(field, fields[1]) {
                None => Err(ConfigLoadError::BadValue),
                Some(value) => Ok(with_field(cfg, field, value)),
            }
        },
    }
}

/// The parameters after the first `n` lines, starting from the blank
/// configuration. The first line that cannot be read decides the error; of
/// two lines for one parameter the later one counts.
pub open spec fn config_after(lines: Seq<Seq<u8>>, n: nat) -> Result<Config, ConfigLoadError>
    decreases n,
{
    if n == 0 {
        Ok(Config::blank())
    } else {
        match config_after(lines, (n - 1) as nat) {
            Err(e) => Err(e),
            Ok(cfg) => read_line(cfg, lines[n - 1]),
        }
    }
}

/// The parameters that a text holds.
pub open spec fn read_config(text: Seq<u8>) -> Result<Config, ConfigLoadError> {
    config_after(lines_of(text), lines_of(text).len())
}

/// Decides whether two byte strings are the same.
pub fn same_bytes(a: &[u8], b: &[u8]) -> (same: bool)
    ensures
        same == (a@ == b@),
{
    if a.len() != b.len() {
        return false;
    }
    let mut i: usize = 0;
    while i < a.len()
        invariant
            i <= a.len(),
            a.len() == b.len(),
            forall|k: int| 0 <= k < i ==> a@[k] == b@[k],
        decreases a.len() - i,
    {
        if a[i] != b[i] {
            return false;
        }
        i += 1;
    }
    assert(a@ =~= b@);
    true
}

/// Finds the parameter that a name stands for.
pub fn find_field(name: &[u8]) -> (field: Option<Field>)
    ensures
        field == field_named(name@),
{
    if same_bytes(name, "popsize_host".as_bytes()) {
        Some(Field::PopsizeHost)
    } else if same_bytes(name, "popsize_para".as_bytes()) {
        Some(Field::PopsizePara)
    } else if same_bytes(name, "gen_len_max".as_bytes()) {
        Some(Field::GenLenMax)
    } else if same_bytes(name, "init_len".as_bytes()) {
        Some(Field::InitLen)
    } else if same_bytes(name, "srca_host".as_bytes()) {
        Some(Field::SrcaHost)
    } else if same_bytes(name, "srcb_host".as_bytes()) {
        Some(Field::SrcbHost)
    } else if same_bytes(name, "srca_para".as_bytes()) {
        Some(Field::SrcaPara)
    } else if same_bytes(name, "srcb_para".as_bytes()) {
        Some(Field::SrcbPara)
    } else if same_bytes(name, "para_effect".as_bytes()) {
        Some(Field::ParaEffect)
    } else if same_bytes(name, "para_self_fit".as_bytes()) {
        Some(Field::ParaSelfFit)
    } else if same_bytes(name, "para_perm_fit".as_bytes()) {
        Some(Field::ParaPermFit)
    } else if same_bytes(name, "mut_host".as_bytes()) {
        Some(Field::MutHost)
    } else if same_bytes(name, "mut_para".as_bytes()) {
        Some(Field::MutPara)
    } else if same_bytes(name, "contact_mode".as_bytes()) {
        Some(Field::ContactMode)
    } else if same_bytes(name, "contact_frac".as_bytes()) {
        Some(Field::ContactFrac)
    } else if same_bytes(name, "max_steps".as_bytes()) {
        Some(Field::MaxSteps)
    } else if same_bytes(name, "save_every".as_bytes()) {
        Some(Field::SaveEvery)
    } else {
        None
    }
}

/// Reads a decimal number as a fixed-point value.
pub fn parse_fixed_point(s: &[u8]) -> (value: Option<u64>)
    ensures
        value == fixed_point(s@),
{
    let parts = split(s, POINT);
    if parts.len() > 2 {
        return None;
    }
    proof {
        assert(pieces(parts@)[0] == parts[0]@);
    }
    let whole: u64 = match parse_numeral(parts[0].as_slice(), 10) {
        None => {
            return None;
        },
        Some(whole) => whole,
    };
    assert(whole * UNIT <= u64::MAX * UNIT) by (nonlinear_arith)
        requires
            whole <= u64::MAX,
    ;
    let scaled: u128 = (whole as u128) * (UNIT as u128);
    if parts.len() == 1 {
        if scaled <= u64::MAX as u128 {
            return Some(scaled as u64);
        } else {
            return None;
        }
    }
    proof {
        assert(pieces(parts@)[1] == parts[1]@);
    }
    let fraction: u64 = match parse_digits(parts[1].as_slice(), 10) {
        None => {
            return None;
        },
        Some(fraction) => fraction,
    };
    let digits: usize = parts[1].len();
    if digits > PLACES {
        return None;
    }
    let mut weight: u64 = 1;
    let mut place: usize = digits;
    proof {
        lemma_ten_to_bounds(0, (PLACES - digits) as nat);
    }
    while place < PLACES
        invariant
            digits <= place <= PLACES,
            weight == ten_to((place - digits) as nat),
            weight <= ten_to((PLACES - digits) as nat) <= 1_000_000,
        decreases PLACES - place,
    {
        proof {
            lemma_ten_to_bounds((place + 1 - digits) as nat, (PLACES - digits) as nat);
        }
        weight = weight * 10;
        place += 1;
    }
    assert(fraction * weight <= u64::MAX * 1_000_000) by (nonlinear_arith)
        requires
            fraction <= u64::MAX,
            weight <= 1_000_000,
    ;
    let value: u128 = scaled + (fraction as u128) * (weight as u128);
    if value <= u64::MAX as u128 {
        Some(value as u64)
    } else {
        None
    }
}

/// Powers of ten grow with the exponent, and the sixth is `UNIT`.
pub proof fn lemma_ten_to_bounds(n: nat, m: nat)
    requires
        n <= m <= 6,
    ensures
        1 <= ten_to(n) <= ten_to(m) <= 1_000_000,
        n > 0 ==> ten_to(n) == 10 * ten_to((n - 1) as nat),
        ten_to(6) == UNIT,
    decreases m - n,
{
    reveal_with_fuel(ten_to, 7);
    if n < m {
        lemma_ten_to_bounds(n + 1, m);
    }
}

/// Reads the value of a parameter.
pub fn parse_field_value(field: Field, text: &[u8]) -> (value: Option<u64>)
    ensures
        value == field_value(field, text@),
{
    match field {
        Field::PopsizeHost
        | Field::PopsizePara
        | Field::GenLenMax
        | Field::InitLen
        | Field::ContactMode
        | Field::MaxSteps
        | Field::SaveEvery => match parse_numeral(text, 10) {
            Some(count) => if count <= u32::MAX as u64 {
                Some(count)
            } else {
                None
            },
            None => None,
        },
        _ => parse_fixed_point(text),
    }
}

/// Sets one parameter.
pub fn set_field(cfg: Config, field: Field, value: u64) -> (out: Config)
    requires
        is_count(field) ==> value <= u32::MAX,
    ensures
        out == with_field(cfg, field, value),
{
    let mut out = cfg;
    match field {
        Field::PopsizeHost => {
            out.popsize_host = value as u32;
        },
        Field::PopsizePara => {
            out.popsize_para = value as u32;
        },
        Field::GenLenMax => {
            out.gen_len_max = value as u32;
        },
        Field::InitLen => {
            out.init_len = value as u32;
        },
        Field::SrcaHost => {
            out.srca_host = value;
        },
        Field::SrcbHost => {
            out.srcb_host = value;
        },
        Field::SrcaPara => {
            out.srca_para = value;
        },
        Field::SrcbPara => {
            out.srcb_para = value;
        },
        Field::ParaEffect => {
            out.para_effect = value;
        },
        Field::ParaSelfFit => {
            out.para_self_fit = value;
        },
        Field::ParaPermFit => {
            out.para_perm_fit = value;
        },
        Field::MutHost => {
            out.mut_host = value;
        },
        Field::MutPara => {
            out.mut_para = value;
        },
        Field::ContactMode => {
            out.contact_mode = value as u32;
        },
        Field::ContactFrac => {
            out.contact_frac = value;
        },
        Field::MaxSteps => {
            out.max_steps = value as u32;
        },
        Field::SaveEvery => {
            out.save_every = value as u32;
        },
    }
    out
}

/// Reads one line into the parameters.
pub fn parse_line(cfg: Config, line: &[u8]) -> (res: Result<Config, ConfigLoadError>)
    ensures
        res == read_line(cfg, line@),
{
    let fields = split(line, COMMA);
    proof {
        assert(pieces(fields@)[0] == fields[0]@);
    }
    match find_field(fields[0].as_slice()) {
        None => Ok(cfg),
        Some(field) => {
            if fields.len() < 2 {
                return Err(ConfigLoadError::MissingValue);
            }
            proof {
                assert(pieces(fields@)[1] == fields[1]@);
            }
            match parse_field_value(field, fields[1].as_slice()) {
                None => Err(ConfigLoadError::BadValue),
                Some(value) => Ok(set_field(cfg, field, value)),
            }
        },
    }
}

/// Reads the run parameters from a text of `name,value` lines.
///
/// Reading starts from the blank configuration. Each line whose first field
/// is the name of a parameter sets that parameter to the value in its second
/// field; all other lines are passed over. Counts are whole decimal numbers;
/// real quantities are decimal numbers with at most six decimal places.
/// Whether the parameters read make a valid configuration is a separate
/// question, which `Config::is_valid` answers.
pub fn parse_config(text: &[u8]) -> (res: Result<Config, ConfigLoadError>)
    ensures
        res == read_config(text@),
{
    let rows = lines(text);
    let ghost all = lines_of(text@);
    let mut cfg = Config::default();
    let mut idx: usize = 0;
    while idx < rows.len()
        invariant
            idx <= rows.len(),
            all == pieces(rows@),
            all == lines_of(text@),
            config_after(all, idx as nat) == Ok::<Config, ConfigLoadError>(cfg),
        decreases rows.len() - idx,
    {
        proof {
            assert(all[idx as int] == rows[idx as int]@);
        }
        match parse_line(cfg, rows[idx].as_slice()) {
            Ok(next) => {
                cfg = next;
            },
            Err(e) => {
                proof {
                    lemma_config_error_stays(all, (idx + 1) as nat, all.len());
                }
                return Err(e);
            },
        }
        idx += 1;
    }
    Ok(cfg)
}

/// Once reading the parameters has failed, the lines that follow change
/// nothing.
proof fn lemma_config_error_stays(lines: Seq<Seq<u8>>, n: nat, m: nat)
    requires
        config_after(lines, n) is Err,
        n <= m,
    ensures
        config_after(lines, m) == config_after(lines, n),
    decreases m,
{
    if m > n {
        lemma_config_error_stays(lines, n, (m - 1) as nat);
    }
}

} // verus!
