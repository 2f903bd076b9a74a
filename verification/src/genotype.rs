//! Genotypes: fixed-length sequences of bits, least significant bit first.

use crate::config::{Config, UNIT};
use crate::random::random_below;
use crate::text::{all_digits, digits_value};
use vstd::arithmetic::div_mod::{lemma_div_denominator, lemma_mod_breakdown, lemma_small_mod};
use vstd::arithmetic::power2::{
    lemma2_to64,
    lemma_pow2_pos,
    lemma_pow2_strictly_increases,
    lemma_pow2_unfold,
    pow2,
};
use vstd::prelude::*;
use vstd::string::StringExecFns;

verus! {

/// Every entry is a bit.
pub open spec fn is_bits(s: Seq<u32>) -> bool {
    forall|i: int| 0 <= i < s.len() ==> s[i] <= 1
}

/// Functional length: one more than the index of the highest bit that is set,
/// and 0 for a sequence without a set bit.
pub open spec fn func_length(s: Seq<u32>) -> nat
    decreases s.len(),
{
    if s.len() == 0 {
        0
    } else if s.last() == 1 {
        s.len()
    } else {
        func_length(s.drop_last())
    }
}

/// The sum of `s[i] * 2^i` over the whole sequence.
pub open spec fn weighted_sum(s: Seq<u32>) -> nat
    decreases s.len(),
{
    if s.len() == 0 {
        0
    } else {
        weighted_sum(s.drop_last()) + (s.last() as nat) * pow2((s.len() - 1) as nat)
    }
}

/// Integer encoding: the sum of `s[i] * 2^i` over the functional length.
pub open spec fn integer_id(s: Seq<u32>) -> nat {
    weighted_sum(s.take(func_length(s) as int))
}

/// The lowest `len` binary digits of `value`, least significant first.
pub open spec fn bits_of(value: nat, len: nat) -> Seq<u32> {
    Seq::new(len, |i: int| ((value / pow2(i as nat)) % 2) as u32)
}

/// A bit sequence rendered high-order bit first, as `'0'` and `'1'`.
pub open spec fn bit_string(s: Seq<u32>) -> Seq<char> {
    Seq::new(
        s.len(),
        |i: int|
            if s[s.len() - 1 - i] == 1 {
                '1'
            } else {
                '0'
            },
    )
}

/// The bytes of `bit_string`: `48` for a bit that is not set, `49` for one
/// that is, high-order bit first.
pub open spec fn bit_bytes(s: Seq<u32>) -> Seq<u8> {
    Seq::new(
        s.len(),
        |i: int|
            if s[s.len() - 1 - i] == 1 {
                49u8
            } else {
                48u8
            },
    )
}

/// The sequence with every bit flipped.
pub open spec fn flipped(s: Seq<u32>) -> Seq<u32> {
    Seq::new(s.len(), |i: int| (1 - s[i]) as u32)
}

/// One round of mutation at probability `rate / UNIT`: bit `i` is flipped
/// exactly when the draw for it, a number below `UNIT`, is below `rate`.
pub open spec fn mutated(s: Seq<u32>, rate: u64, draws: Seq<u64>) -> Seq<u32> {
    Seq::new(
        s.len(),
        |i: int|
            if draws[i] < rate {
                (1 - s[i]) as u32
            } else {
                s[i]
            },
    )
}

/// Any number of rounds of mutation, one list of draws per round.
pub open spec fn mutated_repeatedly(s: Seq<u32>, rate: u64, rounds: Seq<Seq<u64>>) -> Seq<u32>
    decreases rounds.len(),
{
    if rounds.len() == 0 {
        s
    } else {
        mutated(mutated_repeatedly(s, rate, rounds.drop_last()), rate, rounds.last())
    }
}

/// Draws for one round of mutation of `len` bits: each lies below `UNIT`.
pub open spec fn mutation_draws(draws: Seq<u64>, len: nat) -> bool {
    &&& draws.len() == len
    &&& forall|i: int| 0 <= i < len ==> draws[i] < UNIT
}

/// The functional length never exceeds the length, the bit below it is set,
/// and no bit at or above it is.
pub proof fn lemma_func_length_bounds(s: Seq<u32>)
    ensures
        func_length(s) <= s.len(),
        func_length(s) > 0 ==> s[func_length(s) - 1] == 1,
        forall|i: int| func_length(s) <= i < s.len() ==> s[i] != 1,
    decreases s.len(),
{
    if s.len() > 0 && s.last() != 1 {
        let shorter = s.drop_last();
        lemma_func_length_bounds(shorter);
        assert forall|i: int| func_length(s) <= i < s.len() implies s[i] != 1 by {
            if i < shorter.len() {
                assert(shorter[i] == s[i]);
            }
        }
    }
}

/// Bits at and above the functional length never influence the integer
/// encoding: two sequences with the same functional length that agree below
/// it have the same encoding.
pub proof fn lemma_padding_does_not_count(a: Seq<u32>, b: Seq<u32>)
    requires
        func_length(a) == func_length(b),
        forall|i: int| 0 <= i < func_length(a) ==> a[i] == b[i],
    ensures
        integer_id(a) == integer_id(b),
{
    lemma_func_length_bounds(a);
    lemma_func_length_bounds(b);
    assert(a.take(func_length(a) as int) =~= b.take(func_length(b) as int));
}

/// A sequence of `n` bits encodes a number below `2^n`.
pub proof fn lemma_weighted_sum_bound(s: Seq<u32>)
    requires
        is_bits(s),
    ensures
        weighted_sum(s) < pow2(s.len()),
    decreases s.len(),
{
    if s.len() == 0 {
        lemma2_to64();
    } else {
        lemma_weighted_sum_bound(s.drop_last());
        lemma_pow2_unfold(s.len());
        let high = pow2((s.len() - 1) as nat);
        assert(s.last() * high <= high) by (nonlinear_arith)
            requires
                s.last() <= 1,
                high >= 0,
        ;
    }
}

/// For a sequence of bits the encoding is the weighted sum of all of it:
/// what lies above the functional length is zero.
pub proof fn lemma_integer_id_is_weighted_sum(s: Seq<u32>)
    requires
        is_bits(s),
    ensures
        integer_id(s) == weighted_sum(s),
        integer_id(s) < pow2(s.len()),
    decreases s.len(),
{
    lemma_weighted_sum_bound(s);
    if s.len() == 0 {
        assert(s.take(0) =~= s);
    } else if s.last() == 1 {
        assert(s.take(s.len() as int) =~= s);
    } else {
        let shorter = s.drop_last();
        lemma_integer_id_is_weighted_sum(shorter);
        lemma_func_length_bounds(shorter);
        assert(s.take(func_length(s) as int) =~= shorter.take(func_length(shorter) as int));
        assert(s.last() * pow2((s.len() - 1) as nat) == 0) by (nonlinear_arith)
            requires
                s.last() == 0,
        ;
    }
}

/// The lowest `len` binary digits of `value` encode `value mod 2^len`.
pub proof fn lemma_weighted_sum_of_bits(value: nat, len: nat)
    ensures
        is_bits(bits_of(value, len)),
        weighted_sum(bits_of(value, len)) == value % pow2(len),
    decreases len,
{
    if len == 0 {
        lemma2_to64();
    } else {
        let shorter = (len - 1) as nat;
        lemma_weighted_sum_of_bits(value, shorter);
        assert(bits_of(value, len).drop_last() =~= bits_of(value, shorter));
        lemma_pow2_pos(shorter);
        lemma_pow2_unfold(len);
        let low = pow2(shorter);
        let digit = (value / low) % 2;
        lemma_mod_breakdown(value as int, low as int, 2);
        assert(pow2(len) == low * 2);
        assert(bits_of(value, len).last() == digit);
        assert(digit * low == low * digit) by (nonlinear_arith);
    }
}

/// The integer encoding inverts the binary expansion: the `len` binary
/// digits of a number below `2^len` encode that number.
pub proof fn lemma_integer_id_of_bits(value: nat, len: nat)
    requires
        value < pow2(len),
    ensures
        integer_id(bits_of(value, len)) == value,
{
    lemma_weighted_sum_of_bits(value, len);
    lemma_integer_id_is_weighted_sum(bits_of(value, len));
    lemma_small_mod(value, pow2(len));
}

/// The weighted sum taken from the low end: the lowest bit, plus twice the
/// weighted sum of the bits above it.
pub proof fn lemma_weighted_sum_from_low_end(s: Seq<u32>)
    requires
        s.len() > 0,
    ensures
        weighted_sum(s) == s[0] + 2 * weighted_sum(s.skip(1)),
    decreases s.len(),
{
    if s.len() == 1 {
        lemma2_to64();
        assert(s.drop_last() =~= Seq::<u32>::empty());
        assert(s.skip(1) =~= Seq::<u32>::empty());
        assert(weighted_sum(s.drop_last()) == 0);
    } else {
        let front = s.drop_last();
        lemma_weighted_sum_from_low_end(front);
        assert(front.skip(1) =~= s.skip(1).drop_last());
        assert(s.skip(1).last() == s.last());
        lemma_pow2_unfold((s.len() - 1) as nat);
        let high = pow2((s.len() - 2) as nat);
        assert((s.last() as nat) * (2 * high) == 2 * ((s.last() as nat) * high))
            by (nonlinear_arith);
    }
}

/// The bytes of a bit sequence are a binary numeral of its weighted sum.
pub proof fn lemma_bit_bytes_denote(s: Seq<u32>)
    requires
        is_bits(s),
    ensures
        all_digits(bit_bytes(s), 2),
        digits_value(bit_bytes(s), 2) == weighted_sum(s),
    decreases s.len(),
{
    if s.len() > 0 {
        let above = s.skip(1);
        lemma_bit_bytes_denote(above);
        lemma_weighted_sum_from_low_end(s);
        assert(bit_bytes(s).drop_last() =~= bit_bytes(above));
        assert(bit_bytes(s).last() == if s[0] == 1 {
            49u8
        } else {
            48u8
        });
    }
}

/// The text of a bit sequence is plain ASCII, one byte per bit.
pub proof fn lemma_bit_string_is_ascii(s: Seq<u32>)
    ensures
        vstd::utf8::is_ascii_chars(bit_string(s)),
        Seq::new(bit_string(s).len(), |i: int| bit_string(s)[i] as u8) == bit_bytes(s),
{
    assert(Seq::new(bit_string(s).len(), |i: int| bit_string(s)[i] as u8) =~= bit_bytes(s));
}

/// At rate 0 mutation changes nothing, whatever is drawn.
pub proof fn lemma_zero_rate_never_mutates(s: Seq<u32>, draws: Seq<u64>)
    ensures
        mutated(s, 0, draws) == s,
{
    assert(mutated(s, 0, draws) =~= s);
}

/// At rate 0 no number of rounds of mutation changes a genotype.
pub proof fn lemma_zero_rate_never_mutates_repeatedly(s: Seq<u32>, rounds: Seq<Seq<u64>>)
    ensures
        mutated_repeatedly(s, 0, rounds) == s,
    decreases rounds.len(),
{
    if rounds.len() > 0 {
        lemma_zero_rate_never_mutates_repeatedly(s, rounds.drop_last());
        lemma_zero_rate_never_mutates(s, rounds.last());
    }
}

/// At rate 1 mutation flips every bit, whatever is drawn.
pub proof fn lemma_full_rate_flips_every_bit(s: Seq<u32>, rate: u64, draws: Seq<u64>)
    requires
        rate >= UNIT,
        mutation_draws(draws, s.len()),
    ensures
        mutated(s, rate, draws) == flipped(s),
{
    assert(mutated(s, rate, draws) =~= flipped(s));
}

/// An individual: a fixed-length sequence of bits, index 0 the least
/// significant.
#[derive(Debug, PartialEq, Eq)]
pub struct Genotype {
    pub sequence: Vec<u32>,
}

impl View for Genotype {
    type V = Seq<u32>;

    open spec fn view(&self) -> Seq<u32> {
        self.sequence@
    }
}

impl Clone for Genotype {
    fn clone(&self) -> (copy: Self)
        ensures
            copy@ == self@,
    {
        let sequence = self.sequence.clone();
        assert(sequence@ =~= self.sequence@);
        Genotype { sequence }
    }
}

impl Genotype {
    /// Well-formedness: every entry of the sequence is 0 or 1.
    pub open spec fn wf(&self) -> bool {
        is_bits(self@)
    }

    /// Functional length of this genotype.
    pub open spec fn spec_func_length(&self) -> nat {
        func_length(self@)
    }

    /// Integer encoding of this genotype.
    pub open spec fn spec_integer_id(&self) -> nat {
        integer_id(self@)
    }

    /// Decides whether every entry of the sequence is a bit.
    pub fn is_wf(&self) -> (ok: bool)
        ensures
            ok == self.wf(),
    {
        let mut idx: usize = 0;
        while idx < self.sequence.len()
            invariant
                idx <= self.sequence.len(),
                forall|i: int| 0 <= i < idx ==> self@[i] <= 1,
            decreases self.sequence.len() - idx,
        {
            if self.sequence[idx] > 1 {
                return false;
            }
            idx += 1;
        }
        true
    }

    /// A fresh genotype of `gen_len_max` bits: the bits below `init_len` are
    /// drawn uniformly at random, all others are 0.
    pub fn new_rand(cfg: &Config) -> (geno: Genotype)
        ensures
            geno.wf(),
            geno@.len() == cfg.gen_len_max,
            forall|i: int| cfg.init_len <= i < cfg.gen_len_max ==> geno@[i] == 0,
    {
        let mut seq: Vec<u32> = Vec::new();
        let mut idx: u32 = 0;
        while idx < cfg.gen_len_max
            invariant
                idx <= cfg.gen_len_max,
                seq.len() == idx,
                is_bits(seq@),
                forall|i: int| cfg.init_len <= i < idx ==> seq[i] == 0,
            decreases cfg.gen_len_max - idx,
        {
            if idx < cfg.init_len {
                seq.push(random_below(2) as u32);
            } else {
                seq.push(0);
            }
            idx += 1;
        }
        Genotype { sequence: seq }
    }

    /// The genotype of `gen_len_max` bits that holds the binary expansion of
    /// `value`, lowest digit first. Digits of `value` beyond `gen_len_max`
    /// are dropped, so the genotype encodes `value` exactly when
    /// `value < 2^gen_len_max`.
    pub fn from_integer(value: u64, cfg: &Config) -> (geno: Genotype)
        ensures
            geno@ == bits_of(value as nat, cfg.gen_len_max as nat),
            geno.wf(),
            value < pow2(cfg.gen_len_max as nat) ==> geno.spec_integer_id() == value,
    {
        let mut seq: Vec<u32> = Vec::new();
        let mut rest: u64 = value;
        let mut idx: u32 = 0;
        proof {
            lemma2_to64();
        }
        while idx < cfg.gen_len_max
            invariant
                idx <= cfg.gen_len_max,
                seq.len() == idx,
                rest == value as nat / pow2(idx as nat),
                forall|i: int| 0 <= i < idx ==> seq[i] == bits_of(value as nat, idx as nat)[i],
            decreases cfg.gen_len_max - idx,
        {
            proof {
                lemma_pow2_pos(idx as nat);
                lemma_pow2_unfold((idx + 1) as nat);
                lemma_div_denominator(value as int, pow2(idx as nat) as int, 2);
                assert(pow2((idx + 1) as nat) == pow2(idx as nat) * 2);
            }
            seq.push((rest % 2) as u32);
            rest = rest / 2;
            idx += 1;
        }
        proof {
            assert(seq@ =~= bits_of(value as nat, cfg.gen_len_max as nat));
            lemma_weighted_sum_of_bits(value as nat, cfg.gen_len_max as nat);
            if value < pow2(cfg.gen_len_max as nat) {
                lemma_integer_id_of_bits(value as nat, cfg.gen_len_max as nat);
            }
        }
        Genotype { sequence: seq }
    }

    /// The functional length: the genotype's length without its high-order
    /// zeros; 0 for the all-zero genotype.
    pub fn get_func_length(&self) -> (len: u32)
        requires
            self@.len() <= u32::MAX,
        ensures
            len == self.spec_func_length(),
            len <= self@.len(),
    {
        let mut idx: usize = self.sequence.len();
        proof {
            assert(self@.take(idx as int) =~= self@);
        }
        while idx > 0
            invariant
                idx <= self@.len(),
                self@.len() <= u32::MAX,
                func_length(self@) == func_length(self@.take(idx as int)),
            decreases idx,
        {
            if self.sequence[idx - 1] == 1 {
                return idx as u32;
            }
            proof {
                assert(self@.take(idx as int).drop_last() =~= self@.take(idx - 1));
            }
            idx -= 1;
        }
        0
    }

    /// The integer encoding: the sum of `bit[i] * 2^i` over the functional
    /// length.
    pub fn get_as_integer(&self) -> (id: u64)
        requires
            self.wf(),
            self@.len() <= u32::MAX,
            self.spec_func_length() <= 64,
        ensures
            id == self.spec_integer_id(),
    {
        let len: u32 = self.get_func_length();
        let ghost low = self@.take(len as int);
        let mut asint: u64 = 0;
        let mut weight: u64 = 1;
        let mut idx: u32 = 0;
        proof {
            lemma2_to64();
        }
        while idx < len
            invariant
                idx <= len <= 64,
                len <= self@.len(),
                self.wf(),
                low == self@.take(len as int),
                asint == weighted_sum(low.take(idx as int)),
                asint < pow2(idx as nat),
                idx < 64 ==> weight == pow2(idx as nat),
                pow2(64) == 0x1_0000_0000_0000_0000,
            decreases len - idx,
        {
            let bit: u32 = self.sequence[idx as usize];
            proof {
                lemma_pow2_unfold((idx + 1) as nat);
                if idx + 1 < 64 {
                    lemma_pow2_strictly_increases((idx + 1) as nat, 64);
                }
                assert(low.take(idx + 1).drop_last() =~= low.take(idx as int));
                assert(low.take(idx + 1).last() == bit);
                assert(bit * weight <= weight) by (nonlinear_arith)
                    requires
                        bit <= 1,
                ;
            }
            asint = asint + (bit as u64) * weight;
            idx += 1;
            if idx < 64 {
                weight = weight * 2;
            }
        }
        proof {
            assert(low.take(len as int) =~= low);
        }
        asint
    }

    /// The bits as text, high-order bit first, one `'0'` or `'1'` per bit.
    pub fn get_as_string(&self) -> (text: String)
        requires
            self.wf(),
        ensures
            text@ == bit_string(self@),
    {
        let mut buf = String::new();
        let mut idx: usize = self.sequence.len();
        proof {
            reveal_strlit("0");
            reveal_strlit("1");
        }
        while idx > 0
            invariant
                idx <= self@.len(),
                buf@.len() == self@.len() - idx,
                forall|i: int| 0 <= i < buf@.len() ==> buf@[i] == bit_string(self@)[i],
                "0"@ == seq!['0'],
                "1"@ == seq!['1'],
            decreases idx,
        {
            idx -= 1;
            if self.sequence[idx] == 1 {
                buf.append("1");
            } else {
                buf.append("0");
            }
        }
        assert(buf@ =~= bit_string(self@));
        buf
    }

    /// One round of mutation with the draws given: bit `i` is flipped exactly
    /// when `draws[i] < mutrate`.
    pub fn mutate_with_draws(&mut self, mutrate: u64, draws: &Vec<u64>)
        requires
            old(self).wf(),
            draws.len() == old(self)@.len(),
        ensures
            final(self)@ == mutated(old(self)@, mutrate, draws@),
            final(self).wf(),
    {
        let mut idx: usize = 0;
        while idx < self.sequence.len()
            invariant
                idx <= self@.len(),
                self@.len() == old(self)@.len(),
                draws.len() == self@.len(),
                old(self).wf(),
                forall|i: int| 0 <= i < idx ==> self@[i] == mutated(old(self)@, mutrate, draws@)[i],
                forall|i: int| idx <= i < self@.len() ==> self@[i] == old(self)@[i],
            decreases self@.len() - idx,
        {
            if draws[idx] < mutrate {
                let bit: u32 = self.sequence[idx];
                self.sequence.set(idx, 1 - bit);
            }
            idx += 1;
        }
        assert(self@ =~= mutated(old(self)@, mutrate, draws@));
    }

    /// One round of mutation: every bit is flipped independently with
    /// probability `mutrate / UNIT`.
    ///
    /// Whatever is drawn, the result is the one `mutate_with_draws` computes
    /// from some list of draws below `UNIT`. So rate 0 changes nothing and
    /// any rate of at least `UNIT` flips every bit.
    pub fn mutate(&mut self, mutrate: u64)
        requires
            old(self).wf(),
        ensures
            exists|draws: Seq<u64>|
                mutation_draws(draws, old(self)@.len()) && final(self)@ == #[trigger] mutated(
                    old(self)@,
                    mutrate,
                    draws,
                ),
            final(self).wf(),
            final(self)@.len() == old(self)@.len(),
            mutrate == 0 ==> final(self)@ == old(self)@,
            mutrate >= UNIT ==> final(self)@ == flipped(old(self)@),
    {
        let ghost mut drawn: Seq<u64> = Seq::empty();
        let mut idx: usize = 0;
        while idx < self.sequence.len()
            invariant
                idx <= self@.len(),
                self@.len() == old(self)@.len(),
                old(self).wf(),
                mutation_draws(drawn, idx as nat),
                forall|i: int| 0 <= i < idx ==> self@[i] == mutated(old(self)@, mutrate, drawn)[i],
                forall|i: int| idx <= i < self@.len() ==> self@[i] == old(self)@[i],
            decreases self@.len() - idx,
        {
            let rn: u64 = random_below(UNIT);
            proof {
                drawn = drawn.push(rn);
            }
            if rn < mutrate {
                let bit: u32 = self.sequence[idx];
                self.sequence.set(idx, 1 - bit);
            }
            idx += 1;
        }
        proof {
            assert(self@ =~= mutated(old(self)@, mutrate, drawn));
            lemma_zero_rate_never_mutates(old(self)@, drawn);
            if mutrate >= UNIT {
                lemma_full_rate_flips_every_bit(old(self)@, mutrate, drawn);
            }
        }
    }
}

} // verus!
