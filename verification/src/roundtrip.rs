//! Reading back what the entropy coder wrote.
use vstd::arithmetic::power2::{lemma_pow2_adds, lemma_pow2_pos, lemma_pow2_unfold, pow2};
use vstd::prelude::*;

use crate::arithmetic_encoder::{
    be_value, lemma_be_value_of_be_bytes, lemma_fresh_wf, lemma_renormalized_wf, lemma_split,
    lemma_write_all_concat, lemma_write_all_wf, lemma_write_wf, split_of, Coder,
};

verus! {

/// State of a boolean entropy decoder: what is left of the code string above
/// the start of the interval is `value`, and the interval is
/// `range * 2^exponent` wide.
#[verifier::ext_equal]
pub struct Reader {
    pub value: int,
    pub range: nat,
    pub exponent: nat,
}

impl Reader {
    /// A decoder at the start of a code string.
    pub open spec fn open(code: Seq<u8>) -> Reader {
        Reader { value: be_value(code) as int, range: 255, exponent: (8 * code.len() - 8) as nat }
    }

    /// Doubles the scale until the width is at least 128; the code string
    /// continues with zero bits.
    pub open spec fn renormalized(self) -> Reader
        decreases 256 - self.range,
    {
        if self.range >= 128 || self.range == 0 {
            self
        } else if self.exponent > 0 {
            Reader {
                range: self.range * 2,
                exponent: (self.exponent - 1) as nat,
                ..self
            }.renormalized()
        } else {
            Reader { value: self.value * 2, range: self.range * 2, ..self }.renormalized()
        }
    }

    /// Where the interval is split: what lies below stands for false, in
    /// proportion to its probability `prob / 256`, and is never empty.
    pub open spec fn split(self, prob: u8) -> nat {
        ((256 + (self.range - 1) * prob as int) / 256) as nat
    }

    /// The next bit, when it is false with probability `prob / 256`.
    pub open spec fn bit(self, prob: u8) -> bool {
        self.value >= self.split(prob) * pow2(self.exponent)
    }

    /// The decoder without the part of the interval that `bit` excludes.
    pub open spec fn narrow(self, bit: bool, prob: u8) -> Reader {
        let split = self.split(prob);
        if bit {
            Reader {
                value: self.value - split * pow2(self.exponent),
                range: (self.range - split) as nat,
                ..self
            }
        } else {
            Reader { range: split, ..self }
        }
    }

    /// The decoder after the next bit.
    pub open spec fn rest(self, prob: u8) -> Reader {
        self.narrow(self.bit(prob), prob).renormalized()
    }

    /// Bits that are read with a sequence of probabilities.
    pub open spec fn read_all(self, probs: Seq<u8>) -> Seq<bool>
        decreases probs.len(),
    {
        if probs.len() == 0 {
            Seq::empty()
        } else {
            seq![self.bit(probs[0])] + self.rest(probs[0]).read_all(probs.skip(1))
        }
    }
}

/// The probabilities of a sequence of bits.
pub open spec fn probs_of(bits: Seq<(bool, u8)>) -> Seq<u8> {
    bits.map_values(|b: (bool, u8)| b.1)
}

/// The values of a sequence of bits.
pub open spec fn values_of(bits: Seq<(bool, u8)>) -> Seq<bool> {
    bits.map_values(|b: (bool, u8)| b.0)
}

/// The code point `code`, in units of `2^-(unit + 8)`, lies in the interval of `c`.
spec fn holds(c: Coder, unit: nat, code: int) -> bool {
    &&& c.shifts <= unit
    &&& c.low * pow2((unit - c.shifts) as nat) <= code
    &&& code < (c.low + c.range) * pow2((unit - c.shifts) as nat)
}

/// The decoder `r` and the coder `c` have the same interval.
spec fn in_sync(c: Coder, r: Reader, unit: nat, code: int) -> bool {
    &&& c.shifts <= unit
    &&& r.range == c.range
    &&& r.exponent == unit - c.shifts
    &&& r.value == code - c.low * pow2(r.exponent)
}

proof fn lemma_holds_before_renormalizing(c: Coder, unit: nat, code: int)
    requires
        1 <= c.range <= 255,
        holds(c.renormalized(), unit, code),
    ensures
        holds(c, unit, code),
    decreases 256 - c.range,
{
    if c.range < 128 {
        let d = Coder { low: c.low * 2, range: c.range * 2, shifts: c.shifts + 1 };
        lemma_holds_before_renormalizing(d, unit, code);
        let e = (unit - d.shifts) as nat;
        lemma_pow2_unfold(e + 1);
        assert((unit - c.shifts) as nat == e + 1);
        let p = pow2(e);
        assert((c.low * 2) * p == c.low * (2 * p)) by (nonlinear_arith);
        assert((c.low * 2 + c.range * 2) * p == (c.low + c.range) * (2 * p)) by (nonlinear_arith);
    }
}

proof fn lemma_holds_before_write(c: Coder, bit: bool, prob: u8, unit: nat, code: int)
    requires
        c.wf(),
        holds(c.write(bit, prob), unit, code),
    ensures
        holds(c.narrow(bit, prob), unit, code),
        holds(c, unit, code),
{
    lemma_split(c.range, prob);
    let n = c.narrow(bit, prob);
    lemma_holds_before_renormalizing(n, unit, code);
    let p = pow2((unit - c.shifts) as nat);
    let s = split_of(c.range, prob);
    assert(c.low * p <= (c.low + s) * p && (c.low + s) * p <= (c.low + c.range) * p)
        by (nonlinear_arith)
        requires
            0 <= s <= c.range,
            p >= 0,
    ;
}

proof fn lemma_holds_before_all(c: Coder, bits: Seq<(bool, u8)>, unit: nat, code: int)
    requires
        c.wf(),
        holds(c.write_all(bits), unit, code),
    ensures
        holds(c, unit, code),
    decreases bits.len(),
{
    if bits.len() > 0 {
        lemma_write_all_wf(c, bits.drop_last());
        lemma_holds_before_write(
            c.write_all(bits.drop_last()),
            bits.last().0,
            bits.last().1,
            unit,
            code,
        );
        lemma_holds_before_all(c, bits.drop_last(), unit, code);
    }
}

proof fn lemma_sync_renormalized(c: Coder, r: Reader, unit: nat, code: int)
    requires
        1 <= c.range <= 255,
        c.low + c.range <= pow2(c.shifts + 8),
        in_sync(c, r, unit, code),
        c.renormalized().shifts <= unit,
    ensures
        in_sync(c.renormalized(), r.renormalized(), unit, code),
    decreases 256 - c.range,
{
    if c.range < 128 {
        let d = Coder { low: c.low * 2, range: c.range * 2, shifts: c.shifts + 1 };
        lemma_pow2_unfold(c.shifts + 9);
        lemma_renormalized_wf(d);
        assert(c.renormalized() == d.renormalized());
        lemma_pow2_unfold(r.exponent);
        let p = pow2((r.exponent - 1) as nat);
        assert((c.low * 2) * p == c.low * (2 * p)) by (nonlinear_arith);
        let q = Reader { range: r.range * 2, exponent: (r.exponent - 1) as nat, ..r };
        lemma_sync_renormalized(d, q, unit, code);
    }
}

proof fn lemma_read_all(c: Coder, r: Reader, bits: Seq<(bool, u8)>, unit: nat, code: int)
    requires
        c.wf(),
        in_sync(c, r, unit, code),
        holds(c.write_all(bits), unit, code),
    ensures
        r.read_all(probs_of(bits)) == values_of(bits),
    decreases bits.len(),
{
    if bits.len() == 0 {
        assert(r.read_all(probs_of(bits)) =~= values_of(bits));
    } else {
        let (bit, prob) = bits[0];
        let tail = bits.skip(1);
        let one = seq![bits[0]];
        assert(bits =~= one + tail);
        lemma_write_all_concat(c, one, tail);
        assert(one.drop_last() =~= Seq::<(bool, u8)>::empty());
        assert(c.write_all(one.drop_last()) == c);
        let d = c.write(bit, prob);
        assert(c.write_all(one) == d);
        lemma_write_wf(c, bit, prob);
        lemma_holds_before_all(d, tail, unit, code);
        lemma_holds_before_write(c, bit, prob, unit, code);
        lemma_split(c.range, prob);
        let s = split_of(c.range, prob);
        let p = pow2(r.exponent);
        assert((c.low + s) * p == c.low * p + s * p) by (nonlinear_arith);
        assert(r.bit(prob) == bit);
        let n = c.narrow(bit, prob);
        assert(in_sync(n, r.narrow(bit, prob), unit, code));
        lemma_sync_renormalized(n, r.narrow(bit, prob), unit, code);
        lemma_read_all(d, r.rest(prob), tail, unit, code);
        assert(probs_of(bits)[0] == prob);
        assert(probs_of(bits).skip(1) =~= probs_of(tail));
        assert(values_of(bits) =~= seq![bit] + values_of(tail));
    }
}

/// A decoder that is given the same probabilities reads back every bit that
/// was written.
pub proof fn law_decoder_reads_what_was_written(bits: Seq<(bool, u8)>)
    ensures
        Reader::open(Coder::fresh().write_all(bits).flushed()).read_all(probs_of(bits)) == values_of(
            bits,
        ),
{
    let start = Coder::fresh();
    let end = start.write_all(bits);
    lemma_fresh_wf();
    lemma_write_all_wf(start, bits);
    let len = end.whole_bytes();
    let pad = (8 * len + 24 - end.shifts) as nat;
    let unit = 8 * len + 24;
    let code = end.low * pow2(pad);
    lemma_pow2_pos(pad);
    lemma_pow2_adds(end.shifts + 8, pad);
    assert(end.shifts + 8 + pad == 8 * (len + 4));
    assert(code < (end.low + end.range) * pow2(pad) && (end.low + end.range) * pow2(pad) <= pow2(
        8 * (len + 4),
    )) by (nonlinear_arith)
        requires
            code == end.low * pow2(pad),
            end.range >= 1,
            pow2(pad) >= 1,
            end.low + end.range <= pow2(end.shifts + 8),
            pow2(end.shifts + 8) * pow2(pad) == pow2(8 * (len + 4)),
    ;
    lemma_be_value_of_be_bytes(code, len + 4);
    let r = Reader::open(end.flushed());
    assert(0 * pow2(r.exponent) == 0) by (nonlinear_arith);
    lemma_read_all(start, r, bits, unit, code as int);
}

/// The code string holds the start of the interval and ends one or two bytes
/// behind the last bit that was shifted out; a short one has four bytes.
pub proof fn law_code_string_is_padded(c: Coder)
    requires
        c.wf(),
    ensures
        ({
            let bits = 8 * c.flushed().len();
            &&& c.shifts < 24 ==> bits == 32
            &&& c.shifts >= 24 ==> c.shifts + 8 < bits <= c.shifts + 16
            &&& be_value(c.flushed()) == c.low * pow2((bits - c.shifts - 8) as nat)
        }),
{
    let len = c.whole_bytes();
    let gap = (8 * len + 24 - c.shifts) as nat;
    lemma_pow2_adds((c.shifts + 8) as nat, gap);
    lemma_pow2_pos(gap);
    let p = pow2(gap);
    assert(c.low * p < pow2(c.shifts + 8) * p) by (nonlinear_arith)
        requires
            c.low < pow2(c.shifts + 8),
            p > 0,
    ;
    lemma_be_value_of_be_bytes(c.low * p, len + 4);
}

} // verus!
