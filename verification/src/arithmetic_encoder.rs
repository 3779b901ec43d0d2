//! The boolean entropy coder of VP8.
//!
//! The coder narrows an interval of the unit interval: every written bit keeps
//! one of the two parts into which its probability splits the interval. The
//! contracts speak of that interval ([`Coder`]); the bytes only appear when
//! the coder is flushed.
use vstd::arithmetic::power2::{lemma_pow2_adds, lemma_pow2_pos, lemma_pow2_unfold, pow2};
use vstd::prelude::*;

verus! {

/// Number that `bytes` hold when they are read with the most significant byte first.
pub open spec fn be_value(bytes: Seq<u8>) -> nat
    decreases bytes.len(),
{
    if bytes.len() == 0 {
        0
    } else {
        be_value(bytes.drop_last()) * 256 + bytes.last() as nat
    }
}

/// The `count` low bytes of `value`, most significant byte first.
pub open spec fn be_bytes(value: nat, count: nat) -> Seq<u8>
    decreases count,
{
    if count == 0 {
        Seq::empty()
    } else {
        be_bytes(value / 256, (count - 1) as nat).push((value % 256) as u8)
    }
}

pub proof fn lemma_be_value_concat(a: Seq<u8>, b: Seq<u8>)
    ensures
        be_value(a + b) == be_value(a) * pow2(8 * b.len()) + be_value(b),
    decreases b.len(),
{
    if b.len() == 0 {
        assert(a + b =~= a);
        vstd::arithmetic::power2::lemma2_to64();
        assert(8 * b.len() == 0);
        assert(be_value(a) * 1 == be_value(a));
    } else {
        let c = b.drop_last();
        assert((a + b).last() == b.last());
        assert((a + b).drop_last() =~= a + c);
        lemma_be_value_concat(a, c);
        lemma_pow2_adds(8 * c.len(), 8);
        vstd::arithmetic::power2::lemma2_to64();
        let p = pow2(8 * c.len());
        assert(8 * b.len() == 8 * c.len() + 8);
        assert((be_value(a) * p + be_value(c)) * 256 == be_value(a) * (p * 256) + be_value(c) * 256)
            by (nonlinear_arith);
    }
}

pub proof fn lemma_be_value_bound(s: Seq<u8>)
    ensures
        be_value(s) < pow2(8 * s.len()),
    decreases s.len(),
{
    vstd::arithmetic::power2::lemma2_to64();
    if s.len() > 0 {
        let c = s.drop_last();
        lemma_be_value_bound(c);
        lemma_pow2_adds(8 * c.len(), 8);
        assert(8 * s.len() == 8 * c.len() + 8);
    }
}

proof fn lemma_be_value_uniform(s: Seq<u8>, b: u8)
    requires
        b == 0 || b == 255,
        forall|i: int| 0 <= i < s.len() ==> s[i] == b,
    ensures
        b == 0 ==> be_value(s) == 0,
        b == 255 ==> be_value(s) == pow2(8 * s.len()) - 1,
    decreases s.len(),
{
    vstd::arithmetic::power2::lemma2_to64();
    if s.len() > 0 {
        let c = s.drop_last();
        lemma_be_value_uniform(c, b);
        lemma_pow2_adds(8 * c.len(), 8);
        assert(8 * s.len() == 8 * c.len() + 8);
    }
}

/// Reading back the bytes of a number that fits gives the number.
pub proof fn lemma_be_value_of_be_bytes(value: nat, count: nat)
    requires
        value < pow2(8 * count),
    ensures
        be_bytes(value, count).len() == count,
        be_value(be_bytes(value, count)) == value,
    decreases count,
{
    vstd::arithmetic::power2::lemma2_to64();
    if count > 0 {
        let c = (count - 1) as nat;
        lemma_pow2_adds(8 * c, 8);
        assert(8 * count == 8 * c + 8);
        assert(value / 256 < pow2(8 * c)) by {
            assert(value < pow2(8 * c) * 256);
        }
        lemma_be_value_of_be_bytes(value / 256, c);
        let s = be_bytes(value, count);
        assert(s.drop_last() =~= be_bytes(value / 256, c));
    }
}

/// A byte string is the big endian form of its value.
proof fn lemma_be_bytes_of_be_value(s: Seq<u8>)
    ensures
        be_bytes(be_value(s), s.len()) == s,
    decreases s.len(),
{
    if s.len() > 0 {
        lemma_be_bytes_of_be_value(s.drop_last());
        let v = be_value(s);
        assert(v / 256 == be_value(s.drop_last()));
        assert(v % 256 == s.last() as nat);
        assert(be_bytes(v, s.len()) =~= s);
    } else {
        assert(be_bytes(0, 0) =~= s);
    }
}

/// State of the coder: after `shifts` doublings the interval is `range` wide
/// and starts at `low`, in units of `2^-(shifts + 8)`.
#[verifier::ext_equal]
pub struct Coder {
    pub low: nat,
    pub range: nat,
    pub shifts: nat,
}

/// Width of the part of a `range` wide interval that stands for `false`, when
/// `false` has probability `prob / 256`.
pub open spec fn split_of(range: nat, prob: u8) -> nat {
    (1 + (range - 1) * prob as int / 256) as nat
}

impl Coder {
    pub open spec fn fresh() -> Coder {
        Coder { low: 0, range: 255, shifts: 0 }
    }

    /// The interval lies inside the unit interval and has its nominal width.
    pub open spec fn wf(self) -> bool {
        &&& 128 <= self.range <= 255
        &&& self.low + self.range <= pow2(self.shifts + 8)
    }

    /// Keeps the part of the interval that stands for `bit`.
    pub open spec fn narrow(self, bit: bool, prob: u8) -> Coder {
        let split = split_of(self.range, prob);
        if bit {
            Coder { low: self.low + split, range: (self.range - split) as nat, ..self }
        } else {
            Coder { range: split, ..self }
        }
    }

    /// Doubles the scale until the width is at least 128.
    pub open spec fn renormalized(self) -> Coder
        decreases 256 - self.range,
    {
        if self.range >= 128 || self.range == 0 {
            self
        } else {
            Coder {
                low: self.low * 2,
                range: self.range * 2,
                shifts: self.shifts + 1,
            }.renormalized()
        }
    }

    /// The coder after one more bit.
    pub open spec fn write(self, bit: bool, prob: u8) -> Coder {
        self.narrow(bit, prob).renormalized()
    }

    /// The coder after a sequence of bits, each with its probability.
    pub open spec fn write_all(self, bits: Seq<(bool, u8)>) -> Coder
        decreases bits.len(),
    {
        if bits.len() == 0 {
            self
        } else {
            self.write_all(bits.drop_last()).write(bits.last().0, bits.last().1)
        }
    }

    /// Number of bytes that are complete, up to a carry.
    pub open spec fn whole_bytes(self) -> nat {
        if self.shifts < 24 {
            0
        } else {
            (self.shifts - 16) as nat / 8
        }
    }

    /// The code string: the start of the interval, padded with zero bits to
    /// four bytes more than the complete ones.
    pub open spec fn flushed(self) -> Seq<u8> {
        be_bytes(
            self.low * pow2((8 * self.whole_bytes() + 24 - self.shifts) as nat),
            self.whole_bytes() + 4,
        )
    }
}

pub proof fn lemma_split(range: nat, prob: u8)
    requires
        2 <= range <= 255,
    ensures
        1 <= split_of(range, prob) <= range - 1,
{
    assert(0 <= (range - 1) * prob as int <= (range - 1) * 255) by (nonlinear_arith)
        requires
            2 <= range,
            prob <= 255,
    ;
}

pub proof fn lemma_write_all_concat(c: Coder, a: Seq<(bool, u8)>, b: Seq<(bool, u8)>)
    ensures
        c.write_all(a + b) == c.write_all(a).write_all(b),
    decreases b.len(),
{
    if b.len() == 0 {
        assert(a + b =~= a);
    } else {
        assert((a + b).drop_last() =~= a + b.drop_last());
        lemma_write_all_concat(c, a, b.drop_last());
    }
}

pub proof fn lemma_write_all_push(c: Coder, a: Seq<(bool, u8)>, bit: bool, prob: u8)
    ensures
        c.write_all(a.push((bit, prob))) == c.write_all(a).write(bit, prob),
{
    assert(a.push((bit, prob)).drop_last() =~= a);
}

pub proof fn lemma_renormalized_wf(c: Coder)
    requires
        1 <= c.range <= 255,
        c.low + c.range <= pow2(c.shifts + 8),
    ensures
        c.renormalized().wf(),
        c.renormalized().shifts >= c.shifts,
    decreases 256 - c.range,
{
    if c.range < 128 {
        lemma_pow2_unfold(c.shifts + 9);
        lemma_renormalized_wf(Coder { low: c.low * 2, range: c.range * 2, shifts: c.shifts + 1 });
    }
}

/// Writing a bit keeps the interval well formed.
pub proof fn lemma_write_wf(c: Coder, bit: bool, prob: u8)
    requires
        c.wf(),
    ensures
        c.write(bit, prob).wf(),
        c.write(bit, prob).shifts >= c.shifts,
{
    lemma_split(c.range, prob);
    lemma_renormalized_wf(c.narrow(bit, prob));
}

pub proof fn lemma_write_all_wf(c: Coder, bits: Seq<(bool, u8)>)
    requires
        c.wf(),
    ensures
        c.write_all(bits).wf(),
    decreases bits.len(),
{
    if bits.len() > 0 {
        lemma_write_all_wf(c, bits.drop_last());
        lemma_write_wf(c.write_all(bits.drop_last()), bits.last().0, bits.last().1);
    }
}

pub proof fn lemma_fresh_wf()
    ensures
        Coder::fresh().wf(),
{
    vstd::arithmetic::power2::lemma2_to64();
}

/// Bits of a plain number, most significant first, each value equally likely.
pub open spec fn literal_bits(num_bits: nat, value: u8) -> Seq<(bool, u8)> {
    Seq::new(num_bits, |i: int| ((value as nat / pow2((num_bits - 1 - i) as nat)) % 2 == 1, 128u8))
}

/// One equally likely bit.
pub open spec fn flag_bits(flag: bool) -> Seq<(bool, u8)> {
    seq![(flag, 128u8)]
}

/// Presence flag, then magnitude and sign of a value that is present.
pub open spec fn optional_signed_bits(num_bits: nat, value: Option<i8>) -> Seq<(bool, u8)> {
    match value {
        None => flag_bits(false),
        Some(v) => flag_bits(true) + literal_bits(
            num_bits,
            (if v < 0 { -(v as int) } else { v as int }) as u8,
        ) + flag_bits(v < 0),
    }
}

/// Index of the first entry of `s` that equals `x`.
pub open spec fn is_first(s: Seq<i8>, x: i8, p: int) -> bool {
    &&& 0 <= p < s.len()
    &&& s[p] == x
    &&& forall|j: int| 0 <= j < p ==> s[j] != x
}

/// Whether some entry of `s` equals `x`.
pub open spec fn occurs(s: Seq<i8>, x: i8) -> bool {
    exists|p: int| is_first(s, x, p)
}

pub open spec fn first_index(s: Seq<i8>, x: i8) -> int {
    choose|p: int| is_first(s, x, p)
}

pub proof fn lemma_first_index(s: Seq<i8>, x: i8, p: int)
    requires
        is_first(s, x, p),
    ensures
        occurs(s, x),
        first_index(s, x) == p,
{
    let q = first_index(s, x);
    assert(is_first(s, x, q));
    if q < p {
        assert(s[q] != x);
    } else if p < q {
        assert(s[p] != x);
    }
}

/// Bit that is written at the tree position `index`, with the index of its probability.
pub open spec fn branch_at(index: int) -> (bool, int) {
    (index % 2 == 1, index / 2)
}

/// Branches from `start_index` down to the tree position `index`, found by
/// climbing from node to parent; `None` when the climb does not get there
/// within `fuel` nodes.
pub open spec fn climb(tree: Seq<i8>, index: int, start_index: int, fuel: nat) -> Option<
    Seq<(bool, int)>,
>
    decreases fuel,
{
    if fuel == 0 {
        None
    } else if index == start_index {
        Some(seq![(false, index / 2)])
    } else if index == start_index + 1 {
        Some(seq![(true, index / 2)])
    } else {
        let node = (index - index % 2) as i8;
        if occurs(tree, node) {
            match climb(tree, first_index(tree, node), start_index, (fuel - 1) as nat) {
                Some(path) => Some(path.push(branch_at(index))),
                None => None,
            }
        } else {
            None
        }
    }
}

/// Whether `value` is a leaf of `tree` below `start_index`.
pub open spec fn has_path(tree: Seq<i8>, value: i8, start_index: int) -> bool {
    &&& value >= 0
    &&& occurs(tree, (-value) as i8)
    &&& climb(tree, first_index(tree, (-value) as i8), start_index, tree.len()) is Some
}

/// Branches that lead from `start_index` to the leaf that holds `value`.
pub open spec fn tree_path(tree: Seq<i8>, value: i8, start_index: int) -> Seq<(bool, int)> {
    climb(tree, first_index(tree, (-value) as i8), start_index, tree.len()).unwrap()
}

/// Following `path` down from `start_index` ends in the leaf that holds
/// `value`: each branch is taken at the node that the one before leads to.
pub open spec fn leads_to(
    tree: Seq<i8>,
    start_index: int,
    path: Seq<(bool, int)>,
    value: i8,
) -> bool {
    &&& path.len() > 0
    &&& path[0].1 * 2 == start_index - start_index % 2
    &&& forall|k: int|
        #![trigger path[k]]
        0 <= k < path.len() - 1 ==> tree[position(path[k])] == (path[k + 1].1 * 2) as i8
    &&& tree[position(path.last())] == (-value) as i8
}

/// Tree position of a branch.
pub open spec fn position(branch: (bool, int)) -> int {
    2 * branch.1 + if branch.0 { 1int } else { 0 }
}

/// Bits of a symbol that is coded with a tree.
pub open spec fn tree_bits(
    tree: Seq<i8>,
    probabilities: Seq<u8>,
    value: i8,
    start_index: int,
) -> Seq<(bool, u8)> {
    tree_path(tree, value, start_index).map_values(|b: (bool, int)| (b.0, probabilities[b.1]))
}

/// Boolean entropy encoder.
pub struct ArithmeticEncoder {
    /// the bytes that are complete, up to a carry
    pub writer: Vec<u8>,
    /// value of the bytes that are being encoded
    pub bottom: u32,
    /// the width of the interval, from 128 to 255 between writes
    pub range: u32,
    /// number of bits still missing from the current byte
    pub bit_num: i32,
}

impl View for ArithmeticEncoder {
    type V = Coder;

    open spec fn view(&self) -> Coder {
        Coder {
            low: be_value(self.writer@) * pow2((32 - self.bit_num) as nat) + self.bottom as nat,
            range: self.range as nat,
            shifts: (8 * self.writer@.len() + 24 - self.bit_num) as nat,
        }
    }
}

impl ArithmeticEncoder {
    /// What holds while the width is being doubled.
    pub closed spec fn in_step(self) -> bool {
        &&& 1 <= self.range <= 255
        &&& 1 <= self.bit_num <= 24
        &&& (self.bit_num <= 8 || self.writer@.len() == 0)
        &&& self.bottom + self.range <= pow2((33 - self.bit_num) as nat)
        &&& self@.low + self@.range <= pow2(self@.shifts + 8)
    }

    /// Valid between writes.
    pub open spec fn wf(self) -> bool {
        &&& 128 <= self.range <= 255
        &&& 1 <= self.bit_num <= 24
        &&& self.in_step()
    }

    pub fn new() -> (encoder: Self)
        ensures
            encoder.wf(),
            encoder@ == Coder::fresh(),
            encoder.writer@ == Seq::<u8>::empty(),
            encoder.bottom == 0,
            encoder.range == 255,
            encoder.bit_num == 24,
    {
        proof {
            vstd::arithmetic::power2::lemma2_to64();
        }
        let encoder = ArithmeticEncoder { writer: Vec::new(), bottom: 0, range: 255, bit_num: 24 };
        assert(be_value(encoder.writer@) == 0);
        assert(0 * pow2(8) == 0) by (nonlinear_arith);
        encoder
    }

    /// Adds a carry to the bytes written so far: every byte that is saturated
    /// becomes zero and hands the carry on, the first other byte takes it.
    pub fn add_one_to_output(&mut self)
        ensures
            final(self).writer@.len() == old(self).writer@.len(),
            be_value(final(self).writer@) == (be_value(old(self).writer@) + 1) % pow2(
                8 * old(self).writer@.len(),
            ),
            final(self).bottom == old(self).bottom,
            final(self).range == old(self).range,
            final(self).bit_num == old(self).bit_num,
    {
        let ghost s = self.writer@;
        let ghost n = s.len() as int;
        let mut i: usize = self.writer.len();
        while i > 0
            invariant
                i <= n,
                n == s.len(),
                self.writer@.len() == n,
                forall|j: int| 0 <= j < i ==> self.writer@[j] == s[j],
                forall|j: int| i <= j < n ==> self.writer@[j] == 0,
                forall|j: int| i <= j < n ==> s[j] == 255,
                self.bottom == old(self).bottom,
                self.range == old(self).range,
                self.bit_num == old(self).bit_num,
                s == old(self).writer@,
            decreases i,
        {
            i = i - 1;
            let value: u8 = self.writer[i];
            if value == 255 {
                self.writer.set(i, 0);
            } else {
                self.writer.set(i, value + 1);
                proof {
                    let t = self.writer@;
                    let k = i as int + 1;
                    let head = s.take(i as int);
                    assert(s =~= (head + seq![value]) + s.skip(k));
                    assert(t =~= (head + seq![(value + 1) as u8]) + t.skip(k));
                    lemma_be_value_concat(head + seq![value], s.skip(k));
                    lemma_be_value_concat(head + seq![(value + 1) as u8], t.skip(k));
                    lemma_be_value_uniform(s.skip(k), 255);
                    lemma_be_value_uniform(t.skip(k), 0);
                    assert((head + seq![value]).drop_last() =~= head);
                    assert((head + seq![(value + 1) as u8]).drop_last() =~= head);
                    let p = pow2(8 * s.skip(k).len());
                    let a = be_value(head + seq![value]);
                    assert(be_value(head + seq![(value + 1) as u8]) == a + 1);
                    assert((a + 1) * p == a * p + p) by (nonlinear_arith);
                    lemma_be_value_bound(t);
                    assert(be_value(t) == be_value(s) + 1);
                    vstd::arithmetic::div_mod::lemma_small_mod(
                        be_value(t),
                        pow2(8 * s.len()),
                    );
                }
                return ;
            }
        }
        proof {
            lemma_be_value_uniform(s, 255);
            lemma_be_value_uniform(self.writer@, 0);
            lemma_pow2_pos(8 * s.len());
            vstd::arithmetic::div_mod::lemma_mod_self_0(pow2(8 * s.len()) as int);
        }
    }

    /// Writes one bit whose two values are equally likely.
    pub fn write_flag(&mut self, flag_bool: bool)
        requires
            old(self).wf(),
        ensures
            final(self).wf(),
            final(self)@ == old(self)@.write_all(flag_bits(flag_bool)),
            final(self).writer@.len() >= old(self).writer@.len(),
    {
        self.write_bool(flag_bool, 128);
        proof {
            let c = old(self)@;
            assert(flag_bits(flag_bool).drop_last() =~= Seq::<(bool, u8)>::empty());
            assert(c.write_all(Seq::<(bool, u8)>::empty()) == c);
        }
    }

    /// Writes one bit that is false with probability `probability / 256`.
    pub fn write_bool(&mut self, bool_to_write: bool, probability: u8)
        requires
            old(self).wf(),
        ensures
            final(self).wf(),
            final(self)@ == old(self)@.write(bool_to_write, probability),
            final(self).writer@.len() >= old(self).writer@.len(),
    {
        proof {
            lemma_split(self@.range, probability);
            let r = (self.range - 1) as u32;
            let p = probability as u32;
            assert(r * p <= 254 * 255) by (nonlinear_arith)
                requires
                    0 <= r <= 254,
                    0 <= p <= 255,
            ;
            let m = (r * p) as u32;
            assert(m >> 8 == m / 256) by (bit_vector);
        }
        let split: u32 = 1 + (((self.range - 1) * (probability as u32)) >> 8);
        assert(split == split_of(self@.range, probability));
        let ghost target = self@.narrow(bool_to_write, probability);
        proof {
            let k = (33 - self.bit_num) as nat;
            if k < 32 {
                vstd::arithmetic::power2::lemma_pow2_strictly_increases(k, 32);
            }
            vstd::arithmetic::power2::lemma2_to64();
        }
        if bool_to_write {
            self.bottom = self.bottom + split;
            self.range = self.range - split;
        } else {
            self.range = split;
        }
        assert(self@ == target);
        while self.range < 128
            invariant
                self.in_step(),
                self.writer@.len() >= old(self).writer@.len(),
                self@.renormalized() == target.renormalized(),
            decreases 256 - self.range,
        {
            let ghost before = *self;
            let ghost k = (32 - self.bit_num) as nat;
            let ghost w = be_value(self.writer@);
            proof {
                self.lemma_carry();
                let b = self.bottom;
                let r = self.range;
                assert(b & (1u32 << 31) != 0 <==> b >= 0x8000_0000u32) by (bit_vector);
                assert(b < 0x8000_0000u32 ==> (b << 1) == 2 * b) by (bit_vector);
                assert(b >= 0x8000_0000u32 ==> (b << 1) == 2 * b - 0x1_0000_0000) by (bit_vector);
                assert(r < 128 ==> (r << 1) == 2 * r) by (bit_vector);
                vstd::arithmetic::power2::lemma2_to64();
                lemma_pow2_unfold(k + 1);
                lemma_pow2_unfold(k + 2);
                lemma_pow2_unfold(self@.shifts + 9);
            }
            self.range = self.range << 1;
            if self.bottom & (1u32 << 31) != 0 {
                self.add_one_to_output();
            }
            let ghost w1 = be_value(self.writer@);
            self.bottom = self.bottom << 1;
            self.bit_num = self.bit_num - 1;
            let ghost b1 = self.bottom;
            assert(w1 * pow2(k + 1) + b1 == 2 * before@.low) by (nonlinear_arith)
                requires
                    before@.low == w * pow2(k) + before.bottom,
                    pow2(k + 1) == 2 * pow2(k),
                    (w1 == w && b1 == 2 * before.bottom) || (w1 == w + 1 && b1 + pow2(k + 1) == 2
                        * before.bottom),
            ;
            if self.bit_num == 0 {
                let new_value: u8 = (self.bottom >> 24) as u8;
                proof {
                    let b = self.bottom;
                    assert(b >> 24 <= 255) by (bit_vector);
                    assert(1u32 << 24 == 0x100_0000u32) by (bit_vector);
                    assert(b == (b >> 24) * 0x100_0000 + (b & 0xff_ffffu32)) by (bit_vector);
                    assert((b & 0xff_ffffu32) < 0x100_0000) by (bit_vector);
                    assert(self.writer@.push((b >> 24) as u8).drop_last() =~= self.writer@);
                }
                self.writer.push(new_value);
                self.bottom = self.bottom & ((1u32 << 24) - 1);
                self.bit_num = 8;
                proof {
                    assert(self.writer@.drop_last() =~= self.writer@.take(
                        self.writer@.len() - 1,
                    ));
                    assert((w1 * 256 + new_value) * pow2(24) == w1 * pow2(32) + new_value * pow2(24))
                        by (nonlinear_arith)
                        requires
                            pow2(32) == 256 * pow2(24),
                    ;
                    assert(k + 1 == 32);
                    assert(self@.low == 2 * before@.low);
                }
            }
            assert(self@.low == 2 * before@.low);
            assert(self@.range == 2 * before@.range);
            assert(self@.shifts == before@.shifts + 1);
        }
    }

    /// Writes the `num_bits` low bits of `value`, most significant first.
    pub fn write_literal(&mut self, num_bits: u8, value: u8)
        requires
            old(self).wf(),
            num_bits <= 8,
        ensures
            final(self).wf(),
            final(self)@ == old(self)@.write_all(literal_bits(num_bits as nat, value)),
            final(self).writer@.len() >= old(self).writer@.len(),
    {
        let ghost all = literal_bits(num_bits as nat, value);
        let mut bit: u8 = num_bits;
        assert(all.take(0) =~= Seq::<(bool, u8)>::empty());
        while bit > 0
            invariant
                self.wf(),
                self.writer@.len() >= old(self).writer@.len(),
                bit <= num_bits <= 8,
                all == literal_bits(num_bits as nat, value),
                self@ == old(self)@.write_all(all.take((num_bits - bit) as int)),
            decreases bit,
        {
            bit = bit - 1;
            let bool_encode = (1u8 << bit) & value > 0;
            proof {
                assert(((1u8 << bit) & value > 0) <==> (value >> bit) % 2 == 1) by (bit_vector)
                    requires
                        bit < 8,
                ;
                vstd::bits::lemma_u8_shr_is_div(value, bit);
                let k = (num_bits - bit) as int;
                assert(all.take(k) =~= all.take(k - 1).push((bool_encode, 128u8)));
                lemma_write_all_push(old(self)@, all.take(k - 1), bool_encode, 128);
            }
            self.write_bool(bool_encode, 128);
        }
        assert(all.take(num_bits as int) =~= all);
    }

    /// Writes a presence flag, then the magnitude and the sign of a value
    /// that is present; the sign bit is set for a negative value.
    pub fn write_optional_signed_value(&mut self, num_bits: u8, value: Option<i8>)
        requires
            old(self).wf(),
            num_bits <= 8,
        ensures
            final(self).wf(),
            final(self)@ == old(self)@.write_all(optional_signed_bits(num_bits as nat, value)),
            final(self).writer@.len() >= old(self).writer@.len(),
    {
        self.write_flag(value.is_some());
        if let Some(value) = value {
            let abs_value: u8 = if value < 0 {
                (-(value as i16)) as u8
            } else {
                value as u8
            };
            self.write_literal(num_bits, abs_value);
            self.write_flag(value < 0);
            proof {
                let a = flag_bits(true);
                let b = literal_bits(num_bits as nat, abs_value);
                lemma_write_all_concat(old(self)@, a, b);
                lemma_write_all_concat(old(self)@, a + b, flag_bits(value < 0));
            }
        }
    }

    /// Writes `value` with the code that `tree` and its node probabilities describe.
    pub fn write_with_tree(&mut self, tree: &[i8], probabilities: &[u8], value: i8)
        requires
            old(self).wf(),
            tree@.len() == probabilities@.len() * 2,
            has_path(tree@, value, 0),
        ensures
            final(self).wf(),
            final(self)@ == old(self)@.write_all(tree_bits(tree@, probabilities@, value, 0)),
            final(self).writer@.len() >= old(self).writer@.len(),
    {
        self.write_with_tree_start_index(tree, probabilities, value, 0);
    }

    /// Writes the branches that lead from `start_index` to `value`.
    pub fn write_with_tree_start_index(
        &mut self,
        tree: &[i8],
        probabilities: &[u8],
        value: i8,
        start_index: usize,
    )
        requires
            old(self).wf(),
            tree@.len() == probabilities@.len() * 2,
            has_path(tree@, value, start_index as int),
        ensures
            final(self).wf(),
            final(self)@ == old(self)@.write_all(
                tree_bits(tree@, probabilities@, value, start_index as int),
            ),
            final(self).writer@.len() >= old(self).writer@.len(),
    {
        let path = tree_encode_path(tree, value, start_index);
        let ghost all = tree_bits(tree@, probabilities@, value, start_index as int);
        proof {
            lemma_climb(
                tree@,
                first_index(tree@, (-value) as i8),
                start_index as int,
                tree@.len(),
            );
            assert(path@.len() == all.len());
            assert forall|k: int| 0 <= k < path@.len() implies all[k] == (
                path@[k].0,
                probabilities@[path@[k].1 as int],
            ) && path@[k].1 < probabilities@.len() by {
                assert(plain_path(path@)[k] == (path@[k].0, path@[k].1 as int));
            }
        }
        let mut i: usize = 0;
        assert(all.take(0) =~= Seq::<(bool, u8)>::empty());
        while i < path.len()
            invariant
                self.wf(),
                self.writer@.len() >= old(self).writer@.len(),
                i <= path@.len() == all.len(),
                forall|k: int|
                    0 <= k < path@.len() ==> (#[trigger] all[k]) == (
                        path@[k].0,
                        probabilities@[path@[k].1 as int],
                    ) && path@[k].1 < probabilities@.len(),
                self@ == old(self)@.write_all(all.take(i as int)),
            decreases path@.len() - i,
        {
            let (encode_bool, prob_index) = path[i];
            proof {
                assert(all[i as int] == (path@[i as int].0, probabilities@[path@[i as int].1 as int]));
                assert(all.take(i + 1) =~= all.take(i as int).push(all[i as int]));
                lemma_write_all_push(
                    old(self)@,
                    all.take(i as int),
                    all[i as int].0,
                    all[i as int].1,
                );
            }
            self.write_bool(encode_bool, probabilities[prob_index]);
            i = i + 1;
        }
        assert(all.take(i as int) =~= all);
    }

    /// Completes the code string and gives up the encoder.
    pub fn flush_and_get_buffer(self) -> (buffer: Vec<u8>)
        requires
            self.wf(),
        ensures
            buffer@ == self@.flushed(),
    {
        let mut encoder = self;
        let bits: u32 = encoder.bit_num as u32;
        proof {
            encoder.lemma_flush();
            let s: u32 = (32 - bits) as u32;
            assert(1u32 << s > 0) by (bit_vector)
                requires
                    8 <= s <= 31,
            ;
        }
        if encoder.bottom & (1u32 << (32 - bits)) != 0 {
            encoder.add_one_to_output();
        }
        let v: u32 = encoder.bottom << bits;
        let ghost w = encoder.writer@;
        proof {
            assert(be_value(w) * pow2(32) + v as nat == self@.low * pow2(self.bit_num as nat));
            assert(v == ((v >> 24) as u8) * 0x100_0000 + ((v >> 16) as u8) * 0x1_0000 + ((v >> 8) as u8)
                * 0x100 + (v as u8)) by (bit_vector);
        }
        encoder.writer.push((v >> 24) as u8);
        encoder.writer.push((v >> 16) as u8);
        encoder.writer.push((v >> 8) as u8);
        encoder.writer.push(v as u8);
        proof {
            let tail = seq![(v >> 24) as u8, (v >> 16) as u8, (v >> 8) as u8, v as u8];
            assert(encoder.writer@ =~= w + tail);
            lemma_be_value_concat(w, tail);
            reveal_with_fuel(be_value, 5);
            assert(tail.drop_last().drop_last().drop_last().drop_last() =~= Seq::<u8>::empty());
            assert(be_value(tail) == v as nat);
            lemma_be_bytes_of_be_value(encoder.writer@);
            assert(self@.whole_bytes() == w.len());
        }
        encoder.writer
    }

    proof fn lemma_flush(self)
        requires
            self.wf(),
        ensures
            ({
                let n = self.bit_num as u32;
                let s = (32 - n) as u32;
                let w = be_value(self.writer@);
                let carry = self.bottom & (1u32 << s) != 0;
                let v = self.bottom << n;
                let total = self@.low * pow2(self.bit_num as nat);
                &&& carry ==> (w + 1) % pow2(8 * self.writer@.len()) == w + 1 && (w + 1) * pow2(32)
                    + v as nat == total
                &&& !carry ==> w * pow2(32) + v as nat == total
            }),
    {
        let n = self.bit_num as u32;
        let k = (32 - n) as u32;
        let b = self.bottom;
        let w = be_value(self.writer@);
        let len = 8 * self.writer@.len();
        vstd::arithmetic::power2::lemma2_to64();
        vstd::arithmetic::power2::lemma2_to64_rest();
        lemma_pow2_adds(k as nat, n as nat);
        lemma_pow2_adds(len, k as nat);
        lemma_pow2_unfold((k + 1) as nat);
        if k < 31 {
            vstd::arithmetic::power2::lemma_pow2_strictly_increases(k as nat, 31);
        }
        vstd::bits::lemma_u32_shl_is_mul(1, k);
        let p = 1u32 << k;
        assert(p == pow2(k as nat));
        let r: u32 = if b >= p { (b - p) as u32 } else { b };
        assert(b - p < p) by {
            assert(b < 2 * p);
        }
        assert((b & p != 0) == (b >= p)) by (bit_vector)
            requires
                p == 1u32 << k,
                8 <= k <= 31,
                b - p < p,
        ;
        assert((b << n) == (r << n)) by (bit_vector)
            requires
                p == 1u32 << k,
                8 <= k <= 31,
                n == 32 - k,
                b - p < p,
                r == if b >= p { (b - p) as u32 } else { b },
        ;
        let q = pow2(n as nat);
        assert(r * q < pow2(32) && p * q == pow2(32)) by (nonlinear_arith)
            requires
                r < p,
                p * q == pow2(32),
                q > 0,
        ;
        vstd::bits::lemma_u32_shl_is_mul(r, n);
        if b >= p {
            assert(w + 1 < pow2(len)) by (nonlinear_arith)
                requires
                    w * p + b + self.range <= pow2(len) * p,
                    b >= p,
                    self.range >= 1,
            ;
            vstd::arithmetic::div_mod::lemma_small_mod((w + 1) as nat, pow2(len));
            assert((w * p + b) * q == (w + 1) * (p * q) + r * q) by (nonlinear_arith)
                requires
                    b == r + p,
            ;
        } else {
            assert((w * p + b) * q == w * (p * q) + r * q) by (nonlinear_arith)
                requires
                    b == r,
            ;
        }
    }

    /// A carry out of `bottom` finds a byte that can take it.
    proof fn lemma_carry(self)
        requires
            self.in_step(),
        ensures
            self.bottom >= 0x8000_0000u32 ==> {
                &&& self.bit_num == 1
                &&& be_value(self.writer@) + 1 < pow2(8 * self.writer@.len())
                &&& (be_value(self.writer@) + 1) % pow2(8 * self.writer@.len()) == be_value(
                    self.writer@,
                ) + 1
            },
    {
        vstd::arithmetic::power2::lemma2_to64();
        if self.bottom >= 0x8000_0000u32 {
            if self.bit_num > 1 {
                let k = (33 - self.bit_num) as nat;
                if k < 31 {
                    vstd::arithmetic::power2::lemma_pow2_strictly_increases(k, 31);
                }
                assert(false);
            }
            let n = 8 * self.writer@.len();
            let w = be_value(self.writer@);
            lemma_pow2_adds(n, 31);
            assert(self@.shifts + 8 == n + 31);
            assert(w + 1 < pow2(n)) by (nonlinear_arith)
                requires
                    w * pow2(31) + self.bottom + self.range <= pow2(n) * pow2(31),
                    self.bottom >= pow2(31),
                    self.range >= 1,
            ;
            vstd::arithmetic::div_mod::lemma_small_mod((w + 1) as nat, pow2(n));
        }
    }
}

/// A path with plain indices.
pub open spec fn plain_path(path: Seq<(bool, usize)>) -> Seq<(bool, int)> {
    path.map_values(|b: (bool, usize)| (b.0, b.1 as int))
}

proof fn lemma_climb(tree: Seq<i8>, index: int, start_index: int, fuel: nat)
    requires
        0 <= index < tree.len(),
        climb(tree, index, start_index, fuel) is Some,
    ensures
        ({
            let path = climb(tree, index, start_index, fuel).unwrap();
            &&& 0 < path.len() <= fuel
            &&& start_index % 2 == 0 ==> {
                &&& position(path.last()) == index
                &&& path[0].1 * 2 == start_index
                &&& forall|k: int|
                    #![trigger path[k]]
                    0 <= k < path.len() - 1 ==> tree[position(path[k])] == (path[k + 1].1 * 2) as i8
            }
            &&& forall|k: int|
                0 <= k < path.len() ==> 0 <= (#[trigger] path[k]).1 && 2 * path[k].1 < tree.len()
        }),
    decreases fuel,
{
    if index != start_index && index != start_index + 1 {
        let node = (index - index % 2) as i8;
        let up = first_index(tree, node);
        assert(is_first(tree, node, up));
        lemma_climb(tree, up, start_index, (fuel - 1) as nat);
        let above = climb(tree, up, start_index, (fuel - 1) as nat).unwrap();
        let path = climb(tree, index, start_index, fuel).unwrap();
        assert(path == above.push(branch_at(index)));
        assert forall|k: int| #![trigger path[k]]
            0 <= k < path.len() - 1 && start_index % 2 == 0 implies tree[position(path[k])] == (path[k
            + 1].1 * 2) as i8 by {
            assert(path[k] == above[k]);
            if k < above.len() - 1 {
                assert(path[k + 1] == above[k + 1]);
            }
        }
        assert forall|k: int| 0 <= k < path.len() implies 0 <= (#[trigger] path[k]).1 && 2 * path[k].1
            < tree.len() by {
            if k < above.len() {
                assert(path[k] == above[k]);
            }
        }
        assert(path[0] == above[0]);
    }
}

/// Following the path of a value down the tree ends in the leaf of that value.
pub proof fn law_tree_path_leads_to_value(tree: Seq<i8>, value: i8, start_index: int)
    requires
        has_path(tree, value, start_index),
        start_index % 2 == 0,
    ensures
        leads_to(tree, start_index, tree_path(tree, value, start_index), value),
{
    let leaf = (-value) as i8;
    assert(is_first(tree, leaf, first_index(tree, leaf)));
    lemma_climb(tree, first_index(tree, leaf), start_index, tree.len());
}

/// The branches of a path belong to nodes of the tree, and there are no more
/// of them than tree entries.
pub proof fn lemma_path_nodes(tree: Seq<i8>, value: i8, start_index: int)
    requires
        has_path(tree, value, start_index),
    ensures
        0 < tree_path(tree, value, start_index).len() <= tree.len(),
        forall|k: int|
            0 <= k < tree_path(tree, value, start_index).len() ==> 0 <= (#[trigger] tree_path(
                tree,
                value,
                start_index,
            )[k]).1 && 2 * tree_path(tree, value, start_index)[k].1 < tree.len(),
{
    let leaf = (-value) as i8;
    assert(is_first(tree, leaf, first_index(tree, leaf)));
    lemma_climb(tree, first_index(tree, leaf), start_index, tree.len());
}

/// Branches that lead from `start_index` to the leaf that codes `value`, in
/// the order in which they are written.
pub fn tree_encode_path(tree: &[i8], value: i8, start_index: usize) -> (path: Vec<(bool, usize)>)
    requires
        has_path(tree@, value, start_index as int),
    ensures
        plain_path(path@) == tree_path(tree@, value, start_index as int),
        path@.len() <= tree@.len(),
        forall|k: int| 0 <= k < path@.len() ==> 2 * (#[trigger] path@[k]).1 < tree@.len(),
        start_index % 2 == 0 ==> leads_to(tree@, start_index as int, plain_path(path@), value),
{
    proof {
        if start_index % 2 == 0 {
            law_tree_path_leads_to_value(tree@, value, start_index as int);
        }
    }
    let ghost leaf = (-value) as i8;
    assert(is_first(tree@, leaf, first_index(tree@, leaf)));
    let mut current_index: usize = index_of(tree, -value);
    let mut to_encode: Vec<(bool, usize)> = Vec::new();
    let ghost mut fuel: nat = tree@.len();
    let ghost all = tree_path(tree@, value, start_index as int);
    proof {
        assert(climb(tree@, current_index as int, start_index as int, fuel).unwrap() + plain_path(
            to_encode@,
        ) =~= all);
    }
    loop
        invariant_except_break
            current_index < tree@.len(),
            climb(tree@, current_index as int, start_index as int, fuel) is Some,
            climb(tree@, current_index as int, start_index as int, fuel).unwrap() + plain_path(
                to_encode@,
            ) =~= all,
        ensures
            plain_path(to_encode@) =~= all,
        decreases fuel,
    {
        let ghost before = to_encode@;
        let ghost index = current_index as int;
        let ghost rest = climb(tree@, index, start_index as int, fuel).unwrap();
        if current_index == start_index {
            to_encode.insert(0, (false, current_index / 2));
            assert(plain_path(to_encode@) =~= seq![(false, index / 2)] + plain_path(before));
            break;
        }
        if current_index > 0 && current_index - 1 == start_index {
            to_encode.insert(0, (true, current_index / 2));
            assert(plain_path(to_encode@) =~= seq![(true, index / 2)] + plain_path(before));
            break;
        }
        let encode_val = current_index % 2 != 0;
        to_encode.insert(0, (encode_val, current_index / 2));
        assert(plain_path(to_encode@) =~= seq![branch_at(index)] + plain_path(before));
        if encode_val {
            current_index = current_index - 1;
        }
        let ghost node = current_index as i8;
        assert(is_first(tree@, node, first_index(tree@, node)));
        current_index = index_of(tree, current_index as i8);
        proof {
            fuel = (fuel - 1) as nat;
            let above = climb(tree@, current_index as int, start_index as int, fuel).unwrap();
            assert(rest == above.push(branch_at(index)));
            assert(above + plain_path(to_encode@) =~= rest + plain_path(before));
        }
    }
    proof {
        lemma_climb(tree@, first_index(tree@, leaf), start_index as int, tree@.len());
        assert forall|k: int| 0 <= k < to_encode@.len() implies 2 * (#[trigger] to_encode@[k]).1
            < tree@.len() by {
            assert(plain_path(to_encode@)[k] == all[k]);
        }
    }
    to_encode
}

/// Index of the first entry that equals `x`.
fn index_of(tree: &[i8], x: i8) -> (index: usize)
    requires
        occurs(tree@, x),
    ensures
        index < tree@.len(),
        index as int == first_index(tree@, x),
{
    let mut i: usize = 0;
    let ghost p = first_index(tree@, x);
    assert(is_first(tree@, x, p));
    while tree[i] != x
        invariant
            i <= p < tree@.len(),
            is_first(tree@, x, p),
            forall|j: int| 0 <= j < i ==> tree@[j] != x,
        decreases p - i,
    {
        i = i + 1;
    }
    proof {
        if i < p {
            assert(tree@[i as int] != x);
        }
    }
    i
}

} // verus!
