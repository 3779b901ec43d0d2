//! Reading of numbers, flags and symbols from an entropy coded string.
use vstd::arithmetic::div_mod::lemma_div_denominator;
use vstd::arithmetic::power2::{lemma2_to64, lemma_pow2_pos, lemma_pow2_unfold, pow2};
use vstd::prelude::*;

use crate::arithmetic_encoder::{
    climb, first_index, flag_bits, has_path, is_first, lemma_path_nodes,
    law_tree_path_leads_to_value, literal_bits, optional_signed_bits, position, tree_bits,
    tree_path, Coder,
};
use crate::roundtrip::{law_decoder_reads_what_was_written, probs_of, values_of, Reader};

verus! {

/// The decoder is about to read given bits.
#[verifier::opaque]
pub open spec fn follows(r: Reader, bits: Seq<(bool, u8)>) -> bool
    decreases bits.len(),
{
    bits.len() > 0 ==> r.bit(bits[0].1) == bits[0].0 && follows(r.rest(bits[0].1), bits.skip(1))
}

/// The decoder after given bits.
#[verifier::opaque]
pub open spec fn after(r: Reader, bits: Seq<(bool, u8)>) -> Reader
    decreases bits.len(),
{
    if bits.len() == 0 {
        r
    } else {
        after(r.rest(bits[0].1), bits.skip(1))
    }
}

/// Two strings of bits are read one after the other.
pub proof fn lemma_follows_concat(r: Reader, a: Seq<(bool, u8)>, b: Seq<(bool, u8)>)
    ensures
        follows(r, a + b) == (follows(r, a) && follows(after(r, a), b)),
        after(r, a + b) == after(after(r, a), b),
    decreases a.len(),
{
    reveal_with_fuel(follows, 2);
    reveal_with_fuel(after, 2);
    if a.len() == 0 {
        assert(a + b =~= b);
    } else {
        lemma_follows_concat(r.rest(a[0].1), a.skip(1), b);
        assert((a + b).skip(1) =~= a.skip(1) + b);
        assert((a + b)[0] == a[0]);
    }
}

/// Nothing to read.
pub proof fn lemma_follows_nothing(r: Reader)
    ensures
        follows(r, Seq::empty()),
        after(r, Seq::empty()) == r,
{
    reveal_with_fuel(follows, 2);
    reveal_with_fuel(after, 2);
}

pub proof fn lemma_follows_one(r: Reader, bit: bool, prob: u8)
    ensures
        follows(r, seq![(bit, prob)]) == (r.bit(prob) == bit),
        after(r, seq![(bit, prob)]) == r.rest(prob),
{
    let s = seq![(bit, prob)];
    assert(s.skip(1) =~= Seq::<(bool, u8)>::empty());
    reveal_with_fuel(follows, 2);
    reveal_with_fuel(after, 2);
}

proof fn lemma_follows_read(r: Reader, bits: Seq<(bool, u8)>)
    requires
        r.read_all(probs_of(bits)) == values_of(bits),
    ensures
        follows(r, bits),
    decreases bits.len(),
{
    reveal_with_fuel(follows, 2);
    if bits.len() > 0 {
        let tail = bits.skip(1);
        let prob = bits[0].1;
        assert(probs_of(bits)[0] == prob);
        assert(probs_of(bits).skip(1) =~= probs_of(tail));
        let read = r.read_all(probs_of(bits));
        assert(read == seq![r.bit(prob)] + r.rest(prob).read_all(probs_of(tail)));
        assert(read[0] == values_of(bits)[0]);
        assert(read.skip(1) =~= r.rest(prob).read_all(probs_of(tail)));
        assert(values_of(bits).skip(1) =~= values_of(tail));
        lemma_follows_read(r.rest(prob), tail);
    }
}

/// A decoder of a finished code string is about to read what was written.
pub proof fn lemma_follows_written(bits: Seq<(bool, u8)>)
    ensures
        follows(Reader::open(Coder::fresh().write_all(bits).flushed()), bits),
{
    law_decoder_reads_what_was_written(bits);
    lemma_follows_read(Reader::open(Coder::fresh().write_all(bits).flushed()), bits);
}

/// A number whose bits have given probabilities, most significant bit first.
pub open spec fn read_number(r: Reader, probs: Seq<u8>) -> (int, Reader)
    decreases probs.len(),
{
    if probs.len() == 0 {
        (0, r)
    } else {
        let (high, rest) = read_number(r, probs.drop_last());
        let bit = if rest.bit(probs.last()) {
            1int
        } else {
            0
        };
        (2 * high + bit, rest.rest(probs.last()))
    }
}

/// Bits of a number, most significant first.
pub open spec fn number_bits(v: int, probs: Seq<u8>) -> Seq<(bool, u8)> {
    Seq::new(
        probs.len(),
        |i: int| ((v / pow2((probs.len() - 1 - i) as nat) as int) % 2 == 1, probs[i]),
    )
}

/// Reading a number that fits gives the number.
pub proof fn lemma_read_number(r: Reader, v: int, probs: Seq<u8>)
    requires
        0 <= v < pow2(probs.len()),
        follows(r, number_bits(v, probs)),
    ensures
        read_number(r, probs) == (v, after(r, number_bits(v, probs))),
    decreases probs.len(),
{
    lemma2_to64();
    if probs.len() == 0 {
        assert(number_bits(v, probs) =~= Seq::<(bool, u8)>::empty());
        lemma_follows_nothing(r);
    } else {
        let n = probs.len();
        let init = probs.drop_last();
        let bits = number_bits(v, probs);
        let last = (v % 2 == 1, probs.last());
        assert(v / 1 == v);
        assert forall|i: int| 0 <= i < n - 1 implies number_bits(v / 2, init)[i] == bits[i] by {
            let p = pow2((n - 2 - i) as nat) as int;
            lemma_pow2_unfold((n - 1 - i) as nat);
            lemma_pow2_pos((n - 2 - i) as nat);
            lemma_div_denominator(v, 2, p);
        }
        assert(bits =~= number_bits(v / 2, init) + seq![last]);
        lemma_follows_concat(r, number_bits(v / 2, init), seq![last]);
        lemma_pow2_unfold(n);
        lemma_read_number(r, v / 2, init);
        lemma_follows_one(after(r, number_bits(v / 2, init)), last.0, last.1);
    }
}

/// A number of `n` equally likely bits.
pub open spec fn read_literal(r: Reader, n: nat) -> (int, Reader) {
    read_number(r, Seq::new(n, |i: int| 128u8))
}

pub proof fn lemma_read_literal(r: Reader, n: nat, v: u8)
    requires
        v < pow2(n),
        follows(r, literal_bits(n, v)),
    ensures
        read_literal(r, n) == (v as int, after(r, literal_bits(n, v))),
{
    let probs = Seq::new(n, |i: int| 128u8);
    assert(literal_bits(n, v) =~= number_bits(v as int, probs)) by {
        assert forall|i: int| 0 <= i < n implies literal_bits(n, v)[i] == number_bits(
            v as int,
            probs,
        )[i] by {
            lemma_pow2_pos((n - 1 - i) as nat);
        }
    }
    lemma_read_number(r, v as int, probs);
}

/// One equally likely bit.
pub open spec fn read_flag(r: Reader) -> (bool, Reader) {
    (r.bit(128), r.rest(128))
}

pub proof fn lemma_read_flag(r: Reader, flag: bool)
    requires
        follows(r, flag_bits(flag)),
    ensures
        read_flag(r) == (flag, after(r, flag_bits(flag))),
{
    lemma_follows_one(r, flag, 128);
}

/// A value with its sign, if a flag tells that there is one.
pub open spec fn read_optional(r: Reader, n: nat) -> (Option<int>, Reader) {
    let (present, r1) = read_flag(r);
    if present {
        let (size, r2) = read_literal(r1, n);
        let (negative, r3) = read_flag(r2);
        (Some(if negative { -size } else { size }), r3)
    } else {
        (None, r1)
    }
}

/// An optional value as a number.
pub open spec fn optional_int(value: Option<i8>) -> Option<int> {
    match value {
        Some(v) => Some(v as int),
        None => None,
    }
}

pub proof fn lemma_read_optional(r: Reader, n: nat, value: Option<i8>)
    requires
        value matches Some(v) ==> -pow2(n) < v < pow2(n),
        follows(r, optional_signed_bits(n, value)),
    ensures
        read_optional(r, n) == (optional_int(value), after(r, optional_signed_bits(n, value))),
{
    match value {
        None => {
            lemma_read_flag(r, false);
        },
        Some(v) => {
            let size = (if v < 0 {
                -(v as int)
            } else {
                v as int
            }) as u8;
            let a = flag_bits(true);
            let b = literal_bits(n, size);
            lemma_follows_concat(r, a + b, flag_bits(v < 0));
            lemma_follows_concat(r, a, b);
            lemma_read_flag(r, true);
            lemma_read_literal(after(r, a), n, size);
            lemma_read_flag(after(r, a + b), v < 0);
        },
    }
}

/// The symbol at which following a coding tree ends.
pub open spec fn read_tree(
    r: Reader,
    tree: Seq<i8>,
    probs: Seq<u8>,
    index: int,
    fuel: nat,
) -> (int, Reader)
    decreases fuel,
{
    if fuel == 0 {
        (0, r)
    } else {
        let prob = probs[index / 2];
        let next = tree[index + if r.bit(prob) {
            1int
        } else {
            0
        }];
        if next <= 0 {
            (-next, r.rest(prob))
        } else {
            read_tree(r.rest(prob), tree, probs, next as int, (fuel - 1) as nat)
        }
    }
}

/// No entry before `start` leads behind it.
pub open spec fn starts_at(tree: Seq<i8>, start: int) -> bool {
    &&& 0 <= start < tree.len() <= 126
    &&& start % 2 == 0
    &&& forall|p: int| 0 <= p < start ==> #[trigger] tree[p] <= start
}

/// All branches but the first are at nodes behind the start.
proof fn lemma_climb_nodes(tree: Seq<i8>, index: int, start: int, fuel: nat)
    requires
        starts_at(tree, start),
        start <= index < tree.len(),
        climb(tree, index, start, fuel) is Some,
    ensures
        ({
            let path = climb(tree, index, start, fuel).unwrap();
            forall|k: int| 1 <= k < path.len() ==> 2 * (#[trigger] path[k]).1 >= start + 2
        }),
    decreases fuel,
{
    if index != start && index != start + 1 {
        let node = (index - index % 2) as i8;
        let up = first_index(tree, node);
        assert(is_first(tree, node, up));
        assert(up >= start);
        lemma_climb_nodes(tree, up, start, (fuel - 1) as nat);
        let above = climb(tree, up, start, (fuel - 1) as nat).unwrap();
        let path = climb(tree, index, start, fuel).unwrap();
        assert forall|k: int| 1 <= k < path.len() implies 2 * (#[trigger] path[k]).1 >= start + 2 by {
            if k < above.len() {
                assert(path[k] == above[k]);
            }
        }
    }
}

/// Reading from branch `j` of the path of a symbol on.
proof fn lemma_read_branches(
    r: Reader,
    tree: Seq<i8>,
    probs: Seq<u8>,
    value: i8,
    start: int,
    j: int,
    fuel: nat,
)
    requires
        starts_at(tree, start),
        has_path(tree, value, start),
        first_index(tree, (-value) as i8) >= start,
        0 <= j < tree_path(tree, value, start).len() <= j + fuel,
        follows(r, tree_bits(tree, probs, value, start).skip(j)),
    ensures
        read_tree(r, tree, probs, 2 * tree_path(tree, value, start)[j].1, fuel) == (
            value as int,
            after(r, tree_bits(tree, probs, value, start).skip(j)),
        ),
    decreases fuel,
{
    reveal_with_fuel(follows, 2);
    reveal_with_fuel(after, 2);
    let path = tree_path(tree, value, start);
    let bits = tree_bits(tree, probs, value, start);
    let leaf = (-value) as i8;
    assert(is_first(tree, leaf, first_index(tree, leaf)));
    law_tree_path_leads_to_value(tree, value, start);
    lemma_path_nodes(tree, value, start);
    lemma_climb_nodes(tree, first_index(tree, leaf), start, tree.len());
    let rest = bits.skip(j);
    assert(rest[0] == bits[j]);
    assert(bits[j] == (path[j].0, probs[path[j].1]));
    assert(rest.skip(1) =~= bits.skip(j + 1));
    let prob = probs[path[j].1];
    assert(r.bit(prob) == path[j].0);
    assert(2 * path[j].1 / 2 == path[j].1);
    if j + 1 < path.len() {
        assert(tree[position(path[j])] == (path[j + 1].1 * 2) as i8);
        assert(2 * path[j + 1].1 >= start + 2);
        assert(2 * path[j + 1].1 < tree.len());
        lemma_read_branches(
            r.rest(prob),
            tree,
            probs,
            value,
            start,
            j + 1,
            (fuel - 1) as nat,
        );
    } else {
        assert(path.last() == path[j]);
        assert(bits.skip(j + 1) =~= Seq::<(bool, u8)>::empty());
    }
}

/// Reading a symbol gives the symbol.
pub proof fn lemma_read_tree(r: Reader, tree: Seq<i8>, probs: Seq<u8>, value: i8, start: int)
    requires
        starts_at(tree, start),
        has_path(tree, value, start),
        first_index(tree, (-value) as i8) >= start,
        follows(r, tree_bits(tree, probs, value, start)),
    ensures
        read_tree(r, tree, probs, start, tree.len()) == (
            value as int,
            after(r, tree_bits(tree, probs, value, start)),
        ),
{
    lemma_path_nodes(tree, value, start);
    law_tree_path_leads_to_value(tree, value, start);
    assert(tree_bits(tree, probs, value, start).skip(0) =~= tree_bits(tree, probs, value, start));
    lemma_read_branches(r, tree, probs, value, start, 0, tree.len());
}

} // verus!
