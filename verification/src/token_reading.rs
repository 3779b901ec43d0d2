//! Reading of the coefficient levels of a block.
use vstd::arithmetic::power2::{lemma2_to64, pow2};
use vstd::prelude::*;

use crate::arithmetic_encoder::{first_index, flag_bits, has_path, is_first};
use crate::common::{
    Plane, COEFF_BANDS, DCT_0, DCT_CAT_BASE, DCT_EOB, DCT_TOKEN_TREE, PROB_DCT_CAT,
};
use crate::reading::{
    after, follows, lemma_follows_concat, lemma_follows_nothing, lemma_read_flag,
    lemma_read_number, lemma_read_tree,
    number_bits, read_flag, read_number, read_tree, starts_at,
};
use crate::roundtrip::Reader;
use crate::tokens::{
    block_events, branch_bits, bucket, codable, context_after, context_at, end_of_block, event_bits,
    event_branches, events_bits, extra_bits, extra_count, first_coeff, lemma_block_events_valid,
    lemma_end_of_block_facts, lemma_event_tree_bits, magnitude, token_of, valid_event, TokenEvent,
};

verus! {

/// The tree of the tokens.
#[verifier::opaque]
pub open spec fn token_tree() -> Seq<i8> {
    seq![
        -11i8, 2, 0, 4, -1i8, 6, 8, 12, -2i8, 10, -3i8, -4i8, 14, 16, -5i8, -6i8, 18, 20, -7i8,
        -8i8, -9i8, -10i8,
    ]
}

/// Probabilities of the extra bits of a token, most significant first.
pub open spec fn extra_probs(token: int) -> Seq<u8> {
    if token == 5 {
        seq![159u8]
    } else if token == 6 {
        seq![165u8, 145]
    } else if token == 7 {
        seq![173u8, 148, 140]
    } else if token == 8 {
        seq![176u8, 155, 140, 135]
    } else if token == 9 {
        seq![180u8, 157, 141, 134, 130]
    } else {
        seq![254u8, 254, 243, 230, 196, 177, 153, 140, 133, 130, 129]
    }
}

/// Smallest magnitude that a token with extra bits stands for.
pub open spec fn least_size(token: int) -> int {
    if token == 5 {
        5
    } else if token == 6 {
        7
    } else if token == 7 {
        11
    } else if token == 8 {
        19
    } else if token == 9 {
        35
    } else {
        67
    }
}

/// Probabilities for the token at position `i` of a block.
#[verifier::opaque]
pub open spec fn probs_at(probs: Seq<u8>, plane: Plane, i: int, context: usize) -> Seq<u8> {
    let kind = match plane {
        Plane::YCoeff1 => 0int,
        Plane::Y2 => 1,
        Plane::Chroma => 2,
        Plane::YCoeff0 => 3,
    };
    let band = seq![0int, 1, 2, 3, 6, 4, 5, 6, 6, 6, 6, 6, 6, 6, 6, 7][i];
    Seq::new(11, |l: int| probs[264 * kind + 33 * band + 11 * context + l])
}

/// The level that a token announces: extra bits, and a sign unless it is zero.
pub open spec fn read_level(r: Reader, token: int) -> (i32, Reader) {
    if token == 0 {
        (0, r)
    } else {
        let (size, r1) = if token <= 4 {
            (token, r)
        } else {
            let (extra, rest) = read_number(r, extra_probs(token));
            (least_size(token) + extra, rest)
        };
        let (negative, r2) = read_flag(r1);
        (
            (if negative {
                -size
            } else {
                size
            }) as i32,
            r2,
        )
    }
}

/// Levels from position `i` in coding order to the end of a block, in a given
/// context. After a zero the token cannot end the block.
pub open spec fn read_levels(
    r: Reader,
    probs: Seq<u8>,
    plane: Plane,
    i: int,
    context: usize,
    after_zero: bool,
) -> (Seq<i32>, Reader)
    decreases 16 - i,
{
    if i >= 16 {
        (Seq::empty(), r)
    } else {
        let (token, r1) = read_tree(
            r,
            token_tree(),
            probs_at(probs, plane, i, context),
            if after_zero {
                2
            } else {
                0
            },
            22,
        );
        if token == 11 {
            (Seq::new((16 - i) as nat, |j: int| 0i32), r1)
        } else {
            let (level, r2) = read_level(r1, token);
            let (rest, r3) = read_levels(
                r2,
                probs,
                plane,
                i + 1,
                if level == 0 {
                    0
                } else if level == 1 || level == -1 {
                    1
                } else {
                    2
                },
                level == 0,
            );
            (seq![level] + rest, r3)
        }
    }
}

/// Levels of a block in coding order.
pub open spec fn read_block(r: Reader, probs: Seq<u8>, plane: Plane, context: usize) -> (
    Seq<i32>,
    Reader,
) {
    let first = if plane == Plane::YCoeff1 {
        1int
    } else {
        0
    };
    let (levels, rest) = read_levels(r, probs, plane, first, context, false);
    (Seq::new(first as nat, |j: int| 0i32) + levels, rest)
}

/// The tables of the decoder are those of the encoder.
proof fn lemma_tables(probs: Seq<u8>, plane: Plane, i: int, context: usize)
    requires
        0 <= i < 16,
    ensures
        token_tree() == DCT_TOKEN_TREE@,
        probs_at(probs, plane, i, context) == bucket(
            probs,
            plane,
            COEFF_BANDS[i] as usize,
            context,
        ),
{
    reveal(token_tree);
    reveal(probs_at);
    assert(token_tree() =~= DCT_TOKEN_TREE@);
    let band = seq![0int, 1, 2, 3, 6, 4, 5, 6, 6, 6, 6, 6, 6, 6, 6, 7][i];
    assert(band == COEFF_BANDS[i]);
    assert(probs_at(probs, plane, i, context) =~= bucket(
        probs,
        plane,
        COEFF_BANDS[i] as usize,
        context,
    ));
}

/// The extra bits of the decoder are those of the encoder.
proof fn lemma_extra(token: int)
    requires
        5 <= token <= 10,
    ensures
        least_size(token) == DCT_CAT_BASE[token - 5],
        extra_probs(token) == PROB_DCT_CAT[token - 5]@.take(extra_count(token as i8) as int),
{
    assert(extra_probs(token) =~= PROB_DCT_CAT[token - 5]@.take(extra_count(token as i8) as int));
}

/// Reading a level gives the level.
proof fn lemma_read_level(r: Reader, value: i32)
    requires
        -2048 <= value <= 2048,
        token_of(value) != DCT_0 ==> follows(
            r,
            extra_bits(token_of(value), value) + flag_bits(value <= 0),
        ),
    ensures
        read_level(r, token_of(value) as int) == (
            value,
            if token_of(value) == DCT_0 {
                r
            } else {
                after(r, extra_bits(token_of(value), value) + flag_bits(value <= 0))
            },
        ),
{
    let token = token_of(value);
    if token != DCT_0 {
        let extra = extra_bits(token, value);
        lemma_follows_concat(r, extra, flag_bits(value <= 0));
        lemma_read_flag(after(r, extra), value <= 0);
        if token > 4 {
            lemma2_to64();
            let v = magnitude(value) - DCT_CAT_BASE[token - 5];
            let probs = extra_probs(token as int);
            lemma_extra(token as int);
            assert(probs.len() == extra_count(token));
            assert(extra =~= number_bits(v, probs));
            assert(0 <= v < pow2(probs.len())) by {
                if token == 5 {
                } else if token == 6 {
                } else if token == 7 {
                } else if token == 8 {
                } else if token == 9 {
                } else {
                    assert(token == 10);
                }
            }
            lemma_read_number(r, v, probs);
        } else {
            assert(extra =~= Seq::<(bool, u8)>::empty());
            lemma_follows_nothing(r);
        }
    }
}

proof fn lemma_events_bits_concat(
    plane: Plane,
    a: Seq<TokenEvent>,
    b: Seq<TokenEvent>,
    probs: Seq<u8>,
)
    ensures
        events_bits(plane, a + b, probs) == events_bits(plane, a, probs) + events_bits(
            plane,
            b,
            probs,
        ),
    decreases b.len(),
{
    if b.len() == 0 {
        assert(a + b =~= a);
        assert(events_bits(plane, a, probs) + events_bits(plane, b, probs) =~= events_bits(
            plane,
            a,
            probs,
        ));
    } else {
        assert((a + b).drop_last() =~= a + b.drop_last());
        lemma_events_bits_concat(plane, a, b.drop_last(), probs);
        assert(events_bits(plane, a + b, probs) =~= events_bits(plane, a, probs) + events_bits(
            plane,
            b,
            probs,
        ));
    }
}

/// The bits of a sequence of tokens start with those of the first.
proof fn lemma_events_bits_first(plane: Plane, events: Seq<TokenEvent>, probs: Seq<u8>)
    requires
        events.len() > 0,
    ensures
        events_bits(plane, events, probs) == event_bits(plane, events[0], probs) + events_bits(
            plane,
            events.skip(1),
            probs,
        ),
{
    let one = seq![events[0]];
    assert(events =~= one + events.skip(1));
    lemma_events_bits_concat(plane, one, events.skip(1), probs);
    assert(one.drop_last() =~= Seq::<TokenEvent>::empty());
    assert(events_bits(plane, one.drop_last(), probs) =~= Seq::<(bool, u8)>::empty());
    assert(events_bits(plane, one, probs) =~= event_bits(plane, events[0], probs));
}

/// The token tree can be entered at the root, and below the end of the block.
proof fn lemma_token_leaf(token: i8, start: int)
    requires
        0 <= token <= 11,
        start == 0 || (start == 2 && token != DCT_EOB),
        has_path(DCT_TOKEN_TREE@, token, start),
    ensures
        starts_at(DCT_TOKEN_TREE@, start),
        first_index(DCT_TOKEN_TREE@, (-token) as i8) >= start,
{
    let t = DCT_TOKEN_TREE@;
    let leaf = (-token) as i8;
    assert(is_first(t, leaf, first_index(t, leaf)));
    assert(t[0] == -11);
    assert(t[1] == 2);
}

/// Reading one token of a block: the level of an event that is not the end.
proof fn lemma_read_event(r: Reader, probs: Seq<u8>, plane: Plane, e: TokenEvent)
    requires
        valid_event(e),
        follows(r, event_bits(plane, e, probs)),
    ensures
        ({
            let (token, r1) = read_tree(
                r,
                DCT_TOKEN_TREE@,
                bucket(probs, plane, e.band, e.context),
                e.start_index as int,
                22,
            );
            &&& token == e.token
            &&& e.token == DCT_EOB ==> r1 == after(r, event_bits(plane, e, probs))
            &&& e.token != DCT_EOB ==> read_level(r1, token) == (
                e.quantized_value,
                after(r, event_bits(plane, e, probs)),
            )
        }),
{
    let branches = branch_bits(event_branches(plane, e), probs);
    lemma_event_tree_bits(plane, e, probs);
    lemma_token_leaf(e.token, e.start_index as int);
    if e.token != DCT_EOB && e.token != DCT_0 {
        let extra = extra_bits(e.token, e.quantized_value);
        let sign = flag_bits(e.quantized_value <= 0);
        assert(event_bits(plane, e, probs) =~= branches + (extra + sign));
        lemma_follows_concat(r, branches, extra + sign);
    }
    lemma_read_tree(
        r,
        DCT_TOKEN_TREE@,
        bucket(probs, plane, e.band, e.context),
        e.token,
        e.start_index as int,
    );
    if e.token != DCT_EOB {
        lemma_read_level(after(r, branches), e.quantized_value);
    }
}

/// One step of reading a block.
proof fn lemma_read_step(
    r: Reader,
    probs: Seq<u8>,
    plane: Plane,
    e: TokenEvent,
    i: int,
    after_zero: bool,
)
    requires
        0 <= i < 16,
        valid_event(e),
        e.band == COEFF_BANDS[i] as usize,
        e.start_index == if after_zero {
            2usize
        } else {
            0
        },
        follows(r, event_bits(plane, e, probs)),
    ensures
        read_levels(r, probs, plane, i, e.context, after_zero) == if e.token == DCT_EOB {
            (
                Seq::new((16 - i) as nat, |j: int| 0i32),
                after(r, event_bits(plane, e, probs)),
            )
        } else {
            let (rest, r3) = read_levels(
                after(r, event_bits(plane, e, probs)),
                probs,
                plane,
                i + 1,
                context_after(e.quantized_value),
                e.quantized_value == 0,
            );
            (seq![e.quantized_value] + rest, r3)
        },
{
    lemma_tables(probs, plane, i, e.context);
    lemma_read_event(r, probs, plane, e);
}

/// Token at position `i` of a block.
proof fn lemma_event_at(z: Seq<i32>, plane: Plane, complexity: usize, i: int)
    requires
        z.len() == 16,
        codable(z),
        complexity <= 2,
        first_coeff(plane) <= i < 16,
        i == first_coeff(plane) || i <= end_of_block(z),
    ensures
        ({
            let first = first_coeff(plane);
            let all = block_events(z, first, complexity);
            let e = all[i - first];
            &&& i - first < all.len()
            &&& valid_event(e)
            &&& e.band == COEFF_BANDS[i] as usize
            &&& e.context == context_at(z, first, complexity, i)
            &&& e.start_index == if i > first && z[i - 1] == 0 {
                2usize
            } else {
                0
            }
            &&& i < end_of_block(z) ==> e.token != DCT_EOB && e.quantized_value == z[i]
            &&& i >= end_of_block(z) ==> {
                &&& e.token == DCT_EOB
                &&& i - first + 1 == all.len()
                &&& forall|j: int| i <= j < 16 ==> z[j] == 0
            }
        }),
{
    lemma_end_of_block_facts(z);
    lemma_block_events_valid(z, first_coeff(plane), complexity);
}

/// Reading from position `i` on.
proof fn lemma_read_levels(
    r: Reader,
    probs: Seq<u8>,
    plane: Plane,
    z: Seq<i32>,
    complexity: usize,
    i: int,
    all: Seq<TokenEvent>,
)
    requires
        z.len() == 16,
        codable(z),
        complexity <= 2,
        first_coeff(plane) <= i <= 16,
        i == first_coeff(plane) || i <= end_of_block(z),
        all == block_events(z, first_coeff(plane), complexity),
        follows(r, events_bits(plane, all.skip(i - first_coeff(plane)), probs)),
    ensures
        read_levels(
            r,
            probs,
            plane,
            i,
            context_at(z, first_coeff(plane), complexity, i),
            i > first_coeff(plane) && z[i - 1] == 0,
        ) == (
            z.skip(i),
            after(r, events_bits(plane, all.skip(i - first_coeff(plane)), probs)),
        ),
    decreases 16 - i,
{
    let first = first_coeff(plane);
    let rest = all.skip(i - first);
    let after_zero = i > first && z[i - 1] == 0;
    if i == 16 {
        lemma_end_of_block_facts(z);
        lemma_follows_nothing(r);
        assert(rest =~= Seq::<TokenEvent>::empty());
        assert(events_bits(plane, rest, probs) =~= Seq::<(bool, u8)>::empty());
        assert(z.skip(16) =~= Seq::<i32>::empty());
    } else {
        lemma_event_at(z, plane, complexity, i);
        let e = all[i - first];
        assert(rest[0] == e);
        lemma_events_bits_first(plane, rest, probs);
        assert(rest.skip(1) =~= all.skip(i + 1 - first));
        lemma_follows_concat(
            r,
            event_bits(plane, e, probs),
            events_bits(plane, rest.skip(1), probs),
        );
        lemma_read_step(r, probs, plane, e, i, after_zero);
        if i < end_of_block(z) {
            lemma_read_levels(
                after(r, event_bits(plane, e, probs)),
                probs,
                plane,
                z,
                complexity,
                i + 1,
                all,
            );
            assert(seq![z[i]] + z.skip(i + 1) =~= z.skip(i));
        } else {
            lemma_follows_nothing(after(r, event_bits(plane, e, probs)));
            assert(rest.skip(1) =~= Seq::<TokenEvent>::empty());
            assert(Seq::new((16 - i) as nat, |j: int| 0i32) =~= z.skip(i));
            assert(events_bits(plane, rest.skip(1), probs) =~= Seq::<(bool, u8)>::empty());
        }
    }
}

/// Reading a block gives its levels.
pub proof fn lemma_read_block(
    r: Reader,
    probs: Seq<u8>,
    plane: Plane,
    z: Seq<i32>,
    complexity: usize,
)
    requires
        z.len() == 16,
        codable(z),
        complexity <= 2,
        first_coeff(plane) == 1 ==> z[0] == 0,
        follows(
            r,
            events_bits(plane, block_events(z, first_coeff(plane), complexity), probs),
        ),
    ensures
        read_block(r, probs, plane, complexity) == (
            z,
            after(
                r,
                events_bits(plane, block_events(z, first_coeff(plane), complexity), probs),
            ),
        ),
{
    let first = first_coeff(plane);
    let all = block_events(z, first, complexity);
    assert(all.skip(0) =~= all);
    lemma_read_levels(r, probs, plane, z, complexity, first, all);
    assert(Seq::new(first as nat, |j: int| 0i32) + z.skip(first) =~= z);
}

} // verus!
