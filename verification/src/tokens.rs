//! Coefficient tokens: how a block is cut into tokens, how tokens are coded,
//! and how the token probabilities of a frame are chosen.
use vstd::arithmetic::power2::{lemma2_to64, lemma_pow2_pos, lemma_pow2_unfold, pow2};
use vstd::prelude::*;

use crate::arithmetic_encoder::{
    flag_bits, has_path, lemma_path_nodes, lemma_write_all_concat, lemma_write_all_push,
    plain_path, tree_bits, tree_encode_path, tree_path, ArithmeticEncoder,
};
use crate::common::{
    flat_table, lemma_slot, slot, Plane, TokenProbTables, COEFF_BANDS, DCT_0, DCT_1, DCT_CAT1,
    DCT_CAT2, DCT_CAT3, DCT_CAT4, DCT_CAT5, DCT_CAT6, DCT_CAT_BASE, DCT_EOB, DCT_TOKEN_TREE,
    PROB_DCT_CAT, ZIGZAG,
};
use crate::quantize::lemma_trunc_div;
use crate::transform::trunc_div;
use crate::trees::lemma_token_tree;

verus! {

/// One coded token of a block: the bucket of probabilities it uses, the token,
/// where its path in the token tree starts, and the coefficient it stands for.
#[derive(Clone, Copy, Debug, PartialEq, Eq, Structural)]
pub struct TokenEvent {
    pub band: usize,
    pub context: usize,
    pub token: i8,
    pub start_index: usize,
    pub quantized_value: i32,
}

/// Index of the first coded coefficient of a plane.
pub open spec fn first_coeff(plane: Plane) -> int {
    if plane == Plane::YCoeff1 {
        1
    } else {
        0
    }
}

/// Level of the coefficient at position `i` in coding order.
pub open spec fn level_at(block: Seq<i32>, first: int, dc: i16, ac: i16, i: int) -> i32 {
    if i < first {
        0
    } else {
        let z = ZIGZAG[i] as int;
        trunc_div(
            block[z] as int,
            if z > 0 {
                ac as int
            } else {
                dc as int
            },
        ) as i32
    }
}

/// Levels of a block in coding order.
pub open spec fn levels(block: Seq<i32>, plane: Plane, dc: i16, ac: i16) -> Seq<i32> {
    Seq::new(16, |i: int| level_at(block, first_coeff(plane), dc, ac, i))
}

/// One past the last level that is not zero; zero if there is none.
pub open spec fn end_of_block(z: Seq<i32>) -> int
    decreases z.len(),
{
    if z.len() == 0 {
        0
    } else if z.last() != 0 {
        z.len() as int
    } else {
        end_of_block(z.drop_last())
    }
}

pub open spec fn magnitude(c: i32) -> int {
    if c < 0 {
        -c
    } else {
        c as int
    }
}

/// Token for a level.
pub open spec fn token_of(c: i32) -> i8 {
    let m = magnitude(c);
    if m <= 4 {
        m as i8
    } else if m <= 6 {
        DCT_CAT1
    } else if m <= 10 {
        DCT_CAT2
    } else if m <= 18 {
        DCT_CAT3
    } else if m <= 34 {
        DCT_CAT4
    } else if m <= 66 {
        DCT_CAT5
    } else {
        DCT_CAT6
    }
}

/// Context that a level is for the level that follows it.
pub open spec fn context_after(c: i32) -> usize {
    let m = magnitude(c);
    if m == 0 {
        0
    } else if m == 1 {
        1
    } else {
        2
    }
}

/// Context of the level at position `i`.
pub open spec fn context_at(z: Seq<i32>, first: int, complexity: usize, i: int) -> usize {
    if i <= first {
        complexity
    } else {
        context_after(z[i - 1])
    }
}

/// Token of the level at position `i`. After a zero the end of the block is
/// not an option, and the path starts below it.
pub open spec fn level_event(z: Seq<i32>, first: int, complexity: usize, i: int) -> TokenEvent {
    TokenEvent {
        band: COEFF_BANDS[i] as usize,
        context: context_at(z, first, complexity, i),
        token: token_of(z[i]),
        start_index: if i > first && z[i - 1] == 0 {
            2
        } else {
            0
        },
        quantized_value: z[i],
    }
}

/// Token that ends a block before position `i`.
pub open spec fn end_event(z: Seq<i32>, first: int, complexity: usize, i: int) -> TokenEvent {
    TokenEvent {
        band: COEFF_BANDS[i] as usize,
        context: context_at(z, first, complexity, i),
        token: DCT_EOB,
        start_index: 0,
        quantized_value: 0,
    }
}

/// Tokens of a block with levels `z`: one for each level up to the last that
/// is not zero, and the end of the block unless it is full.
pub open spec fn block_events(z: Seq<i32>, first: int, complexity: usize) -> Seq<TokenEvent> {
    let end = if end_of_block(z) < first {
        first
    } else {
        end_of_block(z)
    };
    Seq::new(
        (if end < 16 {
            end - first + 1
        } else {
            end - first
        }) as nat,
        |k: int|
            if first + k < end {
                level_event(z, first, complexity, first + k)
            } else {
                end_event(z, first, complexity, end)
            },
    )
}

/// Whether a block has a level that is not zero.
pub open spec fn has_levels(z: Seq<i32>) -> bool {
    end_of_block(z) > 0
}

proof fn lemma_end_of_block(z: Seq<i32>, end: int)
    requires
        0 <= end <= z.len(),
        forall|i: int| end <= i < z.len() ==> z[i] == 0,
        end > 0 ==> z[end - 1] != 0,
    ensures
        end_of_block(z) == end,
    decreases z.len(),
{
    if z.len() > end {
        assert(z.last() == z[z.len() - 1]);
        lemma_end_of_block(z.drop_last(), end);
    } else if z.len() > 0 {
        assert(z.last() == z[end - 1]);
    }
}

/// The last level before the end of a block is not zero, and those behind are.
pub proof fn lemma_end_of_block_facts(z: Seq<i32>)
    ensures
        0 <= end_of_block(z) <= z.len(),
        forall|i: int| end_of_block(z) <= i < z.len() ==> z[i] == 0,
        end_of_block(z) > 0 ==> z[end_of_block(z) - 1] != 0,
    decreases z.len(),
{
    if z.len() > 0 && z.last() == 0 {
        let rest = z.drop_last();
        lemma_end_of_block_facts(rest);
        assert forall|i: int| end_of_block(z) <= i < z.len() implies z[i] == 0 by {
            if i < rest.len() {
                assert(rest[i] == z[i]);
            }
        }
    }
}

/// The levels of a block can be coded: the largest category ends at 2048.
pub open spec fn codable(z: Seq<i32>) -> bool {
    forall|i: int| 0 <= i < z.len() ==> -2048 <= #[trigger] z[i] <= 2048
}

fn quantized_levels(block: &[i32; 16], plane: Plane, dc_quant: i16, ac_quant: i16) -> (z: [i32; 16])
    requires
        dc_quant > 0,
        ac_quant > 0,
    ensures
        z@ == levels(block@, plane, dc_quant, ac_quant),
{
    let first: usize = if plane == Plane::YCoeff1 {
        1
    } else {
        0
    };
    let mut z = [0i32; 16];
    let mut i: usize = first;
    while i < 16
        invariant
            first as int == first_coeff(plane),
            first <= i <= 16,
            dc_quant > 0,
            ac_quant > 0,
            forall|j: int|
                0 <= j < 16 ==> #[trigger] z@[j] == if j < i {
                    level_at(block@, first as int, dc_quant, ac_quant, j)
                } else {
                    0
                },
        decreases 16 - i,
    {
        let zigzag_index: usize = ZIGZAG[i] as usize;
        assert(zigzag_index < 16);
        let quant: i32 = if zigzag_index > 0 {
            ac_quant as i32
        } else {
            dc_quant as i32
        };
        let value: i32 = block[zigzag_index];
        proof {
            lemma_trunc_div(value as int, quant as int);
        }
        z[i] = value / quant;
        i = i + 1;
    }
    assert(z@ =~= levels(block@, plane, dc_quant, ac_quant));
    z
}

fn end_index(z: &[i32; 16]) -> (end: usize)
    ensures
        end as int == end_of_block(z@),
        end <= 16,
{
    let mut end: usize = 16;
    while end > 0 && z[end - 1] == 0
        invariant
            end <= 16,
            forall|i: int| end <= i < 16 ==> z@[i] == 0,
        decreases end,
    {
        end = end - 1;
    }
    proof {
        lemma_end_of_block(z@, end as int);
    }
    end
}

fn level_token(c: i32) -> (token: i8)
    requires
        -2048 <= c <= 2048,
    ensures
        token == token_of(c),
        0 <= token <= 10,
{
    let m: i32 = if c < 0 {
        -c
    } else {
        c
    };
    if m <= 4 {
        m as i8
    } else if m <= 6 {
        DCT_CAT1
    } else if m <= 10 {
        DCT_CAT2
    } else if m <= 18 {
        DCT_CAT3
    } else if m <= 34 {
        DCT_CAT4
    } else if m <= 66 {
        DCT_CAT5
    } else {
        DCT_CAT6
    }
}

/// Tokens of a block, and whether the block has a level that is not zero.
pub fn tokenize_block(
    block: &[i32; 16],
    plane: Plane,
    complexity: usize,
    dc_quant: i16,
    ac_quant: i16,
) -> (r: (Vec<TokenEvent>, bool))
    requires
        complexity <= 2,
        dc_quant > 0,
        ac_quant > 0,
        codable(levels(block@, plane, dc_quant, ac_quant)),
    ensures
        r.0@ == block_events(
            levels(block@, plane, dc_quant, ac_quant),
            first_coeff(plane),
            complexity,
        ),
        r.1 == has_levels(levels(block@, plane, dc_quant, ac_quant)),
{
    let first: usize = if plane == Plane::YCoeff1 {
        1
    } else {
        0
    };
    let zigzag_block = quantized_levels(block, plane, dc_quant, ac_quant);
    let ghost z = zigzag_block@;
    let end_of_block_index: usize = end_index(&zigzag_block);
    let end: usize = if end_of_block_index < first {
        first
    } else {
        end_of_block_index
    };
    let ghost all = block_events(z, first as int, complexity);
    let mut events: Vec<TokenEvent> = Vec::new();
    let mut skip_eob = false;
    let mut context: usize = complexity;
    let mut index: usize = first;
    while index < end
        invariant
            first <= index <= end <= 16,
            first as int == first_coeff(plane),
            z == zigzag_block@,
            codable(z),
            end as int == if end_of_block(z) < first {
                first as int
            } else {
                end_of_block(z)
            },
            all == block_events(z, first as int, complexity),
            context == context_at(z, first as int, complexity, index as int),
            skip_eob == (index > first && z[index - 1] == 0),
            events@.len() == index - first,
            forall|k: int| 0 <= k < events@.len() ==> #[trigger] events@[k] == all[k],
        decreases end - index,
    {
        let coeff: i32 = zigzag_block[index];
        assert(-2048 <= z[index as int] <= 2048);
        let band: usize = COEFF_BANDS[index] as usize;
        let start_index: usize = if skip_eob {
            2
        } else {
            0
        };
        let token: i8 = level_token(coeff);
        skip_eob = token == DCT_0;
        let event = TokenEvent { band, context, token, start_index, quantized_value: coeff };
        assert(event == all[index - first]);
        events.push(event);
        context =
        if token == DCT_0 {
            0
        } else if token == DCT_1 {
            1
        } else {
            2
        };
        index = index + 1;
    }
    if end < 16 {
        let band: usize = COEFF_BANDS[end] as usize;
        let event = TokenEvent {
            band,
            context,
            token: DCT_EOB,
            start_index: 0,
            quantized_value: 0,
        };
        assert(event == all[end - first]);
        events.push(event);
    }
    assert(events@ =~= all);
    (events, end_of_block_index > 0)
}

/// Whether a block has a level that is not zero.
pub fn block_has_levels(block: &[i32; 16], plane: Plane, dc_quant: i16, ac_quant: i16) -> (r: bool)
    requires
        dc_quant > 0,
        ac_quant > 0,
    ensures
        r == has_levels(levels(block@, plane, dc_quant, ac_quant)),
{
    let z = quantized_levels(block, plane, dc_quant, ac_quant);
    end_index(&z) > 0
}

/// What the tokenizer guarantees of a token.
pub open spec fn valid_event(e: TokenEvent) -> bool {
    &&& e.band < 8
    &&& e.context < 3
    &&& 0 <= e.token <= DCT_EOB
    &&& e.start_index == 0 || (e.start_index == 2 && e.token != DCT_EOB)
    &&& e.token != DCT_EOB ==> e.token == token_of(e.quantized_value)
        && -2048 <= e.quantized_value <= 2048
}

/// The tokens of a block are valid.
pub proof fn lemma_block_events_valid(z: Seq<i32>, first: int, complexity: usize)
    requires
        z.len() == 16,
        codable(z),
        0 <= first <= 1,
        complexity <= 2,
    ensures
        block_events(z, first, complexity).len() <= 16,
        forall|k: int|
            0 <= k < block_events(z, first, complexity).len() ==> valid_event(
                #[trigger] block_events(z, first, complexity)[k],
            ),
{
    lemma_end_of_block_facts(z);
    let all = block_events(z, first, complexity);
    let end = if end_of_block(z) < first {
        first
    } else {
        end_of_block(z)
    };
    assert forall|k: int| 0 <= k < all.len() implies valid_event(#[trigger] all[k]) by {
        let i = first + k;
        assert(COEFF_BANDS[i] < 8);
        if i < end {
            assert(-2048 <= z[i] <= 2048);
        }
    }
}

/// Branches of the token tree that a token takes: for each the position of its
/// probability and which way it goes.
pub open spec fn event_branches(plane: Plane, e: TokenEvent) -> Seq<(int, bool)> {
    tree_path(DCT_TOKEN_TREE@, e.token, e.start_index as int).map_values(
        |b: (bool, int)| (slot(plane.code(), e.band as int, e.context as int, b.1), b.0),
    )
}

/// Branches that a sequence of tokens takes.
pub open spec fn events_branches(plane: Plane, events: Seq<TokenEvent>) -> Seq<(int, bool)>
    decreases events.len(),
{
    if events.len() == 0 {
        Seq::empty()
    } else {
        events_branches(plane, events.drop_last()) + event_branches(plane, events.last())
    }
}

/// Bits for branches, with their probabilities from a table.
pub open spec fn branch_bits(branches: Seq<(int, bool)>, probs: Seq<u8>) -> Seq<(bool, u8)> {
    branches.map_values(|b: (int, bool)| (b.1, probs[b.0]))
}

/// Number of extra bits of a token.
pub open spec fn extra_count(token: i8) -> nat {
    if token < DCT_CAT1 || token > DCT_CAT6 {
        0
    } else if token == DCT_CAT6 {
        11
    } else {
        (token - 4) as nat
    }
}

/// Bits that tell which value of its category a level is, most significant first.
pub open spec fn extra_bits(token: i8, value: i32) -> Seq<(bool, u8)> {
    let count = extra_count(token);
    let extra = magnitude(value) - DCT_CAT_BASE[token - 5];
    Seq::new(
        count,
        |j: int|
            ((extra / pow2((count - 1 - j) as nat) as int) % 2 == 1, PROB_DCT_CAT[token - 5][j]),
    )
}

/// Bits of a token: its branches, then extra bits and sign of a level.
pub open spec fn event_bits(plane: Plane, e: TokenEvent, probs: Seq<u8>) -> Seq<(bool, u8)> {
    let branches = branch_bits(event_branches(plane, e), probs);
    if e.token == DCT_EOB || e.token == DCT_0 {
        branches
    } else {
        branches + extra_bits(e.token, e.quantized_value) + flag_bits(e.quantized_value <= 0)
    }
}

/// Bits of a sequence of tokens.
pub open spec fn events_bits(plane: Plane, events: Seq<TokenEvent>, probs: Seq<u8>) -> Seq<
    (bool, u8),
>
    decreases events.len(),
{
    if events.len() == 0 {
        Seq::empty()
    } else {
        events_bits(plane, events.drop_last(), probs) + event_bits(plane, events.last(), probs)
    }
}

/// Probabilities of one bucket.
pub open spec fn bucket(probs: Seq<u8>, plane: Plane, band: usize, context: usize) -> Seq<u8> {
    Seq::new(11, |l: int| probs[slot(plane.code(), band as int, context as int, l)])
}

/// Writing a token through its bucket is writing its branches.
pub proof fn lemma_event_tree_bits(plane: Plane, e: TokenEvent, probs: Seq<u8>)
    requires
        valid_event(e),
    ensures
        has_path(DCT_TOKEN_TREE@, e.token, e.start_index as int),
        tree_bits(
            DCT_TOKEN_TREE@,
            bucket(probs, plane, e.band, e.context),
            e.token,
            e.start_index as int,
        ) == branch_bits(event_branches(plane, e), probs),
{
    lemma_token_tree(e.token, e.start_index as int);
    let path = tree_path(DCT_TOKEN_TREE@, e.token, e.start_index as int);
    lemma_path_nodes(DCT_TOKEN_TREE@, e.token, e.start_index as int);
    let bits = tree_bits(
        DCT_TOKEN_TREE@,
        bucket(probs, plane, e.band, e.context),
        e.token,
        e.start_index as int,
    );
    let branches = event_branches(plane, e);
    assert forall|k: int| 0 <= k < path.len() implies bits[k] == branch_bits(branches, probs)[k] by {
        assert(0 <= path[k].1 < 11);
        assert(branches[k] == (
            slot(plane.code(), e.band as int, e.context as int, path[k].1),
            path[k].0,
        ));
    }
    assert(bits =~= branch_bits(branches, probs));
}

fn extra_unit(token: i8) -> (r: (usize, i32))
    requires
        DCT_CAT1 <= token <= DCT_CAT6,
    ensures
        r.0 as nat == extra_count(token),
        1 <= r.0 <= 11,
        r.1 as int == pow2((r.0 - 1) as nat),
{
    proof {
        lemma2_to64();
    }
    if token == DCT_CAT1 {
        (1, 1)
    } else if token == DCT_CAT2 {
        (2, 2)
    } else if token == DCT_CAT3 {
        (3, 4)
    } else if token == DCT_CAT4 {
        (4, 8)
    } else if token == DCT_CAT5 {
        (5, 16)
    } else {
        (11, 1024)
    }
}

fn write_extra_bits(encoder: &mut ArithmeticEncoder, token: i8, value: i32)
    requires
        old(encoder).wf(),
        DCT_CAT1 <= token <= DCT_CAT6,
        token == token_of(value),
        -2048 <= value <= 2048,
    ensures
        final(encoder).wf(),
        final(encoder)@ == old(encoder)@.write_all(extra_bits(token, value)),
{
    let category: usize = (token - DCT_CAT1) as usize;
    let category_probs: [u8; 12] = PROB_DCT_CAT[category];
    let size: i32 = if value < 0 {
        -value
    } else {
        value
    };
    let extra: i32 = size - DCT_CAT_BASE[category] as i32;
    let (count, first_unit) = extra_unit(token);
    let mut unit: i32 = first_unit;
    let ghost all = extra_bits(token, value);
    let mut j: usize = 0;
    assert(all.take(0) =~= Seq::<(bool, u8)>::empty());
    while j < count
        invariant
            encoder.wf(),
            j <= count <= 11,
            count as nat == extra_count(token),
            DCT_CAT1 <= token <= DCT_CAT6,
            category == token - 5,
            category_probs == PROB_DCT_CAT[category as int],
            extra == magnitude(value) - DCT_CAT_BASE[token - 5],
            0 <= extra <= 2048,
            all == extra_bits(token, value),
            j < count ==> unit as int == pow2((count - 1 - j) as nat),
            encoder@ == old(encoder)@.write_all(all.take(j as int)),
        decreases count - j,
    {
        proof {
            lemma_pow2_pos((count - 1 - j) as nat);
            if j + 1 < count {
                lemma_pow2_unfold((count - 1 - j) as nat);
            }
            assert(all.take(j + 1) =~= all.take(j as int).push(all[j as int]));
            lemma_write_all_push(old(encoder)@, all.take(j as int), all[j as int].0, all[j as int].1);
        }
        let bit = (extra / unit) % 2 == 1;
        encoder.write_bool(bit, category_probs[j]);
        unit = unit / 2;
        j = j + 1;
    }
    assert(all.take(j as int) =~= all);
}

/// Writes a token with the probabilities of a table.
pub fn write_event(
    encoder: &mut ArithmeticEncoder,
    table: &TokenProbTables,
    plane: Plane,
    event: &TokenEvent,
)
    requires
        old(encoder).wf(),
        valid_event(*event),
    ensures
        final(encoder).wf(),
        final(encoder)@ == old(encoder)@.write_all(
            event_bits(plane, *event, flat_table(*table)),
        ),
{
    let ghost probs = flat_table(*table);
    let token_probs: [u8; 11] = table[plane.to_usize()][event.band][event.context];
    proof {
        let (b, c) = (event.band as int, event.context as int);
        assert forall|l: int| 0 <= l < 11 implies token_probs@[l] == bucket(
            probs,
            plane,
            event.band,
            event.context,
        )[l] by {
            lemma_slot(plane.code(), b, c, l);
        }
        assert(token_probs@ =~= bucket(probs, plane, event.band, event.context));
    }
    let ghost branches = branch_bits(event_branches(plane, *event), probs);
    proof {
        lemma_event_tree_bits(plane, *event, probs);
    }
    encoder.write_with_tree_start_index(
        &DCT_TOKEN_TREE,
        &token_probs,
        event.token,
        event.start_index,
    );
    if event.token == DCT_EOB || event.token == DCT_0 {
        return ;
    }
    let ghost extra = extra_bits(event.token, event.quantized_value);
    if event.token >= DCT_CAT1 {
        write_extra_bits(encoder, event.token, event.quantized_value);
    } else {
        assert(extra =~= Seq::<(bool, u8)>::empty());
    }
    encoder.write_flag(event.quantized_value <= 0);
    proof {
        let c = old(encoder)@;
        lemma_write_all_concat(c, branches, extra);
        lemma_write_all_concat(c, branches + extra, flag_bits(event.quantized_value <= 0));
    }
}

/// Branch counts: for each probability how often the branch was false (even
/// entries) and true (odd entries).
pub type TokenCounts = [u64; 2112];

/// Position of the count of a branch.
pub open spec fn tally_index(b: (int, bool)) -> int {
    2 * b.0 + if b.1 {
        1int
    } else {
        0
    }
}

/// How often a branch with count position `n` occurs.
pub open spec fn occurrences(branches: Seq<(int, bool)>, n: int) -> nat
    decreases branches.len(),
{
    if branches.len() == 0 {
        0
    } else {
        occurrences(branches.drop_last(), n) + if tally_index(branches.last()) == n {
            1nat
        } else {
            0
        }
    }
}

/// Counts after some more branches.
pub open spec fn tallied(counts: Seq<u64>, branches: Seq<(int, bool)>) -> Seq<u64> {
    Seq::new(counts.len(), |n: int| (counts[n] + occurrences(branches, n)) as u64)
}

/// The counts can take `room` more branches.
pub open spec fn has_room(counts: Seq<u64>, room: nat) -> bool {
    forall|n: int| 0 <= n < counts.len() ==> #[trigger] counts[n] + room <= u64::MAX
}

pub proof fn lemma_occurrences_bound(branches: Seq<(int, bool)>, n: int)
    ensures
        occurrences(branches, n) <= branches.len(),
    decreases branches.len(),
{
    if branches.len() > 0 {
        lemma_occurrences_bound(branches.drop_last(), n);
    }
}

pub proof fn lemma_occurrences_concat(a: Seq<(int, bool)>, b: Seq<(int, bool)>, n: int)
    ensures
        occurrences(a + b, n) == occurrences(a, n) + occurrences(b, n),
    decreases b.len(),
{
    if b.len() == 0 {
        assert(a + b =~= a);
    } else {
        assert((a + b).drop_last() =~= a + b.drop_last());
        lemma_occurrences_concat(a, b.drop_last(), n);
    }
}

/// Counting in two parts is counting the whole.
pub proof fn lemma_tallied_concat(counts: Seq<u64>, a: Seq<(int, bool)>, b: Seq<(int, bool)>)
    requires
        has_room(counts, a.len() + b.len()),
    ensures
        tallied(tallied(counts, a), b) == tallied(counts, a + b),
        has_room(tallied(counts, a), b.len()),
{
    assert forall|n: int| 0 <= n < counts.len() implies #[trigger] tallied(counts, a)[n] + b.len()
        <= u64::MAX && tallied(tallied(counts, a), b)[n] == tallied(counts, a + b)[n] by {
        assert(counts[n] + (a.len() + b.len()) <= u64::MAX);
        lemma_occurrences_bound(a, n);
        lemma_occurrences_bound(b, n);
        lemma_occurrences_concat(a, b, n);
    }
    assert(tallied(tallied(counts, a), b) =~= tallied(counts, a + b));
}

/// Counts before any branch.
pub open spec fn no_counts() -> Seq<u64> {
    Seq::new(2112, |n: int| 0u64)
}

/// No count exceeds the number of branches.
pub proof fn lemma_tallied_bound(branches: Seq<(int, bool)>)
    requires
        branches.len() <= u64::MAX,
    ensures
        forall|n: int| 0 <= n < 2112 ==> #[trigger] tallied(no_counts(), branches)[n] <= branches.len(),
        has_room(no_counts(), branches.len()),
{
    assert forall|n: int| 0 <= n < 2112 implies #[trigger] tallied(no_counts(), branches)[n]
        <= branches.len() by {
        lemma_occurrences_bound(branches, n);
    }
}

/// A token takes at most as many branches as the tree has entries.
proof fn lemma_event_branches_len(plane: Plane, e: TokenEvent)
    requires
        valid_event(e),
    ensures
        event_branches(plane, e).len() <= 22,
        forall|k: int|
            0 <= k < event_branches(plane, e).len() ==> 0 <= (#[trigger] event_branches(plane, e)[k]).0
                < 1056,
{
    lemma_token_tree(e.token, e.start_index as int);
    lemma_path_nodes(DCT_TOKEN_TREE@, e.token, e.start_index as int);
    let path = tree_path(DCT_TOKEN_TREE@, e.token, e.start_index as int);
    assert forall|k: int| 0 <= k < event_branches(plane, e).len() implies 0 <= (
    #[trigger] event_branches(plane, e)[k]).0 < 1056 by {
        assert(0 <= path[k].1 < 11);
        lemma_slot(plane.code(), e.band as int, e.context as int, path[k].1);
    }
}

/// Bound on the branches of a sequence of tokens.
pub proof fn lemma_events_branches_len(plane: Plane, events: Seq<TokenEvent>)
    requires
        forall|k: int| 0 <= k < events.len() ==> valid_event(#[trigger] events[k]),
    ensures
        events_branches(plane, events).len() <= 22 * events.len(),
    decreases events.len(),
{
    if events.len() > 0 {
        lemma_events_branches_len(plane, events.drop_last());
        assert(valid_event(events[events.len() - 1]));
        lemma_event_branches_len(plane, events.last());
    }
}

fn count_event(counts: &mut TokenCounts, plane: Plane, event: &TokenEvent)
    requires
        valid_event(*event),
        has_room(old(counts)@, event_branches(plane, *event).len()),
    ensures
        final(counts)@ == tallied(old(counts)@, event_branches(plane, *event)),
{
    let ghost c = counts@;
    let ghost all = event_branches(plane, *event);
    proof {
        lemma_token_tree(event.token, event.start_index as int);
        lemma_event_branches_len(plane, *event);
    }
    let path = tree_encode_path(&DCT_TOKEN_TREE, event.token, event.start_index);
    let base: usize = ((plane.to_usize() * 8 + event.band) * 3 + event.context) * 11;
    let mut i: usize = 0;
    assert(all.len() == plain_path(path@).len());
    assert(all.take(0) =~= Seq::<(int, bool)>::empty());
    assert(tallied(c, all.take(0)) =~= c);
    while i < path.len()
        invariant
            i <= path@.len() == all.len(),
            plain_path(path@) == tree_path(
                DCT_TOKEN_TREE@,
                event.token,
                event.start_index as int,
            ),
            all == event_branches(plane, *event),
            forall|k: int| 0 <= k < all.len() ==> 0 <= (#[trigger] all[k]).0 < 1056,
            base == slot(plane.code(), event.band as int, event.context as int, 0),
            has_room(c, all.len()),
            c.len() == 2112,
            counts@ == tallied(c, all.take(i as int)),
        decreases path@.len() - i,
    {
        let (bit, prob_index) = path[i];
        proof {
            assert(plain_path(path@)[i as int] == (bit, prob_index as int));
            assert(all[i as int] == (
                slot(plane.code(), event.band as int, event.context as int, prob_index as int),
                bit,
            ));
            assert(all.take(i + 1).drop_last() =~= all.take(i as int));
            assert(all.take(i + 1).last() == all[i as int]);
        }
        let index: usize = if bit {
            2 * (base + prob_index) + 1
        } else {
            2 * (base + prob_index)
        };
        proof {
            assert(c[index as int] + all.len() <= u64::MAX);
            lemma_occurrences_bound(all.take(i as int), index as int);
        }
        counts[index] = counts[index] + 1;
        assert(counts@ =~= tallied(c, all.take(i + 1)));
        i = i + 1;
    }
    assert(all.take(i as int) =~= all);
}

/// Counts the branches of the tokens of a block.
pub fn accumulate_token_events(counts: &mut TokenCounts, plane: Plane, events: &[TokenEvent])
    requires
        forall|k: int| 0 <= k < events@.len() ==> valid_event(#[trigger] events@[k]),
        has_room(old(counts)@, events_branches(plane, events@).len()),
    ensures
        final(counts)@ == tallied(old(counts)@, events_branches(plane, events@)),
{
    let ghost c = counts@;
    let ghost all = events@;
    let mut i: usize = 0;
    assert(all.take(0) =~= Seq::<TokenEvent>::empty());
    assert(tallied(c, events_branches(plane, all.take(0))) =~= c);
    while i < events.len()
        invariant
            i <= events@.len(),
            all == events@,
            forall|k: int| 0 <= k < events@.len() ==> valid_event(#[trigger] events@[k]),
            has_room(c, events_branches(plane, all).len()),
            counts@ == tallied(c, events_branches(plane, all.take(i as int))),
        decreases events@.len() - i,
    {
        let ghost done = events_branches(plane, all.take(i as int));
        let ghost next = event_branches(plane, all[i as int]);
        proof {
            assert(all.take(i + 1).drop_last() =~= all.take(i as int));
            assert(all.take(i + 1).last() == all[i as int]);
            lemma_events_branches_prefix(plane, all, i + 1);
            assert forall|n: int| 0 <= n < c.len() implies #[trigger] c[n] + (done.len() + next.len())
                <= u64::MAX by {
                assert(c[n] + events_branches(plane, all).len() <= u64::MAX);
            }
            lemma_tallied_concat(c, done, next);
        }
        count_event(counts, plane, &events[i]);
        i = i + 1;
    }
    assert(all.take(i as int) =~= all);
}

proof fn lemma_events_branches_prefix(plane: Plane, events: Seq<TokenEvent>, n: int)
    requires
        0 <= n <= events.len(),
    ensures
        events_branches(plane, events.take(n)).len() <= events_branches(plane, events).len(),
    decreases events.len(),
{
    if n < events.len() {
        lemma_events_branches_prefix(plane, events.drop_last(), n);
        assert(events.drop_last().take(n) =~= events.take(n));
    } else {
        assert(events.take(n) =~= events);
    }
}

} // verus!
