use webp_lossy::arithmetic_encoder::ArithmeticEncoder;
use webp_lossy::binary64::Binary64;
use webp_lossy::blocks::{add_block, macroblock_sse, residual_block};
use webp_lossy::common::{
    ChromaMode, IntraMode, LumaMode, Plane, KEYFRAME_BPRED_MODE_TREE, KEYFRAME_YMODE_PROBS,
    KEYFRAME_YMODE_TREE,
};
use webp_lossy::cost::{
    bpred_mode_bit_cost, branch_bit_cost, coeff_rate_estimate, lagrangian_cost,
    mode_decision_lambda, total_branch_bit_cost, tree_bit_cost,
};
use webp_lossy::encoder::{ColorType, Complexity, MacroblockInfo, Vp8Encoder};
use webp_lossy::filter::derive_filter_level;
use webp_lossy::loop_filter::{filter_line, FilterKind, FilterLimits};
use webp_lossy::output::check_partitions;
use webp_lossy::prediction::{
    clamp_to_pixel, create_border_chroma_from_plane, create_border_luma_from_plane,
    predict_subblock, predict_whole,
};
use webp_lossy::probabilities::{derive_updated_token_probs, prob_at, skip_probability};
use webp_lossy::quantize::{
    dequantize, get_chroma_block_coeffs, get_coeffs0_from_block,
    get_dequantized_blocks_from_coeffs_chroma, get_dequantized_blocks_from_coeffs_luma_16x16,
    get_luma_block_coeffs_16x16, quantize,
};
use webp_lossy::segments::{
    ac_quant, build_segment, dc_quant, quartiles_of, segment_tree_probs_for, QuantizationIndices,
};
use webp_lossy::tables::coeff_probs::default_prob_at;
use webp_lossy::tables::mode_probs::bpred_probs_for;
use webp_lossy::tables::update_probs::update_flag_prob_at;
use webp_lossy::tokens::{accumulate_token_events, tokenize_block, TokenEvent};
use webp_lossy::transform::{dct4x4, idct4x4, iwht4x4, wht4x4};
use webp_lossy::yuv::{convert_image_y, convert_image_yuv};

struct Random(u64);

impl Random {
    fn next(&mut self) -> u64 {
        self.0 ^= self.0 << 13;
        self.0 ^= self.0 >> 7;
        self.0 ^= self.0 << 17;
        self.0
    }

    fn below(&mut self, n: u64) -> u64 {
        self.next() % n
    }
}

/// The number as a double.
fn float(b: Binary64) -> f64 {
    b.mant as f64 * 2f64.powi(b.exp)
}

fn binary(v: f64) -> Binary64 {
    Binary64::from_bits(v.to_bits())
}

// ---------------------------------------------------------------------------
// Double precision arithmetic

#[test]
fn sums_and_products_are_those_of_doubles() {
    let mut random = Random(0x9e37_79b9_7f4a_7c15);
    for _ in 0..20000 {
        let a = random.next() as f64 / 2f64.powi(random.below(70) as i32);
        let b = random.next() as f64 / 2f64.powi(random.below(70) as i32);
        assert_eq!(float(binary(a)), a);
        assert_eq!(float(binary(a).add(binary(b))), a + b);
        assert_eq!(float(binary(a).mul(binary(b))), a * b);
        assert_eq!(binary(a).lt(binary(b)), a < b);
        let (negative, size) = binary(a).sub(binary(b));
        assert_eq!(if negative { -float(size) } else { float(size) }, a - b);
    }
}

#[test]
fn whole_numbers_are_rounded_to_doubles() {
    let mut random = Random(7);
    for shift in 0..64 {
        let n = random.next() >> shift;
        assert_eq!(float(Binary64::from_u64(n)), n as f64);
    }
    assert_eq!(float(Binary64::from_u64(u64::MAX)), u64::MAX as f64);
    assert_eq!(float(Binary64::from_u64((1 << 53) + 1)), 9007199254740992.0);
    assert_eq!(float(Binary64::zero()), 0.0);
}

#[test]
fn signed_comparisons_are_those_of_doubles() {
    let numbers = [-3.5, -1.0, 0.0, 0.25, 1.0, 8.0];
    for &a in &numbers {
        for &b in &numbers {
            let x = (a < 0.0, binary(f64::abs(a)));
            let y = (b < 0.0, binary(f64::abs(b)));
            assert_eq!(Binary64::signed_gt(x, y), a > b, "{a} > {b}");
        }
    }
}

// ---------------------------------------------------------------------------
// Costs

fn float_branch_cost(prob: u8, branch: bool) -> f64 {
    let p_false = f64::from(prob) / 256.0;
    let p = if branch { 1.0 - p_false } else { p_false };
    -p.clamp(f64::MIN_POSITIVE, 1.0).log2()
}

#[test]
fn branch_costs_are_binary_logarithms() {
    for prob in 0..=255u8 {
        for branch in [false, true] {
            let exact = float_branch_cost(prob, branch);
            assert_eq!(float(branch_bit_cost(prob, branch)), exact, "{prob} {branch}");
        }
    }
    assert_eq!(float(branch_bit_cost(128, false)), 1.0);
    assert_eq!(float(branch_bit_cost(64, false)), 2.0);
    assert_eq!(float(branch_bit_cost(0, false)), 1022.0);
}

#[test]
fn tree_costs_add_the_costs_of_the_branches() {
    // TM is reached by true, true, true
    let tm = float_branch_cost(128, true)
        + float_branch_cost(163, true)
        + float_branch_cost(145, true);
    let cost = float(tree_bit_cost(&KEYFRAME_YMODE_TREE, &KEYFRAME_YMODE_PROBS, 3));
    assert!((cost - (float_branch_cost(145, true) + float_branch_cost(156, true)
        + float_branch_cost(128, true))).abs() < 1e-12);
    assert!((cost - tm).abs() > 1e-3);
    let b = float(tree_bit_cost(&KEYFRAME_YMODE_TREE, &KEYFRAME_YMODE_PROBS, 4));
    assert_eq!(b, float_branch_cost(145, false));
}

#[test]
fn subblock_mode_costs_depend_on_the_neighbours() {
    let probs = bpred_probs_for(IntraMode::VE, IntraMode::HE);
    let cost = float(bpred_mode_bit_cost(IntraMode::VE, IntraMode::HE, IntraMode::DC));
    assert_eq!(cost, float_branch_cost(probs[0], false));
    let tm = float(bpred_mode_bit_cost(IntraMode::VE, IntraMode::HE, IntraMode::TM));
    assert_eq!(tm, float_branch_cost(probs[1], false) + float_branch_cost(probs[0], true));
    assert_ne!(
        cost,
        float(bpred_mode_bit_cost(IntraMode::DC, IntraMode::DC, IntraMode::DC))
    );
    assert_eq!(KEYFRAME_BPRED_MODE_TREE[0], 0);
}

#[test]
fn rates_count_coefficients_and_their_sizes() {
    assert_eq!(coeff_rate_estimate(&[0, 0, 0]), 0);
    assert_eq!(coeff_rate_estimate(&[3, 0, -2, 1]), 4 + 3 + 2);
}

#[test]
fn lambda_grows_with_the_square_of_the_step() {
    for index in [0u8, 40, 127] {
        let segment = build_segment(index, 0, &QuantizationIndices::plain(index));
        let q = f64::from(segment.yac);
        assert_eq!(float(mode_decision_lambda(&segment)), 0.02 * q * q);
    }
}

#[test]
fn costs_weigh_rate_against_distortion() {
    let segment = build_segment(50, 0, &QuantizationIndices::plain(50));
    let q = f64::from(segment.yac);
    let lambda = mode_decision_lambda(&segment);
    let cost = lagrangian_cost(12345, lambda, Binary64::from_u64(678));
    assert_eq!(float(cost), 12345.0 + (0.02 * q * q) * 678.0);
    let rate = total_branch_bit_cost(10, 30, 77);
    let expected = 10.0 * float_branch_cost(77, false) + 30.0 * float_branch_cost(77, true);
    assert_eq!(float(rate), expected);
}

// ---------------------------------------------------------------------------
// Probabilities

#[test]
fn skip_probabilities() {
    assert_eq!(skip_probability(0, 0), 128);
    assert_eq!(skip_probability(0, 10), 255);
    assert_eq!(skip_probability(10, 10), 1);
    assert_eq!(skip_probability(1, 4), 192);
    assert_eq!(skip_probability(u32::MAX, u32::MAX), 1);
    for total in 1..40 {
        for skipped in 0..total {
            assert!(skip_probability(skipped + 1, total) <= skip_probability(skipped, total));
        }
    }
}

#[test]
fn token_probabilities_stay_at_their_defaults_without_evidence() {
    let probs = derive_updated_token_probs(&[0; 2112]);
    for n in 0..1056 {
        assert_eq!(prob_at(&probs, n), default_prob_at(n));
    }
    let mut few = [0u64; 2112];
    few[0] = 19;
    assert_eq!(prob_at(&derive_updated_token_probs(&few), 0), default_prob_at(0));
}

#[test]
fn token_probabilities_follow_what_pays_for_itself() {
    for n in [0usize, 17, 500, 1055] {
        let pairs = [
            (0u64, 5000u64),
            (5000, 0),
            (1000, 3000),
            (12, 9),
            (300, 310),
            (0, 1 << 60),
            (7, 1 << 57),
        ];
        for (f, t) in pairs {
            let mut counts = [0u64; 2112];
            counts[2 * n] = f;
            counts[2 * n + 1] = t;
            let probs = derive_updated_token_probs(&counts);
            let default_prob = default_prob_at(n);
            let candidate = ((256 * f + (f + t) / 2) / (f + t)).max(1).min(255) as u8;
            let total = |p: u8| {
                f as f64 * float_branch_cost(p, false) + t as f64 * float_branch_cost(p, true)
            };
            let flag = update_flag_prob_at(n);
            let overhead =
                8.0 + float_branch_cost(flag, true) - float_branch_cost(flag, false);
            let saved = total(default_prob) - total(candidate);
            let expected = if candidate != default_prob && saved > overhead {
                candidate
            } else {
                default_prob
            };
            assert_eq!(prob_at(&probs, n), expected, "slot {n}, {f} against {t}");
            for other in 0..1056 {
                if other != n {
                    assert_eq!(prob_at(&probs, other), default_prob_at(other));
                }
            }
        }
    }
}

// ---------------------------------------------------------------------------
// Quantisers and segments

#[test]
fn filter_levels_are_an_eighth_of_the_quantiser_index() {
    assert_eq!(derive_filter_level(0), 0);
    assert_eq!(derive_filter_level(7), 0);
    assert_eq!(derive_filter_level(8), 1);
    assert_eq!(derive_filter_level(127), 15);
    assert_eq!(derive_filter_level(255), 31);
}

#[test]
fn quantiser_indices_are_limited() {
    assert_eq!((dc_quant(-5), dc_quant(0), dc_quant(1)), (4, 4, 5));
    assert_eq!((dc_quant(127), dc_quant(300)), (157, 157));
    assert_eq!((ac_quant(-1), ac_quant(60), ac_quant(127), ac_quant(128)), (4, 70, 284, 284));
}

#[test]
fn segments_have_the_steps_of_a_decoder() {
    let low = build_segment(0, -6, &QuantizationIndices::plain(0));
    assert_eq!((low.ydc, low.yac, low.y2dc, low.y2ac, low.uvdc, low.uvac), (4, 4, 8, 8, 4, 4));
    assert_eq!(low.quantizer_level, -6);
    let high = build_segment(127, 7, &QuantizationIndices::plain(127));
    assert_eq!(
        (high.ydc, high.yac, high.y2dc, high.y2ac, high.uvdc, high.uvac),
        (157, 284, 314, 440, 132, 284)
    );
    let indices = QuantizationIndices {
        yac_abs: 20,
        ydc_delta: Some(3),
        y2dc_delta: Some(-4),
        y2ac_delta: Some(5),
        uvdc_delta: Some(-15),
        uvac_delta: Some(15),
    };
    let mixed = build_segment(20, 2, &indices);
    assert_eq!(mixed.yac, ac_quant(22));
    assert_eq!(mixed.ydc, dc_quant(25));
    assert_eq!(mixed.y2dc, 2 * dc_quant(18));
    assert_eq!(mixed.y2ac, ac_quant(27) * 155 / 100);
    assert_eq!(mixed.uvdc, dc_quant(7));
    assert_eq!(mixed.uvac, ac_quant(37));
}

#[test]
fn better_quality_has_finer_steps() {
    let steps = |quality: u8| {
        let mut encoder = Vp8Encoder::new();
        encoder.setup_encoding(quality, 16, 16, vec![0; 256], vec![0; 64], vec![0; 64]);
        let s: Vec<[i16; 6]> = encoder
            .segments
            .iter()
            .map(|s| [s.ydc, s.yac, s.y2dc, s.y2ac, s.uvdc, s.uvac])
            .collect();
        (s, encoder.frame.filter_level)
    };
    for quality in 0..100 {
        let (coarse, strong) = steps(quality);
        let (fine, weak) = steps(quality + 1);
        assert!(weak <= strong);
        for i in 0..4 {
            for k in 0..6 {
                assert!(fine[i][k] <= coarse[i][k]);
                assert!(i == 0 || coarse[i - 1][k] <= coarse[i][k]);
            }
        }
    }
    assert_eq!(steps(100).1, 0);
    assert_eq!(steps(0).1, 15);
}

#[test]
fn segments_split_the_macroblocks_evenly() {
    let mut random = Random(3);
    for n in 1..60usize {
        let variances: Vec<u64> = (0..n).map(|_| random.below(7)).collect();
        let ids = quartiles_of(&variances);
        let mut order: Vec<usize> = (0..n).collect();
        order.sort_by_key(|&i| variances[i]);
        for (rank, &i) in order.iter().enumerate() {
            assert_eq!(usize::from(ids[i]), rank * 4 / n);
        }
        for k in 0..4u8 {
            let count = ids.iter().filter(|&&id| id == k).count();
            assert!(n / 4 <= count && count <= (n + 3) / 4);
        }
    }
}

#[test]
fn segment_tree_probabilities() {
    assert_eq!(segment_tree_probs_for(&[0, 1, 2, 3]), [128, 128, 128]);
    assert_eq!(segment_tree_probs_for(&[0, 0, 0, 1]), [255, 192, 128]);
    assert_eq!(segment_tree_probs_for(&[]), [128, 128, 128]);
}

#[test]
fn variances_are_those_of_the_source() {
    let mut encoder = Vp8Encoder::new();
    let mut y = vec![10u8; 512];
    for (i, v) in y.iter_mut().enumerate() {
        if i % 32 >= 16 {
            *v = if (i / 32 + i) % 2 == 0 { 0 } else { 255 };
        }
    }
    encoder.setup_encoding(50, 32, 16, y, vec![0; 128], vec![0; 128]);
    assert_eq!(encoder.macroblock_luma_variance(0, 0), 0);
    assert_eq!(encoder.macroblock_luma_variance(1, 0) as f64 / 65536.0, 127.5 * 127.5);
    assert_eq!(encoder.classify_segments(), vec![0, 2]);
    assert_eq!(encoder.mb_segment_ids, vec![0, 2]);
}

// ---------------------------------------------------------------------------
// Transforms and quantisation

#[test]
fn transforms_of_flat_blocks() {
    let mut block = [5i32; 16];
    dct4x4(&mut block);
    let mut expected = [0i32; 16];
    expected[0] = 40;
    expected[1] = 1;
    assert_eq!(block, expected);
    idct4x4(&mut block);
    assert_eq!(block, [5; 16]);
    expected[1] = 0;
    let mut block = [8i32; 16];
    wht4x4(&mut block);
    expected[0] = 64;
    assert_eq!(block, expected);
    iwht4x4(&mut block);
    assert_eq!(block, [8; 16]);
    let mut zero = [0i32; 16];
    idct4x4(&mut zero);
    iwht4x4(&mut zero);
    assert_eq!(zero, [0; 16]);
}

#[test]
fn transforms_nearly_undo_each_other() {
    let mut random = Random(11);
    for _ in 0..2000 {
        let mut block = [0i32; 16];
        for v in block.iter_mut() {
            *v = random.below(511) as i32 - 255;
        }
        let mut back = block;
        dct4x4(&mut back);
        assert!(back.iter().all(|c| c.abs() <= 2040));
        idct4x4(&mut back);
        assert!(block.iter().zip(back.iter()).all(|(a, b)| (a - b).abs() <= 2));
        let mut back = block;
        wht4x4(&mut back);
        iwht4x4(&mut back);
        assert!(block.iter().zip(back.iter()).all(|(a, b)| (a - b).abs() <= 1));
    }
}

#[test]
fn quantising_truncates_towards_zero() {
    let mut block = [0i32; 16];
    block[0] = -29;
    block[1] = 29;
    block[2] = -9;
    quantize(&mut block, 10, 7);
    assert_eq!(&block[..4], &[-2, 4, -1, 0]);
    dequantize(&mut block, 10, 7);
    assert_eq!(&block[..4], &[-20, 28, -7, 0]);
}

#[test]
fn dequantising_keeps_zeros() {
    let mut random = Random(5);
    for _ in 0..500 {
        let mut levels: Vec<i32> = (0..64).map(|_| random.below(4001) as i32 - 2000).collect();
        quantize(&mut levels, 157, 284);
        let before = levels.clone();
        dequantize(&mut levels, 157, 284);
        assert!(before.iter().zip(levels.iter()).all(|(a, b)| (*a == 0) == (*b == 0)));
    }
}

#[test]
fn whole_macroblocks_keep_their_dc_in_a_block_of_its_own() {
    let segment = build_segment(10, 0, &QuantizationIndices::plain(10));
    let mut blocks = [0i32; 256];
    for k in 0..16 {
        blocks[16 * k] = 80;
        blocks[16 * k + 1] = 3 * i32::from(segment.yac);
    }
    assert_eq!(get_coeffs0_from_block(&blocks), [80; 16]);
    let mut coeffs = get_luma_block_coeffs_16x16(&blocks, &segment);
    assert!((0..16).all(|k| coeffs.y_coeffs[16 * k] == 0 && coeffs.y_coeffs[16 * k + 1] == 3));
    assert_eq!(coeffs.y2_coeffs[0], 640 / i32::from(segment.y2dc));
    let (residue, nonzero) = get_dequantized_blocks_from_coeffs_luma_16x16(&mut coeffs, &segment);
    assert_eq!(nonzero, [true; 16]);
    let mut block = [0i32; 16];
    block[0] = 640 / i32::from(segment.y2dc) * i32::from(segment.y2dc);
    iwht4x4(&mut block);
    block = [block[0], 3 * i32::from(segment.yac), 0, 0, 0, 0, 0, 0, 0, 0, 0, 0, 0, 0, 0, 0];
    idct4x4(&mut block);
    assert!((0..16).all(|k| residue[16 * k..16 * k + 16] == block));
}

#[test]
fn chroma_macroblocks() {
    let segment = build_segment(10, 0, &QuantizationIndices::plain(10));
    let mut blocks = [0i32; 64];
    blocks[16] = 5 * i32::from(segment.uvdc) + 1;
    let coeffs = get_chroma_block_coeffs(&blocks, &segment);
    assert_eq!(coeffs[16], 5);
    let (residue, nonzero) = get_dequantized_blocks_from_coeffs_chroma(&coeffs, &segment);
    assert_eq!(nonzero, [false, true, false, false]);
    assert_eq!(residue[16], (5 * i32::from(segment.uvdc) + 4) >> 3);
    assert_eq!(residue[0], 0);
}

// ---------------------------------------------------------------------------
// Prediction

#[test]
fn borders_outside_the_frame() {
    let plane = vec![77u8; 32 * 32];
    let ws = create_border_luma_from_plane(0, 0, 2, &plane);
    assert!(ws[..21].iter().all(|&p| p == 127));
    assert!((1..17).all(|row| ws[21 * row] == 129));
    let inner = create_border_luma_from_plane(1, 1, 2, &plane);
    assert!(inner[..21].iter().all(|&p| p == 77));
    let chroma = create_border_chroma_from_plane(0, 1, 4, &plane);
    assert_eq!(chroma[0], 129);
    assert!(chroma[1..9].iter().all(|&p| p == 77));
}

#[test]
fn whole_predictions() {
    let mut ws = [0u8; 81];
    for i in 0..8 {
        ws[1 + i] = 10 * (i as u8 + 1);
        ws[9 * (i + 1)] = 100 + i as u8;
    }
    ws[0] = 50;
    let run = |mode: ChromaMode, above: bool, left: bool| {
        let mut copy = ws;
        predict_whole(&mut copy, 8, 9, mode, above, left);
        copy
    };
    assert_eq!(run(ChromaMode::V, true, true)[9 * 4 + 3], 30);
    assert_eq!(run(ChromaMode::H, true, true)[9 * 4 + 3], 103);
    assert_eq!(run(ChromaMode::TM, true, true)[9 * 4 + 3], 103 + 30 - 50);
    let above: u32 = (1..9).map(|i| 10 * i).sum();
    let left: u32 = (0..8).map(|i| 100 + i).sum();
    assert_eq!(u32::from(run(ChromaMode::DC, true, true)[10]), (above + left + 8) >> 4);
    assert_eq!(u32::from(run(ChromaMode::DC, true, false)[10]), (above + 4) >> 3);
    assert_eq!(u32::from(run(ChromaMode::DC, false, true)[10]), (left + 4) >> 3);
    assert_eq!(run(ChromaMode::DC, false, false)[10], 128);
}

#[test]
fn subblock_predictions() {
    let mut ws = [0u8; 357];
    // the corner, eight pixels above and four to the left
    ws[0] = 40;
    for i in 0..8 {
        ws[1 + i] = 50 + 4 * i as u8;
    }
    for i in 0..4 {
        ws[21 * (i + 1)] = 30 - 4 * i as u8;
    }
    let dc = predict_subblock(&ws, IntraMode::DC, 1, 1);
    assert_eq!(dc, [((50 + 54 + 58 + 62 + 30 + 26 + 22 + 18 + 4) / 8) as u8; 16]);
    let tm = predict_subblock(&ws, IntraMode::TM, 1, 1);
    assert_eq!(tm[5], 26 + 54 - 40);
    let ve = predict_subblock(&ws, IntraMode::VE, 1, 1);
    assert_eq!(ve[0], ((40 + 2 * 50 + 54 + 2) / 4) as u8);
    assert_eq!(ve[12], ve[0]);
    let he = predict_subblock(&ws, IntraMode::HE, 1, 1);
    assert_eq!(he[0], ((40 + 2 * 30 + 26 + 2) / 4) as u8);
    assert_eq!(he[15], ((22 + 3 * 18 + 2) / 4) as u8);
    let ld = predict_subblock(&ws, IntraMode::LD, 1, 1);
    assert_eq!(ld[0], ((50 + 2 * 54 + 58 + 2) / 4) as u8);
    assert_eq!(ld[15], ((74 + 3 * 78 + 2) / 4) as u8);
    let rd = predict_subblock(&ws, IntraMode::RD, 1, 1);
    assert_eq!(rd[0], ((30 + 2 * 40 + 50 + 2) / 4) as u8);
    let hu = predict_subblock(&ws, IntraMode::HU, 1, 1);
    assert_eq!(hu[15], 18);
}

#[test]
fn pixels_are_clamped() {
    assert_eq!((clamp_to_pixel(-1), clamp_to_pixel(7), clamp_to_pixel(256)), (0, 7, 255));
    let mut residue = [0i32; 16];
    residue[0] = 300;
    residue[1] = -300;
    residue[2] = 3;
    assert_eq!(&add_block(&[100; 16], &residue)[..4], &[255, 0, 103, 100]);
}

#[test]
fn residuals_and_errors_compare_source_and_prediction() {
    let ws = [100u8; 81];
    let mut src = vec![100u8; 16 * 16];
    src[8 * 16 + 8] = 90;
    src[9 * 16 + 9] = 103;
    let block = residual_block(&ws, 9, 1, 1, &src, 16, 8, 8, 8);
    assert_eq!(block[0], -10);
    assert_eq!(block[5], 3);
    assert_eq!(block.iter().filter(|&&v| v != 0).count(), 2);
    assert_eq!(macroblock_sse(&ws, 8, 9, &src, 16, 8, 8), 109);
}

// ---------------------------------------------------------------------------
// Tokens

#[test]
fn blocks_are_cut_into_tokens() {
    let mut block = [0i32; 16];
    block[0] = 20;
    block[4] = -71;
    let (events, nonzero) = tokenize_block(&block, Plane::YCoeff0, 1, 10, 10);
    assert!(nonzero);
    let event = |band, context, token, start_index, quantized_value| TokenEvent {
        band,
        context,
        token,
        start_index,
        quantized_value,
    };
    assert_eq!(
        events,
        vec![
            event(0, 1, 2, 0, 2),
            event(1, 2, 0, 0, 0),
            event(2, 0, 6, 2, -7),
            event(3, 2, 11, 0, 0),
        ]
    );
    let (events, nonzero) = tokenize_block(&[0; 16], Plane::YCoeff1, 2, 10, 10);
    assert_eq!((events, nonzero), (vec![event(1, 2, 11, 0, 0)], false));
    let (events, _) = tokenize_block(&[30; 16], Plane::Chroma, 0, 10, 10);
    assert_eq!(events.len(), 16);
    assert!(events.iter().all(|e| e.token == 3));
}

#[test]
fn every_branch_of_a_token_is_counted() {
    let mut counts = [0u64; 2112];
    let (events, _) = tokenize_block(&[30; 16], Plane::Chroma, 0, 10, 10);
    accumulate_token_events(&mut counts, Plane::Chroma, &events);
    // the token for 3 takes six branches: not the end, not zero, not one,
    // small, not two, and not four
    assert_eq!(counts.iter().sum::<u64>(), 6 * 16);
    let bucket = (2 * 8 * 3) * 11;
    assert_eq!(counts[2 * bucket..2 * bucket + 10], [0, 1, 0, 1, 0, 1, 1, 0, 0, 1]);
    assert_eq!(counts[2 * bucket + 10..2 * bucket + 12], [1, 0]);
}

// ---------------------------------------------------------------------------
// Filter

#[test]
fn filters_smooth_small_steps_only() {
    let limits = FilterLimits { hev_threshold: 0, interior_limit: 5, edge_limit: 40 };
    let step = [100u8, 100, 100, 100, 110, 110, 110, 110];
    let mut line = step;
    filter_line(&mut line, FilterKind::Macroblock, &limits);
    assert_eq!(line, [100, 101, 103, 104, 106, 107, 109, 110]);
    let mut line = step;
    filter_line(&mut line, FilterKind::Subblock, &limits);
    assert_eq!(line, [100, 100, 102, 104, 106, 108, 110, 110]);
    let mut line = step;
    filter_line(&mut line, FilterKind::Simple, &limits);
    assert_eq!(line, [100, 100, 100, 102, 107, 110, 110, 110]);
    let tall = [10u8, 10, 10, 10, 200, 200, 200, 200];
    for kind in [FilterKind::Macroblock, FilterKind::Subblock, FilterKind::Simple] {
        let mut line = tall;
        filter_line(&mut line, kind, &limits);
        assert_eq!(line, tall);
    }
}

#[test]
fn no_filter_at_level_zero() {
    let mut encoder = Vp8Encoder::new();
    let pixels: Vec<u8> = (0..32 * 32 * 3).map(|i| (i * 7 % 251) as u8).collect();
    encoder.encode_image(&pixels, ColorType::Rgb8, 32, 32, 100);
    let before = encoder.recon_y.clone();
    encoder.apply_loop_filter();
    assert_eq!(encoder.recon_y, before);
    assert_eq!(encoder.calculate_filter_parameters(0), (0, 0, 0));
    let mut encoder = Vp8Encoder::new();
    encoder.encode_image(&pixels, ColorType::Rgb8, 32, 32, 20);
    assert_eq!(encoder.calculate_filter_parameters(3), (12, 2, 0));
    for (i, p) in encoder.recon_y.iter_mut().enumerate() {
        *p = if i % 32 < 16 { 100 } else { 110 };
    }
    encoder.apply_loop_filter();
    for row in 0..12 {
        assert_eq!(
            encoder.recon_y[32 * row + 12..32 * row + 20],
            [100, 101, 103, 104, 106, 107, 109, 110]
        );
    }
}

#[test]
fn the_filter_reads_nothing_at_level_zero() {
    let mut encoder = Vp8Encoder::new();
    encoder.macroblock_width = 2;
    encoder.macroblock_height = 1;
    encoder.recon_y = vec![1, 2, 3];
    encoder.mb_info_cache = vec![None];
    encoder.apply_loop_filter();
    assert_eq!(encoder.recon_y, vec![1, 2, 3]);
    assert_eq!(encoder.mb_info_cache, vec![None]);
}

#[test]
fn a_lone_macroblock_without_coefficients_is_not_filtered() {
    let mut encoder = Vp8Encoder::new();
    encoder.macroblock_width = 1;
    encoder.macroblock_height = 1;
    encoder.frame.filter_level = 15;
    let y: Vec<u8> = (0..256).map(|i| if i % 16 < 4 { 100 } else { 110 }).collect();
    encoder.recon_y = y.clone();
    encoder.recon_u = vec![128; 64];
    encoder.recon_v = vec![128; 64];
    encoder.mb_info_cache = vec![Some(MacroblockInfo::default())];
    encoder.apply_loop_filter();
    assert_eq!(encoder.recon_y, y);
    assert_eq!(encoder.recon_u, vec![128; 64]);
    assert_eq!(encoder.recon_v, vec![128; 64]);
}

#[test]
fn a_step_between_two_macroblocks_is_smoothed() {
    let mut encoder = Vp8Encoder::new();
    encoder.macroblock_width = 2;
    encoder.macroblock_height = 1;
    encoder.frame.filter_level = 8;
    encoder.recon_y = (0..512).map(|i| if i % 32 < 16 { 100 } else { 110 }).collect();
    encoder.recon_u = vec![128; 128];
    encoder.recon_v = vec![128; 128];
    encoder.mb_info_cache = vec![Some(MacroblockInfo::default()); 2];
    encoder.apply_loop_filter();
    for row in 0..16 {
        let line = &encoder.recon_y[32 * row..32 * row + 32];
        assert_eq!(line[..13], [100; 13]);
        assert_eq!(line[13..19], [101, 103, 104, 106, 107, 109]);
        assert_eq!(line[19..], [110; 13]);
    }
    assert_eq!(encoder.recon_u, vec![128; 128]);
    assert_eq!(encoder.recon_v, vec![128; 128]);
}

// ---------------------------------------------------------------------------
// Color conversion

#[test]
fn colors_become_luma_and_chroma() {
    let white = vec![255u8; 16 * 16 * 3];
    let (y, u, v) = convert_image_yuv::<3>(&white, 16, 16);
    assert_eq!((y[0], u[0], v[0]), (235, 128, 128));
    let black = vec![0u8; 16 * 16 * 4];
    let (y, u, v) = convert_image_yuv::<4>(&black, 16, 16);
    assert_eq!((y[255], u[63], v[63]), (16, 128, 128));
    let (y, u, v) = convert_image_y::<1>(&[9; 20], 5, 4);
    assert_eq!((y.len(), u.len(), v.len()), (256, 64, 64));
    assert_eq!((y[0], y[16 * 3 + 4]), (9, 9));
    assert!(u.iter().chain(v.iter()).all(|&c| c == 127));
}

// ---------------------------------------------------------------------------
// Bytes

#[test]
fn partitions_are_preceded_by_their_sizes() {
    let pixels: Vec<u8> = (0..48 * 64 * 3).map(|i| (i * 31 % 253) as u8).collect();
    let mut encoder = Vp8Encoder::new();
    encoder.partitions.push(ArithmeticEncoder::new());
    encoder.encode_passes(&pixels, ColorType::Rgb8, 48, 64, 50);
    let parts = encoder.flush_partitions();
    assert_eq!(parts.len(), 2);
    assert!(check_partitions(&parts));
    let mut expected = vec![
        (parts[0].len() % 256) as u8,
        (parts[0].len() / 256) as u8,
        0,
    ];
    expected.extend_from_slice(&parts[0]);
    expected.extend_from_slice(&parts[1]);
    encoder.append_partitions(parts);
    assert_eq!(encoder.writer, expected);

    let mut again = Vp8Encoder::new();
    again.partitions.push(ArithmeticEncoder::new());
    again.encode_image(&pixels, ColorType::Rgb8, 48, 64, 50);
    assert!(again.writer.ends_with(&expected));
}

#[test]
fn large_partitions_do_not_fit() {
    assert!(check_partitions(&vec![vec![0; 10], vec![0; 0x100_0000]]));
    assert!(!check_partitions(&vec![vec![0; 0x100_0000], vec![0; 10]]));
    assert!(check_partitions(&Vec::new()));
}

#[test]
fn the_frame_tag_holds_size_and_version() {
    let mut encoder = Vp8Encoder::new();
    encoder.frame.version = 3;
    encoder.frame.for_display = false;
    encoder.frame.width = 0x1234;
    encoder.frame.height = 0x3fff;
    encoder.write_uncompressed_frame_header(0x7_ffff);
    assert_eq!(
        encoder.writer,
        vec![0xe6, 0xff, 0xff, 0x9d, 0x01, 0x2a, 0x34, 0x12, 0xff, 0x3f]
    );
}

#[test]
fn a_second_image_does_not_depend_on_the_first() {
    let first: Vec<u8> = (0..64 * 48 * 3).map(|i| (i * 13 % 255) as u8).collect();
    let second: Vec<u8> = (0..33 * 20 * 3).map(|i| (i * 5 % 249) as u8).collect();
    let mut reused = Vp8Encoder::new();
    reused.encode_image(&first, ColorType::Rgb8, 64, 48, 40);
    let start = reused.writer.len();
    reused.partitions.push(ArithmeticEncoder::new());
    reused.encode_image(&second, ColorType::Rgb8, 33, 20, 80);
    let mut fresh = Vp8Encoder::new();
    fresh.encode_image(&second, ColorType::Rgb8, 33, 20, 80);
    assert_eq!(reused.writer[start..], fresh.writer[..]);
}

#[test]
fn contexts_are_cleared() {
    let mut contexts = Complexity { y2: 1, y: [1; 4], u: [1; 2], v: [1; 2] };
    contexts.clear(false);
    assert_eq!(contexts, Complexity { y2: 1, y: [0; 4], u: [0; 2], v: [0; 2] });
    contexts.clear(true);
    assert_eq!(contexts, Complexity::none());
}

#[test]
fn macroblocks_without_residue_are_skipped() {
    let mut encoder = Vp8Encoder::new();
    encoder.encode_image(&vec![90; 64 * 64], ColorType::L8, 64, 64, 30);
    let infos: Vec<_> = encoder.mb_info_cache.iter().map(|info| info.unwrap()).collect();
    assert!(!infos[0].coeffs_skipped);
    assert!(infos.iter().any(|info| info.coeffs_skipped));
    assert!(infos.iter().all(|info| info.luma_mode != LumaMode::B || info.luma_bpred.is_some()));
}

#[test]
fn chosen_modes_are_the_cheapest() {
    let pixels: Vec<u8> = (0..64 * 48 * 3).map(|i| (i * i / 7 % 256) as u8).collect();
    let (y, u, v) = convert_image_yuv::<3>(&pixels, 64, 48);
    let mut encoder = Vp8Encoder::new();
    encoder.setup_encoding(55, 64, 48, y, u, v);
    let mut by_subblocks = 0;
    for mby in 0..3 {
        encoder.left_b_pred = [IntraMode::DC; 4];
        for mbx in 0..4 {
            let info = encoder.choose_macroblock_info(mbx, mby);
            let segment = encoder.segments[info.segment_id.unwrap()];
            let lambda = mode_decision_lambda(&segment);
            let whole: Vec<f64> = [LumaMode::DC, LumaMode::V, LumaMode::H, LumaMode::TM]
                .iter()
                .map(|&mode| {
                    let (d, r, _) = encoder.trial_luma_16x16(mode, mbx, mby, &segment);
                    float(lagrangian_cost(d, lambda, Binary64::from_u64(r as u64)))
                })
                .collect();
            let best = whole.iter().cloned().fold(f64::INFINITY, f64::min);
            let (d, r, modes, _) = encoder.trial_luma_bpred(mbx, mby, &segment, lambda);
            if float(lagrangian_cost(d, lambda, r)) < best {
                assert_eq!(info.luma_mode, LumaMode::B);
                assert_eq!(info.luma_bpred, Some(modes));
                by_subblocks += 1;
            } else {
                let first = whole.iter().position(|&c| c == best).unwrap();
                assert_eq!(info.luma_mode.to_i8() as usize, first);
            }
            let chroma: Vec<f64> = [ChromaMode::DC, ChromaMode::V, ChromaMode::H, ChromaMode::TM]
                .iter()
                .map(|&mode| {
                    let (d, r, _, _) = encoder.trial_chroma(mode, mbx, mby, &segment);
                    float(lagrangian_cost(d, lambda, Binary64::from_u64(r as u64)))
                })
                .collect();
            let best = chroma.iter().cloned().fold(f64::INFINITY, f64::min);
            let first = chroma.iter().position(|&c| c == best).unwrap();
            assert_eq!(info.chroma_mode.to_i8() as usize, first);
            encoder.advance_bpred_context(&info, mbx);
            encoder.transform_luma_block(mbx, mby, &info);
            encoder.transform_chroma_blocks(mbx, mby, &info);
        }
    }
    assert!(by_subblocks > 0);
}

#[test]
fn resetting_forgets_all_contexts() {
    let mut encoder = Vp8Encoder::new();
    encoder.macroblock_width = 2;
    encoder.macroblock_height = 1;
    let full = Complexity { y2: 1, y: [1; 4], u: [1; 2], v: [1; 2] };
    encoder.left_complexity = full;
    encoder.top_complexity = vec![full; 5];
    encoder.left_b_pred = [IntraMode::TM; 4];
    encoder.recon_y = vec![9; 7];
    encoder.reset_frame_state();
    assert_eq!(encoder.left_complexity, Complexity::none());
    assert_eq!(encoder.top_complexity, vec![Complexity::none(); 2]);
    assert_eq!(encoder.left_b_pred, [IntraMode::DC; 4]);
    assert_eq!(encoder.top_b_pred, vec![IntraMode::DC; 8]);
    assert_eq!(encoder.recon_y, vec![0; 512]);
    assert_eq!(encoder.recon_u, vec![0; 128]);
    assert_eq!(encoder.recon_v, vec![0; 128]);
}

#[test]
fn subblock_trials_measure_what_is_produced() {
    let pixels: Vec<u8> = (0..48 * 32 * 3).map(|i| (i * i / 11 % 256) as u8).collect();
    let (y, u, v) = convert_image_yuv::<3>(&pixels, 48, 32);
    let mut encoder = Vp8Encoder::new();
    encoder.setup_encoding(40, 48, 32, y, u, v);
    for (mbx, mby) in [(0usize, 0usize), (1, 0), (2, 0), (0, 1), (1, 1), (2, 1)] {
        let segment = encoder.segments[2];
        let lambda = mode_decision_lambda(&segment);
        let (distortion, _, modes, levels) = encoder.trial_luma_bpred(mbx, mby, &segment, lambda);
        let (blocks, nonzero) = encoder.transform_luma_blocks_4x4(&modes, mbx, mby, &segment);
        for n in 0..256 {
            let step = if n % 16 == 0 { segment.ydc } else { segment.yac };
            assert_eq!(blocks[n] / i32::from(step), levels[n]);
        }
        assert_eq!(nonzero, levels.iter().any(|&level| level != 0));
        let mut error = 0i64;
        for row in 0..16 {
            for col in 0..16 {
                let at = (16 * mby + row) * 48 + 16 * mbx + col;
                let d = i64::from(encoder.recon_y[at]) - i64::from(encoder.frame.ybuf[at]);
                error += d * d;
            }
        }
        assert_eq!(error, distortion);
    }
}

#[test]
fn macroblocks_are_skipped_exactly_without_levels() {
    let mut skipped = 0;
    let mut coded = 0;
    for quality in [0u8, 30, 90] {
        let pixels: Vec<u8> =
            (0..64 * 64 * 3).map(|i| if i < 6000 { 80 } else { (i * i / 5 % 97) as u8 }).collect();
        let (y, u, v) = convert_image_yuv::<3>(&pixels, 64, 64);
        let mut encoder = Vp8Encoder::new();
        encoder.setup_encoding(quality, 64, 64, y, u, v);
        for mby in 0..4 {
            encoder.left_b_pred = [IntraMode::DC; 4];
            for mbx in 0..4 {
                let info = encoder.choose_macroblock_info(mbx, mby);
                let segment = encoder.segments[info.segment_id.unwrap()];
                encoder.advance_bpred_context(&info, mbx);
                let (luma, luma_nonzero) = encoder.transform_luma_block(mbx, mby, &info);
                let (u, v, chroma_nonzero) = encoder.transform_chroma_blocks(mbx, mby, &info);
                let mut none = [u, v].iter().all(|blocks| {
                    get_chroma_block_coeffs(blocks, &segment).iter().all(|&level| level == 0)
                });
                if info.luma_mode == LumaMode::B {
                    let mut levels = luma;
                    quantize(&mut levels, segment.ydc, segment.yac);
                    none &= levels.iter().all(|&level| level == 0);
                } else {
                    let levels = get_luma_block_coeffs_16x16(&luma, &segment);
                    none &= levels.y2_coeffs.iter().all(|&level| level == 0);
                    none &= levels.y_coeffs.iter().all(|&level| level == 0);
                }
                assert_eq!(info.coeffs_skipped, none);
                assert_eq!(info.coeffs_skipped, !(luma_nonzero || chroma_nonzero));
                if none {
                    skipped += 1;
                } else {
                    coded += 1;
                }
            }
        }
    }
    assert!(skipped > 0 && coded > 0);
}

#[test]
fn inverse_transforms_lose_no_levels() {
    for i in 1..16 {
        for value in [-5i32, -4, 4, 5] {
            let mut block = [0i32; 16];
            block[i] = value;
            idct4x4(&mut block);
            assert!(block.iter().any(|&v| v != 0), "coefficient {i} of {value}");
        }
    }
    for i in 0..16 {
        for value in [-8i32, 8] {
            let mut block = [0i32; 16];
            block[i] = value;
            iwht4x4(&mut block);
            assert!(block.iter().any(|&v| v != 0), "coefficient {i} of {value}");
        }
    }
}
