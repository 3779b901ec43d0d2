//! Block transforms of VP8 on 4x4 blocks in raster order.
use vstd::prelude::*;

verus! {

/// Quotient rounded towards zero, for a positive divisor.
pub open spec fn trunc_div(a: int, b: int) -> int {
    if a >= 0 {
        a / b
    } else {
        -((-a) / b)
    }
}

fn shr3(x: i64) -> (r: i64)
    ensures
        r == x as int / 8,
{
    assert(x >> 3 == x / 8) by (bit_vector);
    x >> 3
}

fn shr4(x: i64) -> (r: i64)
    ensures
        r == x as int / 16,
{
    assert(x >> 4 == x / 16) by (bit_vector);
    x >> 4
}

fn shr12(x: i64) -> (r: i64)
    ensures
        r == x as int / 4096,
{
    assert(x >> 12 == x / 4096) by (bit_vector);
    x >> 12
}

fn shr16(x: i64) -> (r: i64)
    ensures
        r == x as int / 65536,
{
    assert(x >> 16 == x / 65536) by (bit_vector);
    x >> 16
}

/// One row of the first pass of the Walsh-Hadamard transform.
#[verifier::opaque]
pub open spec fn wht_row(x0: i32, x1: i32, x2: i32, x3: i32, k: int) -> i32 {
    let a = x0 + x3;
    let b = x1 + x2;
    let c = x1 - x2;
    let d = x0 - x3;
    (if k == 0 {
        a + b
    } else if k == 1 {
        c + d
    } else if k == 2 {
        a - b
    } else {
        d - c
    }) as i32
}

fn wht_row_exec(x0: i32, x1: i32, x2: i32, x3: i32) -> (r: (i32, i32, i32, i32))
    ensures
        r.0 == wht_row(x0, x1, x2, x3, 0),
        r.1 == wht_row(x0, x1, x2, x3, 1),
        r.2 == wht_row(x0, x1, x2, x3, 2),
        r.3 == wht_row(x0, x1, x2, x3, 3),
{
    proof {
        reveal(wht_row);
    }
    let (x0, x1, x2, x3): (i64, i64, i64, i64) = (x0 as i64, x1 as i64, x2 as i64, x3 as i64);
    let a: i64 = x0 + x3;
    let b: i64 = x1 + x2;
    let c: i64 = x1 - x2;
    let d: i64 = x0 - x3;
    ((a + b) as i32, (c + d) as i32, (a - b) as i32, (d - c) as i32)
}

/// Half, rounded to nearest, with halves away from zero when positive.
pub open spec fn half_up(x: int) -> int {
    trunc_div(x + if x > 0 { 1int } else { 0 }, 2)
}

fn half_up_exec(x: i64) -> (r: i64)
    requires
        -0x10_0000_0000 <= x <= 0x10_0000_0000,
    ensures
        r == half_up(x as int),
{
    if x > 0 {
        (x + 1) / 2
    } else {
        x / 2
    }
}

/// One column of the second pass of the Walsh-Hadamard transform.
#[verifier::opaque]
pub open spec fn wht_column(x0: i32, x1: i32, x2: i32, x3: i32, k: int) -> i32 {
    let a = x0 + x3;
    let b = x1 + x2;
    let c = x1 - x2;
    let d = x0 - x3;
    (if k == 0 {
        half_up(a + b)
    } else if k == 1 {
        half_up(c + d)
    } else if k == 2 {
        half_up(a - b)
    } else {
        half_up(d - c)
    }) as i32
}

fn wht_column_exec(x0: i32, x1: i32, x2: i32, x3: i32) -> (r: (i32, i32, i32, i32))
    ensures
        r.0 == wht_column(x0, x1, x2, x3, 0),
        r.1 == wht_column(x0, x1, x2, x3, 1),
        r.2 == wht_column(x0, x1, x2, x3, 2),
        r.3 == wht_column(x0, x1, x2, x3, 3),
{
    proof {
        reveal(wht_column);
    }
    let (x0, x1, x2, x3): (i64, i64, i64, i64) = (x0 as i64, x1 as i64, x2 as i64, x3 as i64);
    let a: i64 = x0 + x3;
    let b: i64 = x1 + x2;
    let c: i64 = x1 - x2;
    let d: i64 = x0 - x3;
    (half_up_exec(a + b) as i32, half_up_exec(c + d) as i32, half_up_exec(a - b) as i32, half_up_exec(d - c) as i32)
}

/// First pass of the Walsh-Hadamard transform.
pub open spec fn wht_rows(b: Seq<i32>) -> Seq<i32> {
    Seq::new(
        16,
        |n: int|
            {
                let i = n / 4;
                wht_row(b[4 * i], b[4 * i + 1], b[4 * i + 2], b[4 * i + 3], n % 4)
            },
    )
}

fn wht_rows_exec(block: &mut [i32; 16])
    ensures
        final(block)@ == wht_rows(old(block)@),
{
    let ghost b = block@;
    let mut i: usize = 0;
    while i < 4
        invariant
            i <= 4,
            b == old(block)@,
            forall|n: int|
                0 <= n < 16 ==> #[trigger] block@[n] == if n / 4 < i {
                    wht_rows(b)[n]
                } else {
                    b[n]
                },
        decreases 4 - i,
    {
        let (y0, y1, y2, y3) = wht_row_exec(
            block[4 * i],
            block[4 * i + 1],
            block[4 * i + 2],
            block[4 * i + 3],
        );
        block[4 * i] = y0;
        block[4 * i + 1] = y1;
        block[4 * i + 2] = y2;
        block[4 * i + 3] = y3;
        i = i + 1;
    }
    assert(block@ =~= wht_rows(b));
}

/// Second pass of the Walsh-Hadamard transform.
pub open spec fn wht_columns(b: Seq<i32>) -> Seq<i32> {
    Seq::new(
        16,
        |n: int|
            {
                let i = n % 4;
                wht_column(b[i], b[i + 4], b[i + 8], b[i + 12], n / 4)
            },
    )
}

fn wht_columns_exec(block: &mut [i32; 16])
    ensures
        final(block)@ == wht_columns(old(block)@),
{
    let ghost b = block@;
    let mut i: usize = 0;
    while i < 4
        invariant
            i <= 4,
            b == old(block)@,
            forall|n: int|
                0 <= n < 16 ==> #[trigger] block@[n] == if n % 4 < i {
                    wht_columns(b)[n]
                } else {
                    b[n]
                },
        decreases 4 - i,
    {
        let (y0, y1, y2, y3) = wht_column_exec(
            block[i],
            block[i + 4],
            block[i + 8],
            block[i + 12],
        );
        block[i] = y0;
        block[i + 4] = y1;
        block[i + 8] = y2;
        block[i + 12] = y3;
        i = i + 1;
    }
    assert(block@ =~= wht_columns(b));
}

/// Walsh-Hadamard transform of the luma DC coefficients.
#[verifier::opaque]
pub open spec fn wht(b: Seq<i32>) -> Seq<i32> {
    wht_columns(wht_rows(b))
}

pub fn wht4x4(block: &mut [i32; 16])
    ensures
        final(block)@ == wht(old(block)@),
{
    wht_rows_exec(block);
    wht_columns_exec(block);
    proof {
        reveal(wht);
    }
}

pub proof fn lemma_wht_len(b: Seq<i32>)
    ensures
        wht(b).len() == 16,
{
    reveal(wht);
}

/// First pass of the inverse Walsh-Hadamard transform.
pub open spec fn iwht_columns(b: Seq<i32>) -> Seq<i32> {
    Seq::new(
        16,
        |n: int|
            {
                let i = n % 4;
                wht_row(b[i], b[i + 4], b[i + 8], b[i + 12], n / 4)
            },
    )
}

fn iwht_columns_exec(block: &mut [i32; 16])
    ensures
        final(block)@ == iwht_columns(old(block)@),
{
    let ghost b = block@;
    let mut i: usize = 0;
    while i < 4
        invariant
            i <= 4,
            b == old(block)@,
            forall|n: int|
                0 <= n < 16 ==> #[trigger] block@[n] == if n % 4 < i {
                    iwht_columns(b)[n]
                } else {
                    b[n]
                },
        decreases 4 - i,
    {
        let (y0, y1, y2, y3) = wht_row_exec(
            block[i],
            block[i + 4],
            block[i + 8],
            block[i + 12],
        );
        block[i] = y0;
        block[i + 4] = y1;
        block[i + 8] = y2;
        block[i + 12] = y3;
        i = i + 1;
    }
    assert(block@ =~= iwht_columns(b));
}

/// One row of the second pass of the inverse Walsh-Hadamard transform.
#[verifier::opaque]
pub open spec fn iwht_row(x0: i32, x1: i32, x2: i32, x3: i32, k: int) -> i32 {
    let a = x0 + x3;
    let b = x1 + x2;
    let c = x1 - x2;
    let d = x0 - x3;
    (if k == 0 {
        (a + b + 3) / 8
    } else if k == 1 {
        (c + d + 3) / 8
    } else if k == 2 {
        (a - b + 3) / 8
    } else {
        (d - c + 3) / 8
    }) as i32
}

fn iwht_row_exec(x0: i32, x1: i32, x2: i32, x3: i32) -> (r: (i32, i32, i32, i32))
    ensures
        r.0 == iwht_row(x0, x1, x2, x3, 0),
        r.1 == iwht_row(x0, x1, x2, x3, 1),
        r.2 == iwht_row(x0, x1, x2, x3, 2),
        r.3 == iwht_row(x0, x1, x2, x3, 3),
{
    proof {
        reveal(iwht_row);
    }
    let (x0, x1, x2, x3): (i64, i64, i64, i64) = (x0 as i64, x1 as i64, x2 as i64, x3 as i64);
    let a: i64 = x0 + x3;
    let b: i64 = x1 + x2;
    let c: i64 = x1 - x2;
    let d: i64 = x0 - x3;
    (shr3(a + b + 3) as i32, shr3(c + d + 3) as i32, shr3(a - b + 3) as i32, shr3(d - c + 3) as i32)
}

/// Second pass of the inverse Walsh-Hadamard transform.
pub open spec fn iwht_rows(b: Seq<i32>) -> Seq<i32> {
    Seq::new(
        16,
        |n: int|
            {
                let i = n / 4;
                iwht_row(b[4 * i], b[4 * i + 1], b[4 * i + 2], b[4 * i + 3], n % 4)
            },
    )
}

fn iwht_rows_exec(block: &mut [i32; 16])
    ensures
        final(block)@ == iwht_rows(old(block)@),
{
    let ghost b = block@;
    let mut i: usize = 0;
    while i < 4
        invariant
            i <= 4,
            b == old(block)@,
            forall|n: int|
                0 <= n < 16 ==> #[trigger] block@[n] == if n / 4 < i {
                    iwht_rows(b)[n]
                } else {
                    b[n]
                },
        decreases 4 - i,
    {
        let (y0, y1, y2, y3) = iwht_row_exec(
            block[4 * i],
            block[4 * i + 1],
            block[4 * i + 2],
            block[4 * i + 3],
        );
        block[4 * i] = y0;
        block[4 * i + 1] = y1;
        block[4 * i + 2] = y2;
        block[4 * i + 3] = y3;
        i = i + 1;
    }
    assert(block@ =~= iwht_rows(b));
}

/// Inverse Walsh-Hadamard transform.
#[verifier::opaque]
pub open spec fn iwht(b: Seq<i32>) -> Seq<i32> {
    iwht_rows(iwht_columns(b))
}

pub fn iwht4x4(block: &mut [i32; 16])
    ensures
        final(block)@ == iwht(old(block)@),
{
    iwht_columns_exec(block);
    iwht_rows_exec(block);
    proof {
        reveal(iwht);
    }
}

/// One row of the first pass of the cosine transform.
#[verifier::opaque]
pub open spec fn dct_row(x0: i32, x1: i32, x2: i32, x3: i32, k: int) -> i32 {
    let a = (x0 + x3) * 8;
    let b = (x1 + x2) * 8;
    let c = (x1 - x2) * 8;
    let d = (x0 - x3) * 8;
    (if k == 0 {
        a + b
    } else if k == 1 {
        (c * 2217 + d * 5352 + 14500) / 4096
    } else if k == 2 {
        a - b
    } else {
        (d * 2217 - c * 5352 + 7500) / 4096
    }) as i32
}

fn dct_row_exec(x0: i32, x1: i32, x2: i32, x3: i32) -> (r: (i32, i32, i32, i32))
    ensures
        r.0 == dct_row(x0, x1, x2, x3, 0),
        r.1 == dct_row(x0, x1, x2, x3, 1),
        r.2 == dct_row(x0, x1, x2, x3, 2),
        r.3 == dct_row(x0, x1, x2, x3, 3),
{
    proof {
        reveal(dct_row);
    }
    let (x0, x1, x2, x3): (i64, i64, i64, i64) = (x0 as i64, x1 as i64, x2 as i64, x3 as i64);
    let a: i64 = (x0 + x3) * 8;
    let b: i64 = (x1 + x2) * 8;
    let c: i64 = (x1 - x2) * 8;
    let d: i64 = (x0 - x3) * 8;
    ((a + b) as i32, shr12(c * 2217 + d * 5352 + 14500) as i32, (a - b) as i32, shr12(d * 2217 - c * 5352 + 7500) as i32)
}

/// One column of the second pass of the cosine transform.
#[verifier::opaque]
pub open spec fn dct_column(x0: i32, x1: i32, x2: i32, x3: i32, k: int) -> i32 {
    let a = x0 + x3;
    let b = x1 + x2;
    let c = x1 - x2;
    let d = x0 - x3;
    (if k == 0 {
        (a + b + 7) / 16
    } else if k == 1 {
        (c * 2217 + d * 5352 + 12000) / 65536 + if d != 0 { 1int } else { 0 }
    } else if k == 2 {
        (a - b + 7) / 16
    } else {
        (d * 2217 - c * 5352 + 51000) / 65536
    }) as i32
}

fn dct_column_exec(x0: i32, x1: i32, x2: i32, x3: i32) -> (r: (i32, i32, i32, i32))
    ensures
        r.0 == dct_column(x0, x1, x2, x3, 0),
        r.1 == dct_column(x0, x1, x2, x3, 1),
        r.2 == dct_column(x0, x1, x2, x3, 2),
        r.3 == dct_column(x0, x1, x2, x3, 3),
{
    proof {
        reveal(dct_column);
    }
    let (x0, x1, x2, x3): (i64, i64, i64, i64) = (x0 as i64, x1 as i64, x2 as i64, x3 as i64);
    let a: i64 = x0 + x3;
    let b: i64 = x1 + x2;
    let c: i64 = x1 - x2;
    let d: i64 = x0 - x3;
    let e: i64 = if d != 0 {
        1
    } else {
        0
    };
    (shr4(a + b + 7) as i32, (shr16(c * 2217 + d * 5352 + 12000) + e) as i32, shr4(a - b + 7) as i32, shr16(d * 2217 - c * 5352 + 51000) as i32)
}

/// First pass of the cosine transform.
pub open spec fn dct_rows(b: Seq<i32>) -> Seq<i32> {
    Seq::new(
        16,
        |n: int|
            {
                let i = n / 4;
                dct_row(b[4 * i], b[4 * i + 1], b[4 * i + 2], b[4 * i + 3], n % 4)
            },
    )
}

fn dct_rows_exec(block: &mut [i32; 16])
    ensures
        final(block)@ == dct_rows(old(block)@),
{
    let ghost b = block@;
    let mut i: usize = 0;
    while i < 4
        invariant
            i <= 4,
            b == old(block)@,
            forall|n: int|
                0 <= n < 16 ==> #[trigger] block@[n] == if n / 4 < i {
                    dct_rows(b)[n]
                } else {
                    b[n]
                },
        decreases 4 - i,
    {
        let (y0, y1, y2, y3) = dct_row_exec(
            block[4 * i],
            block[4 * i + 1],
            block[4 * i + 2],
            block[4 * i + 3],
        );
        block[4 * i] = y0;
        block[4 * i + 1] = y1;
        block[4 * i + 2] = y2;
        block[4 * i + 3] = y3;
        i = i + 1;
    }
    assert(block@ =~= dct_rows(b));
}

/// Second pass of the cosine transform.
pub open spec fn dct_columns(b: Seq<i32>) -> Seq<i32> {
    Seq::new(
        16,
        |n: int|
            {
                let i = n % 4;
                dct_column(b[i], b[i + 4], b[i + 8], b[i + 12], n / 4)
            },
    )
}

fn dct_columns_exec(block: &mut [i32; 16])
    ensures
        final(block)@ == dct_columns(old(block)@),
{
    let ghost b = block@;
    let mut i: usize = 0;
    while i < 4
        invariant
            i <= 4,
            b == old(block)@,
            forall|n: int|
                0 <= n < 16 ==> #[trigger] block@[n] == if n % 4 < i {
                    dct_columns(b)[n]
                } else {
                    b[n]
                },
        decreases 4 - i,
    {
        let (y0, y1, y2, y3) = dct_column_exec(
            block[i],
            block[i + 4],
            block[i + 8],
            block[i + 12],
        );
        block[i] = y0;
        block[i + 4] = y1;
        block[i + 8] = y2;
        block[i + 12] = y3;
        i = i + 1;
    }
    assert(block@ =~= dct_columns(b));
}

/// Forward cosine transform of a residual block.
#[verifier::opaque]
pub open spec fn dct(b: Seq<i32>) -> Seq<i32> {
    dct_columns(dct_rows(b))
}

pub fn dct4x4(block: &mut [i32; 16])
    ensures
        final(block)@ == dct(old(block)@),
{
    dct_rows_exec(block);
    dct_columns_exec(block);
    proof {
        reveal(dct);
    }
}

pub proof fn lemma_dct_len(b: Seq<i32>)
    ensures
        dct(b).len() == 16,
{
    reveal(dct);
}

/// One column of the first pass of the inverse cosine transform.
#[verifier::opaque]
pub open spec fn idct_column(x0: i32, x1: i32, x2: i32, x3: i32, k: int) -> i32 {
    let a = x0 + x2;
    let b = x0 - x2;
    let c = x1 * 35468 / 65536 - (x3 + x3 * 20091 / 65536);
    let d = x1 + x1 * 20091 / 65536 + x3 * 35468 / 65536;
    (if k == 0 {
        a + d
    } else if k == 1 {
        b + c
    } else if k == 2 {
        b - c
    } else {
        a - d
    }) as i32
}

fn idct_column_exec(x0: i32, x1: i32, x2: i32, x3: i32) -> (r: (i32, i32, i32, i32))
    ensures
        r.0 == idct_column(x0, x1, x2, x3, 0),
        r.1 == idct_column(x0, x1, x2, x3, 1),
        r.2 == idct_column(x0, x1, x2, x3, 2),
        r.3 == idct_column(x0, x1, x2, x3, 3),
{
    proof {
        reveal(idct_column);
    }
    let (x0, x1, x2, x3): (i64, i64, i64, i64) = (x0 as i64, x1 as i64, x2 as i64, x3 as i64);
    let a: i64 = x0 + x2;
    let b: i64 = x0 - x2;
    let c: i64 = shr16(x1 * 35468) - (x3 + shr16(x3 * 20091));
    let d: i64 = x1 + shr16(x1 * 20091) + shr16(x3 * 35468);
    ((a + d) as i32, (b + c) as i32, (b - c) as i32, (a - d) as i32)
}

/// One row of the second pass of the inverse cosine transform.
#[verifier::opaque]
pub open spec fn idct_row(x0: i32, x1: i32, x2: i32, x3: i32, k: int) -> i32 {
    let a = x0 + x2;
    let b = x0 - x2;
    let c = x1 * 35468 / 65536 - (x3 + x3 * 20091 / 65536);
    let d = x1 + x1 * 20091 / 65536 + x3 * 35468 / 65536;
    (if k == 0 {
        (a + d + 4) / 8
    } else if k == 1 {
        (b + c + 4) / 8
    } else if k == 2 {
        (b - c + 4) / 8
    } else {
        (a - d + 4) / 8
    }) as i32
}

fn idct_row_exec(x0: i32, x1: i32, x2: i32, x3: i32) -> (r: (i32, i32, i32, i32))
    ensures
        r.0 == idct_row(x0, x1, x2, x3, 0),
        r.1 == idct_row(x0, x1, x2, x3, 1),
        r.2 == idct_row(x0, x1, x2, x3, 2),
        r.3 == idct_row(x0, x1, x2, x3, 3),
{
    proof {
        reveal(idct_row);
    }
    let (x0, x1, x2, x3): (i64, i64, i64, i64) = (x0 as i64, x1 as i64, x2 as i64, x3 as i64);
    let a: i64 = x0 + x2;
    let b: i64 = x0 - x2;
    let c: i64 = shr16(x1 * 35468) - (x3 + shr16(x3 * 20091));
    let d: i64 = x1 + shr16(x1 * 20091) + shr16(x3 * 35468);
    (shr3(a + d + 4) as i32, shr3(b + c + 4) as i32, shr3(b - c + 4) as i32, shr3(a - d + 4) as i32)
}

/// First pass of the inverse cosine transform.
pub open spec fn idct_columns(b: Seq<i32>) -> Seq<i32> {
    Seq::new(
        16,
        |n: int|
            {
                let i = n % 4;
                idct_column(b[i], b[i + 4], b[i + 8], b[i + 12], n / 4)
            },
    )
}

fn idct_columns_exec(block: &mut [i32; 16])
    ensures
        final(block)@ == idct_columns(old(block)@),
{
    let ghost b = block@;
    let mut i: usize = 0;
    while i < 4
        invariant
            i <= 4,
            b == old(block)@,
            forall|n: int|
                0 <= n < 16 ==> #[trigger] block@[n] == if n % 4 < i {
                    idct_columns(b)[n]
                } else {
                    b[n]
                },
        decreases 4 - i,
    {
        let (y0, y1, y2, y3) = idct_column_exec(
            block[i],
            block[i + 4],
            block[i + 8],
            block[i + 12],
        );
        block[i] = y0;
        block[i + 4] = y1;
        block[i + 8] = y2;
        block[i + 12] = y3;
        i = i + 1;
    }
    assert(block@ =~= idct_columns(b));
}

/// Second pass of the inverse cosine transform.
pub open spec fn idct_rows(b: Seq<i32>) -> Seq<i32> {
    Seq::new(
        16,
        |n: int|
            {
                let i = n / 4;
                idct_row(b[4 * i], b[4 * i + 1], b[4 * i + 2], b[4 * i + 3], n % 4)
            },
    )
}

fn idct_rows_exec(block: &mut [i32; 16])
    ensures
        final(block)@ == idct_rows(old(block)@),
{
    let ghost b = block@;
    let mut i: usize = 0;
    while i < 4
        invariant
            i <= 4,
            b == old(block)@,
            forall|n: int|
                0 <= n < 16 ==> #[trigger] block@[n] == if n / 4 < i {
                    idct_rows(b)[n]
                } else {
                    b[n]
                },
        decreases 4 - i,
    {
        let (y0, y1, y2, y3) = idct_row_exec(
            block[4 * i],
            block[4 * i + 1],
            block[4 * i + 2],
            block[4 * i + 3],
        );
        block[4 * i] = y0;
        block[4 * i + 1] = y1;
        block[4 * i + 2] = y2;
        block[4 * i + 3] = y3;
        i = i + 1;
    }
    assert(block@ =~= idct_rows(b));
}

/// Inverse cosine transform.
#[verifier::opaque]
pub open spec fn idct(b: Seq<i32>) -> Seq<i32> {
    idct_rows(idct_columns(b))
}

pub fn idct4x4(block: &mut [i32; 16])
    ensures
        final(block)@ == idct(old(block)@),
{
    idct_columns_exec(block);
    idct_rows_exec(block);
    proof {
        reveal(idct);
    }
}

pub proof fn lemma_idct_len(b: Seq<i32>)
    ensures
        idct(b).len() == 16,
{
    reveal(idct);
}

/// Every entry lies between `-bound` and `bound`.
pub open spec fn within(b: Seq<i32>, bound: int) -> bool {
    forall|n: int| 0 <= n < b.len() ==> -bound <= #[trigger] b[n] <= bound
}

/// The cosine transform of a pixel difference block.
pub proof fn lemma_dct_bound(b: Seq<i32>)
    requires
        b.len() == 16,
        within(b, 255),
    ensures
        dct(b).len() == 16,
        within(dct(b), 2040),
{
    reveal(dct);
    let r = dct_rows(b);
    assert forall|n: int| 0 <= n < 16 implies -8160 <= #[trigger] r[n] <= 8160 by {
        let i = n / 4;
        let (x0, x1, x2, x3) = (b[4 * i], b[4 * i + 1], b[4 * i + 2], b[4 * i + 3]);
        reveal(dct_row);
        assert(r[n] == dct_row(x0, x1, x2, x3, n % 4));
    }
    let c = dct_columns(r);
    assert forall|n: int| 0 <= n < 16 implies -2040 <= #[trigger] c[n] <= 2040 by {
        let i = n % 4;
        let (x0, x1, x2, x3) = (r[i], r[i + 4], r[i + 8], r[i + 12]);
        reveal(dct_column);
        assert(c[n] == dct_column(x0, x1, x2, x3, n / 4));
    }
}

/// The Walsh-Hadamard transform of 16 luma DC coefficients.
pub proof fn lemma_wht_bound(b: Seq<i32>)
    requires
        b.len() == 16,
        within(b, 2040),
    ensures
        wht(b).len() == 16,
        within(wht(b), 16320),
{
    reveal(wht);
    let r = wht_rows(b);
    assert forall|n: int| 0 <= n < 16 implies -8160 <= #[trigger] r[n] <= 8160 by {
        let i = n / 4;
        let (x0, x1, x2, x3) = (b[4 * i], b[4 * i + 1], b[4 * i + 2], b[4 * i + 3]);
        reveal(wht_row);
        assert(r[n] == wht_row(x0, x1, x2, x3, n % 4));
    }
    let c = wht_columns(r);
    assert forall|n: int| 0 <= n < 16 implies -16320 <= #[trigger] c[n] <= 16320 by {
        let i = n % 4;
        let (x0, x1, x2, x3) = (r[i], r[i + 4], r[i + 8], r[i + 12]);
        reveal(wht_column);
        assert(c[n] == wht_column(x0, x1, x2, x3, n / 4));
    }
}

/// The inverse Walsh-Hadamard transform at most doubles the largest magnitude.
pub proof fn lemma_iwht_bound(b: Seq<i32>)
    requires
        b.len() == 16,
        within(b, 20000),
    ensures
        iwht(b).len() == 16,
        within(iwht(b), 40001),
{
    reveal(iwht);
    let r = iwht_columns(b);
    assert forall|n: int| 0 <= n < 16 implies -80000 <= #[trigger] r[n] <= 80000 by {
        let i = n % 4;
        let (x0, x1, x2, x3) = (b[i], b[i + 4], b[i + 8], b[i + 12]);
        reveal(wht_row);
        assert(r[n] == wht_row(x0, x1, x2, x3, n / 4));
    }
    let c = iwht_rows(r);
    assert forall|n: int| 0 <= n < 16 implies -40001 <= #[trigger] c[n] <= 40001 by {
        let i = n / 4;
        let (x0, x1, x2, x3) = (r[4 * i], r[4 * i + 1], r[4 * i + 2], r[4 * i + 3]);
        reveal(iwht_row);
        assert(c[n] == iwht_row(x0, x1, x2, x3, n % 4));
    }
}

/// The inverse cosine transform stays far from the limits of the integers.
pub proof fn lemma_idct_bound(b: Seq<i32>)
    requires
        b.len() == 16,
        within(b, 50000),
    ensures
        idct(b).len() == 16,
        within(idct(b), 1000000),
{
    reveal(idct);
    let r = idct_columns(b);
    assert forall|n: int| 0 <= n < 16 implies -200000 <= #[trigger] r[n] <= 200000 by {
        let i = n % 4;
        let (x0, x1, x2, x3) = (b[i], b[i + 4], b[i + 8], b[i + 12]);
        reveal(idct_column);
        assert(r[n] == idct_column(x0, x1, x2, x3, n / 4));
    }
    let c = idct_rows(r);
    assert forall|n: int| 0 <= n < 16 implies -1000000 <= #[trigger] c[n] <= 1000000 by {
        let i = n / 4;
        let (x0, x1, x2, x3) = (r[4 * i], r[4 * i + 1], r[4 * i + 2], r[4 * i + 3]);
        reveal(idct_row);
        assert(c[n] == idct_row(x0, x1, x2, x3, n % 4));
    }
}

/// A row or column of zeros.
proof fn lemma_zero_rows(k: int)
    ensures
        idct_column(0, 0, 0, 0, k) == 0,
        idct_row(0, 0, 0, 0, k) == 0,
        wht_row(0, 0, 0, 0, k) == 0,
        iwht_row(0, 0, 0, 0, k) == 0,
{
    reveal(idct_column);
    reveal(idct_row);
    reveal(wht_row);
    reveal(iwht_row);
}

proof fn lemma_zero_idct_column(z: Seq<i32>, n: int)
    requires
        z.len() == 16,
        forall|i: int| 0 <= i < 16 ==> #[trigger] z[i] == 0,
        0 <= n < 16,
    ensures
        idct_columns(z)[n] == 0,
{
    let i = n % 4;
    assert(z[i] == 0 && z[i + 4] == 0 && z[i + 8] == 0 && z[i + 12] == 0);
    lemma_zero_rows(n / 4);
}

proof fn lemma_zero_idct_row(z: Seq<i32>, n: int)
    requires
        z.len() == 16,
        forall|i: int| 0 <= i < 16 ==> #[trigger] z[i] == 0,
        0 <= n < 16,
    ensures
        idct_rows(z)[n] == 0,
{
    let i = n / 4;
    assert(z[4 * i] == 0 && z[4 * i + 1] == 0 && z[4 * i + 2] == 0 && z[4 * i + 3] == 0);
    lemma_zero_rows(n % 4);
}

proof fn lemma_zero_iwht_column(z: Seq<i32>, n: int)
    requires
        z.len() == 16,
        forall|i: int| 0 <= i < 16 ==> #[trigger] z[i] == 0,
        0 <= n < 16,
    ensures
        iwht_columns(z)[n] == 0,
{
    let i = n % 4;
    assert(z[i] == 0 && z[i + 4] == 0 && z[i + 8] == 0 && z[i + 12] == 0);
    lemma_zero_rows(n / 4);
}

proof fn lemma_zero_iwht_row(z: Seq<i32>, n: int)
    requires
        z.len() == 16,
        forall|i: int| 0 <= i < 16 ==> #[trigger] z[i] == 0,
        0 <= n < 16,
    ensures
        iwht_rows(z)[n] == 0,
{
    let i = n / 4;
    assert(z[4 * i] == 0 && z[4 * i + 1] == 0 && z[4 * i + 2] == 0 && z[4 * i + 3] == 0);
    lemma_zero_rows(n % 4);
}

/// The inverse transforms take zeros to zeros.
pub proof fn lemma_zero_transforms(z: Seq<i32>)
    requires
        z == Seq::new(16, |i: int| 0i32),
    ensures
        idct(z) == z,
        iwht(z) == z,
{
    assert forall|n: int| 0 <= n < 16 implies {
        &&& idct_columns(z)[n] == 0
        &&& idct_rows(z)[n] == 0
        &&& iwht_columns(z)[n] == 0
        &&& iwht_rows(z)[n] == 0
    } by {
        lemma_zero_idct_column(z, n);
        lemma_zero_idct_row(z, n);
        lemma_zero_iwht_column(z, n);
        lemma_zero_iwht_row(z, n);
    }
    assert(idct_columns(z) =~= z);
    assert(idct_rows(z) =~= z);
    assert(iwht_columns(z) =~= z);
    assert(iwht_rows(z) =~= z);
    reveal(idct);
    reveal(iwht);
}

/// A row of the second pass of the inverse cosine transform that comes out as
/// zeros had small entries.
proof fn lemma_idct_row_zero(x0: i32, x1: i32, x2: i32, x3: i32)
    requires
        -200000 <= x0 <= 200000,
        -200000 <= x1 <= 200000,
        -200000 <= x2 <= 200000,
        -200000 <= x3 <= 200000,
        idct_row(x0, x1, x2, x3, 0) == 0,
        idct_row(x0, x1, x2, x3, 1) == 0,
        idct_row(x0, x1, x2, x3, 2) == 0,
        idct_row(x0, x1, x2, x3, 3) == 0,
    ensures
        -4 <= x0 <= 3,
        -3 <= x1 <= 3,
        -3 <= x2 <= 3,
        -3 <= x3 <= 3,
{
    reveal(idct_row);
    let c = x1 * 35468 / 65536 - (x3 + x3 * 20091 / 65536);
    let d = x1 + x1 * 20091 / 65536 + x3 * 35468 / 65536;
    assert(-3 <= c <= 3);
    assert(-3 <= d <= 3);
}

/// A column whose entries are at least 4 in magnitude, or zero, and which the
/// first pass of the inverse cosine transform makes small, is zero. The one
/// exception has only a first entry, of -4.
proof fn lemma_idct_column_zero(x0: i32, x1: i32, x2: i32, x3: i32)
    requires
        -50000 <= x0 <= 50000,
        -50000 <= x1 <= 50000,
        -50000 <= x2 <= 50000,
        -50000 <= x3 <= 50000,
        -4 < x0 < 4 ==> x0 == 0,
        -4 < x1 < 4 ==> x1 == 0,
        -4 < x2 < 4 ==> x2 == 0,
        -4 < x3 < 4 ==> x3 == 0,
        x0 != -4,
        forall|k: int| 0 <= k < 4 ==> -4 <= #[trigger] idct_column(x0, x1, x2, x3, k) <= 3,
    ensures
        x0 == 0,
        x1 == 0,
        x2 == 0,
        x3 == 0,
{
    reveal(idct_column);
    assert(-4 <= idct_column(x0, x1, x2, x3, 0) <= 3);
    assert(-4 <= idct_column(x0, x1, x2, x3, 1) <= 3);
    assert(-4 <= idct_column(x0, x1, x2, x3, 2) <= 3);
    assert(-4 <= idct_column(x0, x1, x2, x3, 3) <= 3);
    let c = x1 * 35468 / 65536 - (x3 + x3 * 20091 / 65536);
    let d = x1 + x1 * 20091 / 65536 + x3 * 35468 / 65536;
    assert(-3 <= c <= 3);
    assert(-3 <= d <= 3);
}

/// A block without DC whose other entries are at least 4 in magnitude, or
/// zero, is not lost by the inverse cosine transform.
pub proof fn lemma_idct_zero(b: Seq<i32>)
    requires
        b.len() == 16,
        within(b, 50000),
        b[0] == 0,
        forall|n: int| 0 <= n < 16 && -4 < #[trigger] b[n] < 4 ==> b[n] == 0,
        forall|n: int| 0 <= n < 16 ==> #[trigger] idct(b)[n] == 0,
    ensures
        forall|n: int| 0 <= n < 16 ==> #[trigger] b[n] == 0,
{
    reveal(idct);
    let r = idct_columns(b);
    assert forall|n: int| 0 <= n < 16 implies -200000 <= #[trigger] r[n] <= 200000 by {
        let i = n % 4;
        let (x0, x1, x2, x3) = (b[i], b[i + 4], b[i + 8], b[i + 12]);
        reveal(idct_column);
        assert(r[n] == idct_column(x0, x1, x2, x3, n / 4));
    }
    assert forall|i: int| 0 <= i < 4 implies {
        &&& -4 <= #[trigger] r[4 * i] <= 3
        &&& -3 <= r[4 * i + 1] <= 3
        &&& -3 <= r[4 * i + 2] <= 3
        &&& -3 <= r[4 * i + 3] <= 3
    } by {
        let (x0, x1, x2, x3) = (r[4 * i], r[4 * i + 1], r[4 * i + 2], r[4 * i + 3]);
        assert(idct(b)[4 * i] == idct_row(x0, x1, x2, x3, 0));
        assert(idct(b)[4 * i + 1] == idct_row(x0, x1, x2, x3, 1));
        assert(idct(b)[4 * i + 2] == idct_row(x0, x1, x2, x3, 2));
        assert(idct(b)[4 * i + 3] == idct_row(x0, x1, x2, x3, 3));
        lemma_idct_row_zero(x0, x1, x2, x3);
    }
    assert forall|i: int| 0 <= i < 4 implies {
        &&& #[trigger] b[i] == 0
        &&& b[i + 4] == 0
        &&& b[i + 8] == 0
        &&& b[i + 12] == 0
    } by {
        let (x0, x1, x2, x3) = (b[i], b[i + 4], b[i + 8], b[i + 12]);
        assert forall|k: int| 0 <= k < 4 implies (i > 0 ==> -3 <= #[trigger] idct_column(
            x0,
            x1,
            x2,
            x3,
            k,
        )) && -4 <= idct_column(x0, x1, x2, x3, k) <= 3 by {
            assert(r[4 * k + i] == idct_column(x0, x1, x2, x3, k));
            assert(-4 <= r[4 * k] <= 3);
        }
        if i > 0 && x0 == -4 {
            reveal(idct_column);
            assert(-3 <= idct_column(x0, x1, x2, x3, 0));
            assert(-3 <= idct_column(x0, x1, x2, x3, 1));
            assert(-3 <= idct_column(x0, x1, x2, x3, 2));
            assert(-3 <= idct_column(x0, x1, x2, x3, 3));
        }
        lemma_idct_column_zero(x0, x1, x2, x3);
    }
    assert forall|n: int| 0 <= n < 16 implies #[trigger] b[n] == 0 by {
        assert(b[n % 4] == 0);
    }
}

/// A block whose entries are at least 5 in magnitude, or zero, is not lost by
/// the inverse Walsh-Hadamard transform.
pub proof fn lemma_iwht_zero(b: Seq<i32>)
    requires
        b.len() == 16,
        within(b, 20000),
        forall|n: int| 0 <= n < 16 && -5 < #[trigger] b[n] < 5 ==> b[n] == 0,
        forall|n: int| 0 <= n < 16 ==> #[trigger] iwht(b)[n] == 0,
    ensures
        forall|n: int| 0 <= n < 16 ==> #[trigger] b[n] == 0,
{
    reveal(iwht);
    let r = iwht_columns(b);
    assert forall|n: int| 0 <= n < 16 implies -80000 <= #[trigger] r[n] <= 80000 by {
        let i = n % 4;
        let (x0, x1, x2, x3) = (b[i], b[i + 4], b[i + 8], b[i + 12]);
        reveal(wht_row);
        assert(r[n] == wht_row(x0, x1, x2, x3, n / 4));
    }
    assert forall|i: int| 0 <= i < 4 implies {
        &&& -4 <= #[trigger] r[4 * i] <= 4
        &&& -4 <= r[4 * i + 1] <= 4
        &&& -4 <= r[4 * i + 2] <= 4
        &&& -4 <= r[4 * i + 3] <= 4
    } by {
        let (x0, x1, x2, x3) = (r[4 * i], r[4 * i + 1], r[4 * i + 2], r[4 * i + 3]);
        assert(iwht(b)[4 * i] == iwht_row(x0, x1, x2, x3, 0));
        assert(iwht(b)[4 * i + 1] == iwht_row(x0, x1, x2, x3, 1));
        assert(iwht(b)[4 * i + 2] == iwht_row(x0, x1, x2, x3, 2));
        assert(iwht(b)[4 * i + 3] == iwht_row(x0, x1, x2, x3, 3));
        reveal(iwht_row);
    }
    assert forall|i: int| 0 <= i < 4 implies {
        &&& #[trigger] b[i] == 0
        &&& b[i + 4] == 0
        &&& b[i + 8] == 0
        &&& b[i + 12] == 0
    } by {
        let (x0, x1, x2, x3) = (b[i], b[i + 4], b[i + 8], b[i + 12]);
        assert forall|k: int| 0 <= k < 4 implies -4 <= #[trigger] wht_row(x0, x1, x2, x3, k) <= 4 by {
            assert(r[4 * k + i] == wht_row(x0, x1, x2, x3, k));
            assert(-4 <= r[4 * k] <= 4);
        }
        reveal(wht_row);
        assert(-4 <= wht_row(x0, x1, x2, x3, 0) <= 4);
        assert(-4 <= wht_row(x0, x1, x2, x3, 1) <= 4);
        assert(-4 <= wht_row(x0, x1, x2, x3, 2) <= 4);
        assert(-4 <= wht_row(x0, x1, x2, x3, 3) <= 4);
    }
    assert forall|n: int| 0 <= n < 16 implies #[trigger] b[n] == 0 by {
        assert(b[n % 4] == 0);
    }
}

} // verus!
