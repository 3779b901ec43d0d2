//! The bytes of a frame: the uncompressed header and the partitions.
use byteorder_lite::{LittleEndian, WriteBytesExt};
use vstd::prelude::*;

use crate::arithmetic_encoder::{ArithmeticEncoder, Coder};
use crate::encoder::Vp8Encoder;

verus! {

/// The `count` low bytes of `value`, least significant first.
pub open spec fn le_bytes(value: int, count: nat) -> Seq<u8>
    decreases count,
{
    if count == 0 {
        Seq::empty()
    } else {
        seq![(value % 256) as u8] + le_bytes(value / 256, (count - 1) as nat)
    }
}

/// Appends a number of 24 bits, least significant byte first.
///
/// Calls `WriteBytesExt::write_u24::<LittleEndian>` of byteorder-lite on a
/// vector. Trusted: it appends the three low bytes of the number in that
/// order. It would panic on a number of more than 24 bits.
#[verifier::external_body]
fn write_u24_le(writer: &mut Vec<u8>, n: u32)
    requires
        n < 0x100_0000,
    ensures
        final(writer)@ == old(writer)@ + le_bytes(n as int, 3),
{
    let _ = writer.write_u24::<LittleEndian>(n);
}

/// Appends a number of 16 bits, least significant byte first.
///
/// Calls `WriteBytesExt::write_u16::<LittleEndian>` of byteorder-lite on a
/// vector. Trusted: it appends the two bytes of the number in that order.
#[verifier::external_body]
fn write_u16_le(writer: &mut Vec<u8>, n: u16)
    ensures
        final(writer)@ == old(writer)@ + le_bytes(n as int, 2),
{
    let _ = writer.write_u16::<LittleEndian>(n);
}

/// Largest size of the compressed frame header that the frame tag can hold,
/// plus one.
pub const MAX_HEADER_SIZE: usize = 0x8_0000;

/// Largest size of a partition that is followed by another, plus one.
pub const MAX_PARTITION_SIZE: usize = 0x100_0000;

/// The frame tag of a key frame: the size of the compressed header, whether the
/// frame is shown, and the version.
pub open spec fn frame_tag(version: u8, for_display: bool, partition_size: u32) -> u32 {
    (partition_size << 5) | ((if for_display {
        1u32
    } else {
        0
    }) << 4) | ((version as u32) << 1)
}

/// The tag fits in three bytes, and its fields do not overlap if the version
/// fits in three bits.
pub proof fn lemma_frame_tag(version: u8, for_display: bool, partition_size: u32)
    requires
        partition_size < MAX_HEADER_SIZE,
    ensures
        frame_tag(version, for_display, partition_size) < 0x100_0000,
        version < 8 ==> frame_tag(version, for_display, partition_size) == partition_size * 32 + (
        if for_display {
            16int
        } else {
            0
        }) + version * 2,
{
    let d: u32 = if for_display {
        1
    } else {
        0
    };
    let v = version as u32;
    assert((partition_size << 5) | (d << 4) | (v << 1) < 0x100_0000 && (v < 8 ==> (partition_size
        << 5) | (d << 4) | (v << 1) == partition_size * 32 + d * 16 + v * 2)) by (bit_vector)
        requires
            partition_size < 0x8_0000,
            d <= 1,
            v < 256,
    ;
}

/// The uncompressed header of a key frame: the frame tag, the start code, and
/// the dimensions.
pub open spec fn uncompressed_header(
    version: u8,
    for_display: bool,
    width: u16,
    height: u16,
    partition_size: int,
) -> Seq<u8> {
    le_bytes(frame_tag(version, for_display, partition_size as u32) as int, 3) + seq![
        0x9du8,
        0x01u8,
        0x2au8,
    ] + le_bytes(width as int % 0x4000, 2) + le_bytes(height as int % 0x4000, 2)
}

/// Partitions in order, each but the last after its size.
pub open spec fn sized_partitions(parts: Seq<Seq<u8>>, k: int) -> Seq<u8>
    decreases k,
{
    if k <= 0 {
        Seq::empty()
    } else {
        sized_partitions(parts, k - 1) + le_bytes(parts[k - 1].len() as int, 3) + parts[k - 1]
    }
}

/// All partitions of a frame.
pub open spec fn partition_bytes(parts: Seq<Seq<u8>>) -> Seq<u8> {
    sized_partitions(parts, parts.len() - 1) + parts[parts.len() - 1]
}

/// Every partition but the last is small enough for its size field.
pub open spec fn partitions_fit(parts: Seq<Seq<u8>>) -> bool {
    forall|i: int| 0 <= i < parts.len() - 1 ==> (#[trigger] parts[i]).len() < MAX_PARTITION_SIZE
}

/// Finished code strings of the partitions.
pub open spec fn flushed_parts(coders: Seq<Coder>) -> Seq<Seq<u8>> {
    Seq::new(coders.len(), |i: int| coders[i].flushed())
}

/// Cuts bytes into `n` partitions: before each but the last stands its size.
pub open spec fn cut_parts(bytes: Seq<u8>, n: int) -> Seq<Seq<u8>>
    decreases n,
{
    if n <= 1 {
        seq![bytes]
    } else {
        let size = bytes[0] + 256 * bytes[1] + 65536 * bytes[2];
        seq![bytes.subrange(3, 3 + size)] + cut_parts(bytes.skip(3 + size), n - 1)
    }
}

/// The partitions with their sizes, from the first on.
proof fn lemma_first_partition(parts: Seq<Seq<u8>>, k: int)
    requires
        0 <= k < parts.len(),
    ensures
        sized_partitions(parts, k + 1) == le_bytes(parts[0].len() as int, 3) + parts[0]
            + sized_partitions(parts.skip(1), k),
    decreases k,
{
    let head = le_bytes(parts[0].len() as int, 3) + parts[0];
    if k > 0 {
        lemma_first_partition(parts, k - 1);
        assert(parts.skip(1)[k - 1] == parts[k]);
        assert(sized_partitions(parts, k + 1) =~= head + sized_partitions(parts.skip(1), k));
    } else {
        reveal_with_fuel(sized_partitions, 2);
        assert(sized_partitions(parts, 1) =~= head + sized_partitions(parts.skip(1), 0));
    }
}

/// The bytes of the partitions can be cut into the partitions again.
pub proof fn law_partitions_are_told_apart(parts: Seq<Seq<u8>>)
    requires
        parts.len() >= 1,
        partitions_fit(parts),
    ensures
        cut_parts(partition_bytes(parts), parts.len() as int) == parts,
    decreases parts.len(),
{
    let n = parts.len() as int;
    if n == 1 {
        assert(partition_bytes(parts) =~= parts[0]);
        assert(seq![parts[0]] =~= parts);
    } else {
        let rest = parts.skip(1);
        assert forall|i: int| 0 <= i < rest.len() - 1 implies (#[trigger] rest[i]).len()
            < MAX_PARTITION_SIZE by {
            assert(rest[i] == parts[i + 1]);
        }
        law_partitions_are_told_apart(rest);
        lemma_first_partition(parts, n - 2);
        let bytes = partition_bytes(parts);
        let size = parts[0].len() as int;
        let head = le_bytes(size, 3);
        assert(size < MAX_PARTITION_SIZE);
        reveal_with_fuel(le_bytes, 4);
        assert(head =~= seq![
            (size % 256) as u8,
            (size / 256 % 256) as u8,
            (size / 256 / 256 % 256) as u8,
        ]);
        assert(rest[n - 2] == parts[n - 1]);
        assert(bytes =~= head + parts[0] + partition_bytes(rest));
        assert(bytes[0] == head[0] && bytes[1] == head[1] && bytes[2] == head[2]);
        assert(bytes[0] + 256 * bytes[1] + 65536 * bytes[2] == size);
        assert(bytes.subrange(3, 3 + size) =~= parts[0]);
        assert(bytes.skip(3 + size) =~= partition_bytes(rest));
        assert(seq![parts[0]] + rest =~= parts);
    }
}

/// Byte strings as values.
pub open spec fn byte_strings(v: Seq<Vec<u8>>) -> Seq<Seq<u8>> {
    Seq::new(v.len(), |i: int| v[i]@)
}

/// Whether every partition but the last is small enough for its size field.
pub fn check_partitions(parts: &Vec<Vec<u8>>) -> (r: bool)
    ensures
        r == partitions_fit(byte_strings(parts@)),
{
    let last: usize = if parts.len() == 0 {
        0
    } else {
        parts.len() - 1
    };
    let mut i: usize = 0;
    while i < last
        invariant
            i <= last <= parts@.len(),
            parts@.len() > 0 ==> last == parts@.len() - 1,
            forall|j: int|
                0 <= j < i ==> (#[trigger] byte_strings(parts@)[j]).len() < MAX_PARTITION_SIZE,
        decreases last - i,
    {
        assert(byte_strings(parts@)[i as int] == parts@[i as int]@);
        if parts[i].len() >= MAX_PARTITION_SIZE {
            return false;
        }
        i = i + 1;
    }
    true
}

impl Vp8Encoder {
    /// Writes the uncompressed part of the frame header.
    pub fn write_uncompressed_frame_header(&mut self, partition_size: u32)
        requires
            partition_size < MAX_HEADER_SIZE,
        ensures
            *final(self) == (Vp8Encoder { writer: final(self).writer, ..*old(self) }),
            final(self).writer@ == old(self).writer@ + uncompressed_header(
                old(self).frame.version,
                old(self).frame.for_display,
                old(self).frame.width,
                old(self).frame.height,
                partition_size as int,
            ),
    {
        let ghost before = self.writer@;
        let version: u32 = self.frame.version as u32;
        let for_display: u32 = if self.frame.for_display {
            1
        } else {
            0
        };
        let tag: u32 = (partition_size << 5) | (for_display << 4) | (version << 1);
        proof {
            lemma_frame_tag(self.frame.version, self.frame.for_display, partition_size);
        }
        write_u24_le(&mut self.writer, tag);
        self.writer.push(0x9d);
        self.writer.push(0x01);
        self.writer.push(0x2a);
        let width: u16 = self.frame.width % 0x4000;
        let height: u16 = self.frame.height % 0x4000;
        write_u16_le(&mut self.writer, width);
        write_u16_le(&mut self.writer, height);
        assert(self.writer@ =~= before + uncompressed_header(
            self.frame.version,
            self.frame.for_display,
            self.frame.width,
            self.frame.height,
            partition_size as int,
        ));
    }

    /// Finishes the partitions, and gives them up.
    pub fn flush_partitions(&mut self) -> (parts: Vec<Vec<u8>>)
        requires
            old(self).has_coders(),
        ensures
            *final(self) == (Vp8Encoder { partitions: final(self).partitions, ..*old(self) }),
            final(self).partitions@.len() == 0,
            byte_strings(parts@) == flushed_parts(old(self).coders()),
    {
        let ghost coders = self.coders();
        let ghost all = self.partitions@;
        let mut partitions: Vec<ArithmeticEncoder> = Vec::new();
        std::mem::swap(&mut partitions, &mut self.partitions);
        let mut parts: Vec<Vec<u8>> = Vec::new();
        assert(all.skip(0) =~= all);
        while partitions.len() > 0
            invariant
                parts@.len() + partitions@.len() == all.len(),
                partitions@ == all.skip(parts@.len() as int),
                forall|i: int| 0 <= i < all.len() ==> (#[trigger] all[i]).wf(),
                forall|i: int| 0 <= i < parts@.len() ==> (#[trigger] parts@[i])@ == all[i]@.flushed(),
            decreases partitions@.len(),
        {
            assert(partitions@[0] == all[parts@.len() as int]);
            let ghost k = parts@.len() as int;
            let encoder = partitions.remove(0);
            parts.push(encoder.flush_and_get_buffer());
            assert(partitions@ =~= all.skip(k + 1));
        }
        assert(byte_strings(parts@) =~= flushed_parts(coders));
        parts
    }

    /// Appends finished partitions.
    pub fn append_partitions(&mut self, parts: Vec<Vec<u8>>)
        requires
            parts@.len() >= 1,
            partitions_fit(byte_strings(parts@)),
        ensures
            *final(self) == (Vp8Encoder { writer: final(self).writer, ..*old(self) }),
            final(self).writer@ == old(self).writer@ + partition_bytes(byte_strings(parts@)),
    {
        let ghost start = *self;
        let ghost all = byte_strings(parts@);
        let ghost before = self.writer@;
        let last: usize = parts.len() - 1;
        let mut i: usize = 0;
        assert(before + sized_partitions(all, 0) =~= before);
        while i < last
            invariant
                i <= last == parts@.len() - 1,
                all == byte_strings(parts@),
                partitions_fit(all),
                *self == (Vp8Encoder { writer: self.writer, ..start }),
                self.writer@ == before + sized_partitions(all, i as int),
            decreases last - i,
        {
            assert(all[i as int].len() < MAX_PARTITION_SIZE);
            assert(all[i as int] == parts@[i as int]@);
            write_u24_le(&mut self.writer, parts[i].len() as u32);
            append_bytes(&mut self.writer, &parts[i]);
            assert(self.writer@ =~= before + sized_partitions(all, i + 1));
            i = i + 1;
        }
        append_bytes(&mut self.writer, &parts[last]);
        assert(self.writer@ =~= before + partition_bytes(all));
    }

    /// Finishes the partitions and writes them, each but the last after its
    /// size.
    pub fn write_partitions(&mut self)
        requires
            old(self).has_coders(),
            old(self).partitions@.len() >= 1,
            partitions_fit(flushed_parts(old(self).coders())),
        ensures
            *final(self) == (Vp8Encoder {
                writer: final(self).writer,
                partitions: final(self).partitions,
                ..*old(self)
            }),
            final(self).partitions@.len() == 0,
            final(self).writer@ == old(self).writer@ + partition_bytes(
                flushed_parts(old(self).coders()),
            ),
    {
        let parts = self.flush_partitions();
        assert(byte_strings(parts@).len() == parts@.len());
        self.append_partitions(parts);
    }
}

/// Appends bytes.
pub fn append_bytes(writer: &mut Vec<u8>, bytes: &[u8])
    ensures
        final(writer)@ == old(writer)@ + bytes@,
{
    let ghost before = writer@;
    writer.extend_from_slice(bytes);
    assert(writer@ =~= before + bytes@);
}

} // verus!
