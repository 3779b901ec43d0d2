//! Encoding of images to the bytes of a frame.
use vstd::prelude::*;

use crate::arithmetic_encoder::{ArithmeticEncoder, Coder};
use crate::encoder::{ColorType, EncodingError, Vp8Encoder};
use crate::frame::Image;
use crate::output::{
    append_bytes, byte_strings, check_partitions, partition_bytes, partitions_fit,
    uncompressed_header, MAX_HEADER_SIZE,
};

verus! {

impl Vp8Encoder {
    /// Finishes the compressed frame header, and starts a new one.
    fn flush_header(&mut self) -> (header: Vec<u8>)
        requires
            old(self).encoder.wf(),
        ensures
            *final(self) == (Vp8Encoder { encoder: final(self).encoder, ..*old(self) }),
            header@ == old(self).encoder@.flushed(),
            final(self).encoder.wf(),
            final(self).encoder@ == Coder::fresh(),
    {
        let mut encoder = ArithmeticEncoder::new();
        std::mem::swap(&mut encoder, &mut self.encoder);
        encoder.flush_and_get_buffer()
    }

    /// Appends a frame to the output: its uncompressed header, its compressed
    /// header, and its partitions.
    fn append_frame(&mut self, header: Vec<u8>, parts: Vec<Vec<u8>>)
        requires
            header@.len() < MAX_HEADER_SIZE,
            parts@.len() >= 1,
            partitions_fit(byte_strings(parts@)),
        ensures
            *final(self) == (Vp8Encoder { writer: final(self).writer, ..*old(self) }),
            final(self).writer@ == old(self).writer@ + (uncompressed_header(
                old(self).frame.version,
                old(self).frame.for_display,
                old(self).frame.width,
                old(self).frame.height,
                header@.len() as int,
            ) + header@ + partition_bytes(byte_strings(parts@))),
    {
        let ghost before = self.writer@;
        let partition_size: u32 = header.len() as u32;
        self.write_uncompressed_frame_header(partition_size);
        append_bytes(&mut self.writer, &header);
        self.append_partitions(parts);
        assert(self.writer@ =~= before + (uncompressed_header(
            self.frame.version,
            self.frame.for_display,
            self.frame.width,
            self.frame.height,
            header@.len() as int,
        ) + header@ + partition_bytes(byte_strings(parts@))));
    }

    /// Writing the bytes changes nothing else of what is known of the frame.
    proof fn lemma_written(&self, before: Vp8Encoder, image: Image)
        requires
            *self == (Vp8Encoder {
                writer: self.writer,
                encoder: self.encoder,
                partitions: self.partitions,
                ..before
            }),
            before.describes(image),
        ensures
            self.describes(image),
            self.modes() == before.modes(),
            self.around() == before.around(),
            self.canvas() == before.canvas(),
            self.cached() == before.cached(),
    {
        assert(self.scene() == before.scene());
    }

    /// Encodes an image, and appends the frame to the output.
    ///
    /// The sizes in the frame have to fit their fields. See
    /// [`Vp8Encoder::try_encode_image`] for images of which that is not known.
    pub fn encode_image(
        &mut self,
        data: &[u8],
        color: ColorType,
        width: u16,
        height: u16,
        lossy_quality: u8,
    )
        requires
            old(self).ready(),
            (Image { data: data@, color, width, height, quality: lossy_quality }).wf(),
            (Image { data: data@, color, width, height, quality: lossy_quality }).fits(
                old(self).encoder@,
                old(self).coders(),
            ),
        ensures
            ({
                let image = Image { data: data@, color, width, height, quality: lossy_quality };
                &&& final(self).writer@ == old(self).writer@ + image.bytes(
                    old(self).encoder@,
                    old(self).coders(),
                )
                &&& final(self).canvas() == image.reconstruction()
                &&& final(self).cached() == image.completed()
                &&& final(self).describes(image)
                &&& final(self).modes() == image.finish().modes
                &&& final(self).around() == image.last()
            }),
            final(self).encoder@ == Coder::fresh(),
            final(self).partitions@.len() == 0,
    {
        let ghost before = self.writer@;
        let ghost coder = self.encoder@;
        let ghost coders = self.coders();
        let ghost image = Image { data: data@, color, width, height, quality: lossy_quality };
        assert(coders.len() == self.partitions@.len());
        self.encode_passes(data, color, width, height, lossy_quality);
        let ghost done = *self;
        let compressed_header = self.flush_header();
        let size: u32 = compressed_header.len() as u32;
        self.write_uncompressed_frame_header(size);
        append_bytes(&mut self.writer, &compressed_header);
        assert(self.coders() == image.partitions(coders));
        self.write_partitions();
        assert(self.writer@ =~= before + image.bytes(coder, coders));
        proof {
            self.lemma_written(done, image);
        }
    }

    /// Encodes an image, and appends the frame to the output if the sizes in
    /// it fit their fields. Tells whether they do.
    pub fn try_encode_image(
        &mut self,
        data: &[u8],
        color: ColorType,
        width: u16,
        height: u16,
        lossy_quality: u8,
    ) -> (written: bool)
        requires
            old(self).ready(),
            (Image { data: data@, color, width, height, quality: lossy_quality }).wf(),
        ensures
            ({
                let image = Image { data: data@, color, width, height, quality: lossy_quality };
                &&& written == image.fits(old(self).encoder@, old(self).coders())
                &&& written ==> final(self).writer@ == old(self).writer@ + image.bytes(
                    old(self).encoder@,
                    old(self).coders(),
                )
                &&& !written ==> final(self).writer == old(self).writer
                &&& final(self).canvas() == image.reconstruction()
                &&& final(self).cached() == image.completed()
                &&& final(self).describes(image)
                &&& final(self).modes() == image.finish().modes
                &&& final(self).around() == image.last()
            }),
            final(self).encoder@ == Coder::fresh(),
            final(self).partitions@.len() == 0,
    {
        let ghost coders = self.coders();
        let ghost image = Image { data: data@, color, width, height, quality: lossy_quality };
        assert(coders.len() == self.partitions@.len());
        self.encode_passes(data, color, width, height, lossy_quality);
        let ghost done = *self;
        let header = self.flush_header();
        assert(self.coders().len() == self.partitions@.len());
        let parts = self.flush_partitions();
        assert(byte_strings(parts@).len() == parts@.len());
        let size: usize = header.len();
        let written = size < MAX_HEADER_SIZE && check_partitions(&parts);
        if written {
            self.append_frame(header, parts);
        }
        proof {
            self.lemma_written(done, image);
        }
        written
    }
}

/// Encodes an image as a lossy frame.
///
/// Fails if a dimension does not fit in 16 bits. The sizes in the frame have
/// to fit their fields; see [`try_encode_frame_lossy`] for images of which
/// that is not known.
pub fn encode_frame_lossy(
    data: &[u8],
    width: u32,
    height: u32,
    color: ColorType,
    lossy_quality: u8,
) -> (frame: Result<Vec<u8>, EncodingError>)
    requires
        width <= 0xffff && height <= 0xffff ==> {
            let image = Image {
                data: data@,
                color,
                width: width as u16,
                height: height as u16,
                quality: lossy_quality,
            };
            image.wf() && image.encodable()
        },
    ensures
        frame == Err::<Vec<u8>, EncodingError>(EncodingError::InvalidDimensions) <==> width > 0xffff
            || height > 0xffff,
        frame matches Ok(bytes) ==> bytes@ == (Image {
            data: data@,
            color,
            width: width as u16,
            height: height as u16,
            quality: lossy_quality,
        }).encoded(),
{
    match try_encode_frame_lossy(data, width, height, color, lossy_quality) {
        Ok(Some(bytes)) => Ok(bytes),
        Ok(None) => {
            assert(false);
            Err(EncodingError::InvalidDimensions)
        },
        Err(error) => Err(error),
    }
}

/// Encodes an image as a lossy frame, if the sizes in it fit their fields.
///
/// Fails if a dimension does not fit in 16 bits.
pub fn try_encode_frame_lossy(
    data: &[u8],
    width: u32,
    height: u32,
    color: ColorType,
    lossy_quality: u8,
) -> (frame: Result<Option<Vec<u8>>, EncodingError>)
    requires
        width <= 0xffff && height <= 0xffff ==> (Image {
            data: data@,
            color,
            width: width as u16,
            height: height as u16,
            quality: lossy_quality,
        }).wf(),
    ensures
        frame == Err::<Option<Vec<u8>>, EncodingError>(EncodingError::InvalidDimensions) <==> width
            > 0xffff || height > 0xffff,
        ({
            let image = Image {
                data: data@,
                color,
                width: width as u16,
                height: height as u16,
                quality: lossy_quality,
            };
            match frame {
                Ok(Some(bytes)) => image.encodable() && bytes@ == image.encoded(),
                Ok(None) => !image.encodable(),
                Err(_) => true,
            }
        }),
{
    let mut vp8_encoder = Vp8Encoder::new();
    if width > 0xffff || height > 0xffff {
        return Err(EncodingError::InvalidDimensions);
    }
    assert(vp8_encoder.coders().len() == vp8_encoder.partitions@.len());
    let written = vp8_encoder.try_encode_image(
        data,
        color,
        width as u16,
        height as u16,
        lossy_quality,
    );
    if written {
        Ok(Some(vp8_encoder.writer))
    } else {
        Ok(None)
    }
}

} // verus!
