use vstd::prelude::*;

use crate::apng::{Frame, fctl_bytes, fctl_fields};
use crate::colors::{ColorType, Rgba8};
use crate::deflate::spec_zlib_inflate;
use crate::error::{PngError, PngResult};
use crate::headers::{
    Chunk, ChunkParse, IhdrData, be_bytes_u16, be_bytes_u32, be_u32, block_bytes, copy_range, lemma_chunk_roundtrip,
    file_header_is_valid, ihdr_error, ihdr_fields, ihdr_ok, ihdr_raw_size, opt_view, parse_ihdr_chunk,
    parse_next_chunk, push_all, push_be_u16, push_be_u32, read_be_u32, spec_header_valid, spec_parse_chunk,
    write_png_block,
};
use crate::options::Options;
use crate::options::{StripChunks, same_name};
use crate::png::{PngImage, decode_error, palette_trns_len, spec_unfilter_image, trns_len};

verus! {

/// Contains all data relevant to a PNG image
#[derive(Debug, Clone)]
pub struct PngData {
    /// Uncompressed image data
    pub raw: PngImage,
    /// The filtered and compressed data of the IDAT chunk
    pub idat_data: Vec<u8>,
    /// All non-critical chunks from the PNG are stored here
    pub aux_chunks: Vec<Chunk>,
    /// APNG frames
    pub frames: Vec<Frame>,
}

/// A chunk as its name and its data.
pub open spec fn chunk_view(c: Chunk) -> (Seq<u8>, Seq<u8>) {
    (c.name@, c.data@)
}

/// The chunks of a list as names and data.
pub open spec fn chunks_view(v: Seq<Chunk>) -> Seq<(Seq<u8>, Seq<u8>)> {
    v.map_values(|c: Chunk| chunk_view(c))
}

pub open spec fn name_idat() -> Seq<u8> {
    seq![73u8, 68u8, 65u8, 84u8]
}

pub open spec fn name_ihdr() -> Seq<u8> {
    seq![73u8, 72u8, 68u8, 82u8]
}

pub open spec fn name_plte() -> Seq<u8> {
    seq![80u8, 76u8, 84u8, 69u8]
}

pub open spec fn name_trns() -> Seq<u8> {
    seq![116u8, 82u8, 78u8, 83u8]
}

pub open spec fn name_iend() -> Seq<u8> {
    seq![73u8, 69u8, 78u8, 68u8]
}

pub open spec fn name_fctl() -> Seq<u8> {
    seq![102u8, 99u8, 84u8, 76u8]
}

pub open spec fn name_fdat() -> Seq<u8> {
    seq![102u8, 100u8, 65u8, 84u8]
}

pub open spec fn name_cabx() -> Seq<u8> {
    seq![99u8, 97u8, 66u8, 88u8]
}

pub open spec fn name_idot() -> Seq<u8> {
    seq![105u8, 68u8, 79u8, 84u8]
}

/// Chunks that have to come after PLTE: bKGD, hIST, tRNS, and fcTL (which
/// some decoders expect there).
pub open spec fn is_late(name: Seq<u8>) -> bool {
    name == seq![98u8, 75u8, 71u8, 68u8] || name == seq![104u8, 73u8, 83u8, 84u8] || name == name_trns()
        || name == name_fctl()
}

/// The stored chunks of a list, each as its block of bytes.
pub open spec fn blocks(s: Seq<(Seq<u8>, Seq<u8>)>) -> Seq<u8>
    decreases s.len(),
{
    if s.len() == 0 {
        Seq::empty()
    } else {
        blocks(s.drop_last()) + block_bytes(s.last().0, s.last().1)
    }
}

/// The chunks of a list whose names are late, or not late.
pub open spec fn late_chunks(s: Seq<(Seq<u8>, Seq<u8>)>, late: bool) -> Seq<(Seq<u8>, Seq<u8>)>
    decreases s.len(),
{
    if s.len() == 0 {
        Seq::empty()
    } else if is_late(s.last().0) == late {
        late_chunks(s.drop_last(), late).push(s.last())
    } else {
        late_chunks(s.drop_last(), late)
    }
}

/// The chunks of a list that are not IDAT markers.
pub open spec fn non_idat(s: Seq<(Seq<u8>, Seq<u8>)>) -> Seq<(Seq<u8>, Seq<u8>)>
    decreases s.len(),
{
    if s.len() == 0 {
        Seq::empty()
    } else if s.last().0 == name_idat() {
        non_idat(s.drop_last())
    } else {
        non_idat(s.drop_last()).push(s.last())
    }
}

/// The position of the first IDAT marker among the chunks from `i` on (their
/// number when there is none).
pub open spec fn idat_from(s: Seq<(Seq<u8>, Seq<u8>)>, i: int) -> int
    decreases s.len() - i,
{
    if i >= s.len() {
        s.len() as int
    } else if s[i].0 == name_idat() {
        i
    } else {
        idat_from(s, i + 1)
    }
}

/// The position of the first IDAT marker among the chunks (their number
/// when there is none).
pub open spec fn first_idat(s: Seq<(Seq<u8>, Seq<u8>)>) -> int {
    idat_from(s, 0)
}

/// The number of fcTL chunks in a list.
pub open spec fn count_fctl(s: Seq<(Seq<u8>, Seq<u8>)>) -> int
    decreases s.len(),
{
    if s.len() == 0 {
        0
    } else {
        count_fctl(s.drop_last()) + (if s.last().0 == name_fctl() {
            1int
        } else {
            0int
        })
    }
}

/// The contents of the IHDR chunk of a header.
pub open spec fn ihdr_bytes(h: IhdrData) -> Seq<u8> {
    be_bytes_u32(h.width) + be_bytes_u32(h.height) + seq![
        h.bit_depth.spec_bits(),
        h.color_type.spec_header_code(),
        0u8,
        0u8,
        if h.interlaced {
            1u8
        } else {
            0u8
        },
    ]
}

/// The RGB bytes of a palette.
pub open spec fn palette_rgb(p: Seq<Rgba8>) -> Seq<u8>
    decreases p.len(),
{
    if p.len() == 0 {
        Seq::empty()
    } else {
        palette_rgb(p.drop_last()) + seq![p.last().r, p.last().g, p.last().b]
    }
}

/// The alpha values of a palette.
pub open spec fn palette_alpha(p: Seq<Rgba8>) -> Seq<u8> {
    p.map_values(|c: Rgba8| c.a)
}

/// The PLTE and tRNS chunks that a color type needs.
pub open spec fn key_blocks(ct: ColorType) -> Seq<u8> {
    match ct {
        ColorType::Indexed { palette } => block_bytes(name_plte(), palette_rgb(palette@)) + (if trns_len(
            palette@,
        ) > 0 {
            block_bytes(name_trns(), palette_alpha(palette@).take(trns_len(palette@)))
        } else {
            Seq::empty()
        }),
        ColorType::Grayscale { transparent_shade: Some(t) } => block_bytes(name_trns(), be_bytes_u16(t)),
        ColorType::RGB { transparent_color: Some(c) } => block_bytes(
            name_trns(),
            be_bytes_u16(c.r) + be_bytes_u16(c.g) + be_bytes_u16(c.b),
        ),
        _ => Seq::empty(),
    }
}

/// The fcTL and fdAT chunks of the frames, numbered from `seq`.
pub open spec fn frame_blocks(frames: Seq<Frame>, seq: int) -> Seq<u8>
    decreases frames.len(),
{
    if frames.len() == 0 {
        Seq::empty()
    } else {
        let k = frames.len() - 1;
        let n = seq + 2 * k;
        frame_blocks(frames.drop_last(), seq) + block_bytes(name_fctl(), fctl_bytes(frames.last(), n as u32))
            + block_bytes(name_fdat(), be_bytes_u32((n + 1) as u32) + frames.last().data@)
    }
}

/// The PNG signature.
pub open spec fn png_signature() -> Seq<u8> {
    seq![137u8, 80u8, 78u8, 71u8, 13u8, 10u8, 26u8, 10u8]
}

impl PngData {
    /// The stored chunks before the first IDAT marker.
    pub open spec fn spec_aux_pre(&self) -> Seq<(Seq<u8>, Seq<u8>)> {
        let aux = chunks_view(self.aux_chunks@);
        aux.take(first_idat(aux))
    }

    /// The stored chunks after the first IDAT marker, without IDAT markers.
    pub open spec fn spec_aux_post(&self) -> Seq<(Seq<u8>, Seq<u8>)> {
        let aux = chunks_view(self.aux_chunks@);
        non_idat(aux.skip(first_idat(aux)))
    }

    /// The chunks that `output` writes before IEND, in order: IHDR, the
    /// stored chunks before the image data (those that have to follow PLTE
    /// after PLTE and tRNS), IDAT, the frames, and the stored chunks after the
    /// image data.
    pub open spec fn spec_output_list(&self) -> Seq<(Seq<u8>, Seq<u8>)> {
        let pre = self.spec_aux_pre();
        seq![(name_ihdr(), ihdr_bytes(self.raw.ihdr))] + late_chunks(pre, false) + key_list(self.raw.ihdr.color_type)
            + late_chunks(pre, true) + seq![(name_idat(), self.idat_data@)] + frame_list(
            self.frames@,
            count_fctl(late_chunks(pre, true)),
        ) + self.spec_aux_post()
    }

    /// The PNG stream that `output` writes: the signature, the chunks of
    /// `spec_output_list`, and IEND.
    pub open spec fn spec_output(&self) -> Seq<u8> {
        png_signature() + blocks(self.spec_output_list()) + block_bytes(name_iend(), Seq::empty())
    }

    /// Whether every chunk that `output` writes fits the 32-bit length of a
    /// chunk, and the sequence numbers of the frames fit 32 bits.
    pub open spec fn spec_writable(&self) -> bool {
        &&& forall|i: int| 0 <= i < self.aux_chunks@.len() ==> (#[trigger] self.aux_chunks@[i]).data@.len() <= u32::MAX
        &&& self.idat_data@.len() <= u32::MAX
        &&& forall|i: int| 0 <= i < self.frames@.len() ==> (#[trigger] self.frames@[i]).data@.len() + 4 <= u32::MAX
        &&& self.raw.ihdr.color_type matches ColorType::Indexed { palette } ==> 3 * palette@.len() <= u32::MAX
        &&& self.aux_chunks@.len() + 2 * self.frames@.len() + 1 <= u32::MAX
    }
}

proof fn lemma_idat_from_range(s: Seq<(Seq<u8>, Seq<u8>)>, i: int)
    requires
        0 <= i <= s.len(),
    ensures
        i <= idat_from(s, i) <= s.len(),
    decreases s.len() - i,
{
    if i < s.len() && s[i].0 != name_idat() {
        lemma_idat_from_range(s, i + 1);
    }
}

/// Whether a chunk name is one of those that have to follow PLTE.
fn is_late_name(name: &[u8; 4]) -> (r: bool)
    ensures
        r == is_late(name@),
{
    same_name(name, &[98, 75, 71, 68]) || same_name(name, &[104, 73, 83, 84]) || same_name(name, &[116, 82, 78, 83])
        || same_name(name, &[102, 99, 84, 76])
}

/// Where the first IDAT marker stands among the chunks.
fn first_idat_index(chunks: &Vec<Chunk>) -> (r: usize)
    ensures
        r == first_idat(chunks_view(chunks@)),
        r <= chunks@.len(),
{
    let ghost v = chunks_view(chunks@);
    let mut i: usize = 0;
    while i < chunks.len()
        invariant
            v == chunks_view(chunks@),
            i <= chunks@.len(),
            idat_from(v, 0) == idat_from(v, i as int),
        decreases chunks@.len() - i,
    {
        if same_name(&chunks[i].name, &[73, 68, 65, 84]) {
            return i;
        }
        i += 1;
    }
    i
}

/// Append the PLTE and tRNS chunks that a color type needs.
fn write_key_chunks(ct: &ColorType, output: &mut Vec<u8>)
    requires
        ct matches ColorType::Indexed { palette } ==> 3 * palette@.len() <= u32::MAX,
    ensures
        final(output)@ == old(output)@ + key_blocks(*ct),
{
    match ct {
        ColorType::Indexed { palette } => {
            let mut rgb: Vec<u8> = Vec::new();
            let mut i: usize = 0;
            while i < palette.len()
                invariant
                    i <= palette@.len(),
                    rgb@ == palette_rgb(palette@.take(i as int)),
                    rgb@.len() == 3 * i,
                decreases palette@.len() - i,
            {
                assert(palette@.take(i + 1).drop_last() =~= palette@.take(i as int));
                rgb.push(palette[i].r);
                rgb.push(palette[i].g);
                rgb.push(palette[i].b);
                assert(rgb@ =~= palette_rgb(palette@.take(i as int)) + seq![palette@[i as int].r, palette@[i as int].g, palette@[i as int].b]);
                i += 1;
            }
            assert(palette@.take(palette@.len() as int) =~= palette@);
            write_png_block(&[80, 76, 84, 69], rgb.as_slice(), output);
            let last = palette_trns_len(palette);
            if last > 0 {
                let mut alpha: Vec<u8> = Vec::new();
                let mut j: usize = 0;
                proof {
                    crate::png::lemma_trns_len(palette@);
                }
                while j < last
                    invariant
                        last == trns_len(palette@),
                        last <= palette@.len(),
                        j <= last,
                        alpha@ == palette_alpha(palette@).take(j as int),
                    decreases last - j,
                {
                    alpha.push(palette[j].a);
                    j += 1;
                    assert(alpha@ =~= palette_alpha(palette@).take(j as int));
                }
                write_png_block(&[116, 82, 78, 83], alpha.as_slice(), output);
            }
        },
        ColorType::Grayscale { transparent_shade } => {
            if let Some(t) = transparent_shade {
                let mut d: Vec<u8> = Vec::new();
                push_be_u16(&mut d, *t);
                write_png_block(&[116, 82, 78, 83], d.as_slice(), output);
            }
        },
        ColorType::RGB { transparent_color } => {
            if let Some(c) = transparent_color {
                let mut d: Vec<u8> = Vec::new();
                push_be_u16(&mut d, c.r);
                push_be_u16(&mut d, c.g);
                push_be_u16(&mut d, c.b);
                assert(d@ =~= be_bytes_u16(c.r) + be_bytes_u16(c.g) + be_bytes_u16(c.b));
                write_png_block(&[116, 82, 78, 83], d.as_slice(), output);
            }
        },
        _ => {},
    }
    assert(final(output)@ =~= old(output)@ + key_blocks(*ct));
}

proof fn lemma_blocks_push(a: Seq<(Seq<u8>, Seq<u8>)>, x: Seq<(Seq<u8>, Seq<u8>)>, c: (Seq<u8>, Seq<u8>))
    ensures
        blocks(a + x.push(c)) == blocks(a + x) + block_bytes(c.0, c.1),
{
    assert(a + x.push(c) =~= (a + x).push(c));
    assert((a + x).push(c).drop_last() =~= a + x);
}

proof fn lemma_blocks_keys(a: Seq<(Seq<u8>, Seq<u8>)>, ct: ColorType)
    ensures
        blocks(a + key_list(ct)) == blocks(a) + key_blocks(ct),
{
    lemma_blocks_append(a, key_list(ct));
    lemma_key_blocks(ct);
}

impl PngData {
    /// Append the stored chunks before the image data whose names are late
    /// (or not), giving the number of fcTL chunks among them.
    fn write_pre(&self, split: usize, late: bool, output: &mut Vec<u8>, Ghost(base): Ghost<Seq<(Seq<u8>, Seq<u8>)>>) -> (n: u32)
        requires
            self.spec_writable(),
            split == first_idat(chunks_view(self.aux_chunks@)),
            split <= self.aux_chunks@.len(),
            old(output)@ == png_signature() + blocks(base),
        ensures
            final(output)@ == png_signature() + blocks(base + late_chunks(self.spec_aux_pre(), late)),
            n == count_fctl(late_chunks(self.spec_aux_pre(), late)),
            n <= split,
    {
        let ghost aux = chunks_view(self.aux_chunks@);
        let ghost pre = aux.take(split as int);
        let ghost sig = png_signature();
        let mut count: u32 = 0;
        let mut i: usize = 0;
        assert(base + late_chunks(pre.take(0), late) =~= base);
        while i < split
            invariant
                self.spec_writable(),
                aux == chunks_view(self.aux_chunks@),
                split <= self.aux_chunks@.len(),
                pre == aux.take(split as int),
                i <= split,
                output@ == sig + blocks(base + late_chunks(pre.take(i as int), late)),
                count == count_fctl(late_chunks(pre.take(i as int), late)),
                count <= i,
            decreases split - i,
        {
            assert(pre.take(i + 1).drop_last() =~= pre.take(i as int));
            assert(pre.take(i + 1).last() == chunk_view(self.aux_chunks@[i as int]));
            let c = &self.aux_chunks[i];
            if is_late_name(&c.name) == late {
                write_png_block(&c.name, c.data.as_slice(), output);
                proof {
                    lemma_blocks_push(base, late_chunks(pre.take(i as int), late), chunk_view(self.aux_chunks@[i as int]));
                    assert(late_chunks(pre.take(i + 1), late).drop_last() =~= late_chunks(pre.take(i as int), late));
                }
                if same_name(&c.name, &[102, 99, 84, 76]) {
                    count += 1;
                }
            }
            i += 1;
        }
        assert(pre.take(split as int) =~= pre);
        count
    }

    /// Append the fcTL and fdAT chunks of the frames, numbered from `seq0`.
    #[verifier::spinoff_prover]
    #[verifier::rlimit(40)]
    fn write_frames(&self, seq0: u32, output: &mut Vec<u8>, Ghost(base): Ghost<Seq<(Seq<u8>, Seq<u8>)>>)
        requires
            self.spec_writable(),
            seq0 <= self.aux_chunks@.len(),
            old(output)@ == png_signature() + blocks(base),
        ensures
            final(output)@ == png_signature() + blocks(base + frame_list(self.frames@, seq0 as int)),
    {
        let ghost sig = png_signature();
        let mut sequence_number = seq0;
        let mut j: usize = 0;
        assert(base + frame_list(self.frames@.take(0), seq0 as int) =~= base);
        while j < self.frames.len()
            invariant
                self.spec_writable(),
                seq0 <= self.aux_chunks@.len(),
                j <= self.frames@.len(),
                sequence_number == seq0 + 2 * j,
                output@ == sig + blocks(base + frame_list(self.frames@.take(j as int), seq0 as int)),
            decreases self.frames@.len() - j,
        {
            let ghost fl0 = frame_list(self.frames@.take(j as int), seq0 as int);
            assert(self.frames@.take(j + 1).drop_last() =~= self.frames@.take(j as int));
            let frame = &self.frames[j];
            let fctl = frame.fctl_data(sequence_number);
            write_png_block(&[102, 99, 84, 76], fctl.as_slice(), output);
            let fdat = frame.fdat_data(sequence_number + 1);
            write_png_block(&[102, 100, 65, 84], fdat.as_slice(), output);
            proof {
                let c = (name_fctl(), fctl@);
                let e = (name_fdat(), fdat@);
                lemma_blocks_push(base, fl0, c);
                lemma_blocks_push(base, fl0.push(c), e);
                assert(frame_list(self.frames@.take(j + 1), seq0 as int) =~= fl0 + seq![c, e]);
                assert(fl0 + seq![c, e] =~= fl0.push(c).push(e));
            }
            sequence_number += 2;
            j += 1;
        }
        assert(self.frames@.take(self.frames@.len() as int) =~= self.frames@);
    }

    /// Append the stored chunks after the image data.
    fn write_post(&self, split: usize, output: &mut Vec<u8>, Ghost(base): Ghost<Seq<(Seq<u8>, Seq<u8>)>>)
        requires
            self.spec_writable(),
            split == first_idat(chunks_view(self.aux_chunks@)),
            split <= self.aux_chunks@.len(),
            old(output)@ == png_signature() + blocks(base),
        ensures
            final(output)@ == png_signature() + blocks(base + self.spec_aux_post()),
    {
        let ghost aux = chunks_view(self.aux_chunks@);
        let ghost sig = png_signature();
        let mut i: usize = split;
        assert(base + non_idat(aux.subrange(split as int, split as int)) =~= base);
        while i < self.aux_chunks.len()
            invariant
                self.spec_writable(),
                aux == chunks_view(self.aux_chunks@),
                split <= i <= self.aux_chunks@.len(),
                output@ == sig + blocks(base + non_idat(aux.subrange(split as int, i as int))),
            decreases self.aux_chunks@.len() - i,
        {
            assert(aux.subrange(split as int, i + 1).drop_last() =~= aux.subrange(split as int, i as int));
            assert(aux.subrange(split as int, i + 1).last() == chunk_view(self.aux_chunks@[i as int]));
            let c = &self.aux_chunks[i];
            if !same_name(&c.name, &[73, 68, 65, 84]) {
                write_png_block(&c.name, c.data.as_slice(), output);
                proof {
                    lemma_blocks_push(base, non_idat(aux.subrange(split as int, i as int)), chunk_view(self.aux_chunks@[i as int]));
                }
            }
            i += 1;
        }
        assert(aux.subrange(split as int, aux.len() as int) =~= aux.skip(split as int));
    }

    /// Format the `PngData` struct into a valid PNG bytestream
    #[verifier::spinoff_prover]
    pub fn output(&self) -> (r: Vec<u8>)
        requires
            self.spec_writable(),
        ensures
            r@ == self.spec_output(),
    {
        // PNG header
        let mut output: Vec<u8> = vec![0x89, 0x50, 0x4E, 0x47, 0x0D, 0x0A, 0x1A, 0x0A];
        let ghost sig = png_signature();
        assert(output@ =~= sig);
        // IHDR
        let ihdr = &self.raw.ihdr;
        let mut ihdr_data: Vec<u8> = Vec::new();
        push_be_u32(&mut ihdr_data, ihdr.width);
        push_be_u32(&mut ihdr_data, ihdr.height);
        ihdr_data.push(ihdr.bit_depth.as_u8());
        ihdr_data.push(ihdr.color_type.png_header_code());
        ihdr_data.push(0);
        ihdr_data.push(0);
        ihdr_data.push(if ihdr.interlaced {
            1
        } else {
            0
        });
        assert(ihdr_data@ =~= ihdr_bytes(self.raw.ihdr));
        write_png_block(&[73, 72, 68, 82], ihdr_data.as_slice(), &mut output);
        let ghost l1 = seq![(name_ihdr(), ihdr_bytes(self.raw.ihdr))];
        proof {
            lemma_blocks_single(l1[0]);
        }
        // Ancillary chunks - split into those that come before IDAT and those that come after
        let split = first_idat_index(&self.aux_chunks);
        // Many chunks need to be before PLTE, so write all except those that explicitly need to be after
        self.write_pre(split, false, &mut output, Ghost(l1));
        let ghost l2 = l1 + late_chunks(self.spec_aux_pre(), false);
        // Palette and transparency
        write_key_chunks(&self.raw.ihdr.color_type, &mut output);
        let ghost l3 = l2 + key_list(self.raw.ihdr.color_type);
        proof {
            lemma_blocks_keys(l2, self.raw.ihdr.color_type);
            vstd::seq_lib::lemma_concat_associative(sig, blocks(l2), key_blocks(self.raw.ihdr.color_type));
        }
        // Special ancillary chunks that need to come after PLTE but before IDAT
        let sequence_number = self.write_pre(split, true, &mut output, Ghost(l3));
        let ghost l4 = l3 + late_chunks(self.spec_aux_pre(), true);
        // IDAT data
        write_png_block(&[73, 68, 65, 84], self.idat_data.as_slice(), &mut output);
        let ghost c5 = (name_idat(), self.idat_data@);
        proof {
            lemma_blocks_push(l4, Seq::empty(), c5);
            assert(l4 + Seq::<(Seq<u8>, Seq<u8>)>::empty() =~= l4);
            assert(l4 + seq![c5] =~= l4 + Seq::<(Seq<u8>, Seq<u8>)>::empty().push(c5));
            vstd::seq_lib::lemma_concat_associative(sig, blocks(l4), block_bytes(c5.0, c5.1));
        }
        let ghost l5 = l4 + seq![c5];
        // APNG frames
        self.write_frames(sequence_number, &mut output, Ghost(l5));
        let ghost l6 = l5 + frame_list(self.frames@, sequence_number as int);
        // Ancillary chunks that come after IDAT
        self.write_post(split, &mut output, Ghost(l6));
        assert(l6 + self.spec_aux_post() == self.spec_output_list());
        let ghost body = output@;
        // Stream end
        write_png_block(&[73, 69, 78, 68], &[], &mut output);
        output
    }
}

/// What reading the chunks of a PNG stream has gathered so far: the image
/// data, the key chunks (the last of each kind), the ancillary chunks kept
/// (with a marker where the image data starts), the frames of an animation
/// (the data of each fcTL chunk and the frame data of its fdAT chunks), and
/// the next sequence number of the animation chunks.
pub struct ScanState {
    pub idat: Seq<u8>,
    pub ihdr: Option<Seq<u8>>,
    pub plte: Option<Seq<u8>>,
    pub trns: Option<Seq<u8>>,
    pub aux: Seq<(Seq<u8>, Seq<u8>)>,
    pub frames: Seq<(Seq<u8>, Seq<u8>)>,
    pub seq: int,
}

/// How reading the chunks of a PNG stream ends.
pub enum ScanEnd {
    /// At the IEND chunk, with what was gathered
    Done(ScanState),
    /// The stream ends inside a chunk, or a fcTL chunk is too short
    Truncated,
    /// Not a PNG stream
    NotPng,
    /// A chunk's CRC does not match (the chunk's name)
    BadCrc(Seq<u8>),
    /// A C2PA manifest (caBX), which any change invalidates, was asked to be
    /// kept
    C2pa,
    /// Animation chunks are out of sequence
    OutOfOrder,
    /// An animation chunk has no room for its sequence number
    ShortApng,
}

/// The effect of one chunk on what the reading has gathered: go on, or stop.
pub enum ScanStep {
    Next(ScanState),
    Stop(ScanEnd),
}

/// The state before the first chunk.
pub open spec fn scan_start() -> ScanState {
    ScanState {
        idat: Seq::empty(),
        ihdr: None,
        plte: None,
        trns: None,
        aux: Seq::empty(),
        frames: Seq::empty(),
        seq: 0,
    }
}

/// What one chunk does: IDAT data is gathered (a marker keeps the place of
/// the first), key chunks are remembered, chunks kept by `strip` are stored,
/// except iDOT, which is always stripped, caBX (stripped, or an error when
/// asked to be kept explicitly) and the animation chunks after the image
/// data, which make up frames.
pub open spec fn chunk_effect(st: ScanState, name: Seq<u8>, data: Seq<u8>, strip: StripChunks) -> ScanStep {
    if name == name_idat() {
        ScanStep::Next(
            ScanState {
                aux: if st.idat.len() == 0 {
                    st.aux.push((name, Seq::empty()))
                } else {
                    st.aux
                },
                idat: st.idat + data,
                ..st
            },
        )
    } else if name == name_ihdr() {
        ScanStep::Next(ScanState { ihdr: Some(data), ..st })
    } else if name == name_plte() {
        ScanStep::Next(ScanState { plte: Some(data), ..st })
    } else if name == name_trns() {
        ScanStep::Next(ScanState { trns: Some(data), ..st })
    } else if strip.spec_keep(name) {
        if name == name_idot() {
            ScanStep::Next(st)
        } else if name == name_cabx() {
            if strip is Keep {
                ScanStep::Stop(ScanEnd::C2pa)
            } else {
                ScanStep::Next(st)
            }
        } else if name == name_fctl() || name == name_fdat() {
            if data.len() < 4 {
                ScanStep::Stop(ScanEnd::ShortApng)
            } else if be_u32(data, 0) as int != st.seq {
                ScanStep::Stop(ScanEnd::OutOfOrder)
            } else if name == name_fctl() && st.idat.len() > 0 {
                if data.len() < 26 {
                    ScanStep::Stop(ScanEnd::Truncated)
                } else {
                    ScanStep::Next(ScanState { frames: st.frames.push((data, Seq::empty())), seq: st.seq + 1, ..st })
                }
            } else if name == name_fdat() {
                if st.frames.len() == 0 {
                    ScanStep::Stop(ScanEnd::OutOfOrder)
                } else {
                    let last = st.frames.last();
                    ScanStep::Next(
                        ScanState {
                            frames: st.frames.drop_last().push((last.0, last.1 + data.skip(4))),
                            seq: st.seq + 1,
                            ..st
                        },
                    )
                }
            } else {
                ScanStep::Next(ScanState { aux: st.aux.push((name, data)), seq: st.seq + 1, ..st })
            }
        } else {
            ScanStep::Next(ScanState { aux: st.aux.push((name, data)), ..st })
        }
    } else {
        ScanStep::Next(st)
    }
}

/// The effect of one chunk, as `chunk_effect` gives it (kept folded in
/// proofs about whole streams).
#[verifier::opaque]
pub open spec fn scan_step(st: ScanState, name: Seq<u8>, data: Seq<u8>, strip: StripChunks) -> ScanStep {
    chunk_effect(st, name, data, strip)
}

pub proof fn lemma_scan_step_unfold(st: ScanState, name: Seq<u8>, data: Seq<u8>, strip: StripChunks)
    ensures
        scan_step(st, name, data, strip) == chunk_effect(st, name, data, strip),
{
    reveal(scan_step);
}

/// Read the chunks from offset `off` on, starting from the state `st`.
#[verifier::opaque]
pub open spec fn scan_chunks(bytes: Seq<u8>, off: int, fix_errors: bool, strip: StripChunks, st: ScanState) -> ScanEnd
    decreases bytes.len() - off,
{
    match spec_parse_chunk(bytes, off, fix_errors) {
        ChunkParse::Truncated => ScanEnd::Truncated,
        ChunkParse::End(_) => ScanEnd::Done(st),
        ChunkParse::BadCrc(name) => ScanEnd::BadCrc(name),
        ChunkParse::Found(name, data, next) => if off < next <= bytes.len() {
            match scan_step(st, name, data, strip) {
                ScanStep::Next(st2) => scan_chunks(bytes, next, fix_errors, strip, st2),
                ScanStep::Stop(e) => e,
            }
        } else {
            ScanEnd::Truncated
        },
    }
}

/// One step of `scan_chunks`: the chunk at `off` decides.
pub proof fn lemma_scan_chunks_unfold(bytes: Seq<u8>, off: int, fix_errors: bool, strip: StripChunks, st: ScanState)
    ensures
        scan_chunks(bytes, off, fix_errors, strip, st) == match spec_parse_chunk(bytes, off, fix_errors) {
            ChunkParse::Truncated => ScanEnd::Truncated,
            ChunkParse::End(_) => ScanEnd::Done(st),
            ChunkParse::BadCrc(name) => ScanEnd::BadCrc(name),
            ChunkParse::Found(name, data, next) => if off < next <= bytes.len() {
                match scan_step(st, name, data, strip) {
                    ScanStep::Next(st2) => scan_chunks(bytes, next, fix_errors, strip, st2),
                    ScanStep::Stop(e) => e,
                }
            } else {
                ScanEnd::Truncated
            },
        },
{
    reveal_with_fuel(scan_chunks, 1);
}

/// Read a PNG stream: its signature, then its chunks.
pub open spec fn scan_png(bytes: Seq<u8>, fix_errors: bool, strip: StripChunks) -> ScanEnd {
    if bytes.len() < 8 {
        ScanEnd::Truncated
    } else if !spec_header_valid(bytes.subrange(0, 8)) {
        ScanEnd::NotPng
    } else {
        scan_chunks(bytes, 8, fix_errors, strip, scan_start())
    }
}

/// Whether the frames hold what the reading gathered for them.
pub open spec fn frames_match(frames: Seq<Frame>, gathered: Seq<(Seq<u8>, Seq<u8>)>) -> bool {
    &&& frames.len() == gathered.len()
    &&& forall|i: int|
        0 <= i < frames.len() ==> fctl_fields(#[trigger] frames[i], gathered[i].0) && frames[i].data@
            == gathered[i].1
}

/// Whether a size exceeds the maximum, when there is one.
pub open spec fn exceeds_max(max: Option<usize>, size: int) -> bool {
    match max {
        Some(m) => size > m,
        None => false,
    }
}

/// Whether the image data of a read that got as far as the header fits the
/// address space.
pub open spec fn size_fits(end: ScanEnd) -> bool {
    match end {
        ScanEnd::Done(st) => match st.ihdr {
            Some(h) => st.idat.len() > 0 && ihdr_ok(h, st.plte is Some) ==> ihdr_raw_size(h) <= usize::MAX,
            None => true,
        },
        _ => true,
    }
}

/// What reading a stream gives: the error of the first chunk that stops the
/// reading, or, once the chunks are read, the error of a missing chunk or
/// what `read_result` says.
pub open spec fn read_outcome(r: PngResult<PngData>, bytes: Seq<u8>, opts: Options) -> bool {
    match scan_png(bytes, opts.fix_errors, opts.strip) {
        ScanEnd::Truncated => r matches Err(PngError::TruncatedData),
        ScanEnd::NotPng => r matches Err(PngError::NotPNG),
        ScanEnd::BadCrc(name) => r matches Err(PngError::CRCMismatch(n)) && n@ == name,
        ScanEnd::C2pa => r matches Err(PngError::C2PAMetadataPreventsChanges),
        ScanEnd::OutOfOrder => r matches Err(PngError::APNGOutOfOrder),
        ScanEnd::ShortApng => false,
        ScanEnd::Done(st) => if st.idat.len() == 0 {
            r matches Err(PngError::ChunkMissing(s)) && s@ == "IDAT"@
        } else {
            match st.ihdr {
                None => r matches Err(PngError::ChunkMissing(s)) && s@ == "IHDR"@,
                Some(h) => read_result(r, st, h, opts.max_decompressed_size),
            }
        },
    }
}

/// What reading a stream gives once its chunks are read, the image data is
/// not empty and the IHDR chunk is `h`: the header's error, the size limit's
/// error, an error of decompressing or unfiltering the image data, or the
/// image with what the reading gathered.
pub open spec fn read_result(r: PngResult<PngData>, st: ScanState, h: Seq<u8>, max: Option<usize>) -> bool {
    if !ihdr_ok(h, st.plte is Some) {
        r matches Err(e) && ihdr_error(e, h, st.plte is Some)
    } else if exceeds_max(max, ihdr_raw_size(h)) {
        r == Err::<PngData, PngError>(PngError::InflatedDataTooLong(max->0))
    } else {
        match r {
            Err(e) => exists|hd: IhdrData|
                ihdr_fields(hd, h, st.plte, st.trns) && #[trigger] decode_error(
                    e,
                    spec_zlib_inflate(st.idat),
                    ihdr_raw_size(h),
                    hd.spec_layout(),
                    hd.spec_bytes_pp(),
                ),
            Ok(d) => {
                &&& ihdr_fields(d.raw.ihdr, h, st.plte, st.trns)
                &&& d.raw.wf()
                &&& spec_zlib_inflate(st.idat) matches Some(v)
                &&& spec_unfilter_image(d.raw.ihdr.spec_layout(), v, d.raw.ihdr.spec_bytes_pp()) == Some(d.raw.data@)
                &&& d.idat_data@ == st.idat
                &&& chunks_view(d.aux_chunks@) == st.aux
                &&& frames_match(d.frames@, st.frames)
            },
        }
    }
}

/// Whether the exec values of `from_slice` hold what the reading gathered.
pub open spec fn holds_state(
    st: ScanState,
    idat: Seq<u8>,
    ihdr: Option<Vec<u8>>,
    plte: Option<Vec<u8>>,
    trns: Option<Vec<u8>>,
    aux: Seq<Chunk>,
    frames: Seq<Frame>,
    seq: u64,
) -> bool {
    &&& idat == st.idat
    &&& opt_view(ihdr) == st.ihdr
    &&& opt_view(plte) == st.plte
    &&& opt_view(trns) == st.trns
    &&& chunks_view(aux) == st.aux
    &&& frames_match(frames, st.frames)
    &&& seq == st.seq
}

impl PngData {
    /// Create a new `PngData` struct by reading a slice
    pub fn from_slice(byte_data: &[u8], opts: &Options) -> (r: PngResult<PngData>)
        requires
            !(scan_png(byte_data@, opts.fix_errors, opts.strip) is ShortApng),
            size_fits(scan_png(byte_data@, opts.fix_errors, opts.strip)),
        ensures
            read_outcome(r, byte_data@, *opts),
    {
        match Self::read_png(byte_data, opts) {
            Some(r) => r,
            None => {
                assert(false);
                Err(PngError::TruncatedData)
            },
        }
    }

    /// Read a slice as `from_slice` does, or nothing where that cannot read
    /// it: an animation chunk too short to hold its sequence number, or an
    /// image whose decompressed size does not fit in memory.
    pub fn read_png(byte_data: &[u8], opts: &Options) -> (r: Option<PngResult<PngData>>)
        ensures
            r is None <==> (scan_png(byte_data@, opts.fix_errors, opts.strip) is ShortApng || !size_fits(
                scan_png(byte_data@, opts.fix_errors, opts.strip),
            )),
            r matches Some(res) ==> read_outcome(res, byte_data@, *opts),
    {
        let ghost bytes = byte_data@;
        let ghost fix = opts.fix_errors;
        let ghost strip = opts.strip;
        // Test that png header is valid
        if byte_data.len() < 8 {
            return Some(Err(PngError::TruncatedData));
        }
        if !file_header_is_valid(&byte_data[0..8]) {
            return Some(Err(PngError::NotPNG));
        }
        let mut byte_offset: usize = 8;
        // Read the data chunks
        let mut idat_data: Vec<u8> = Vec::new();
        let mut ihdr_chunk: Option<Vec<u8>> = None;
        let mut plte_chunk: Option<Vec<u8>> = None;
        let mut trns_chunk: Option<Vec<u8>> = None;
        let mut aux_chunks: Vec<Chunk> = Vec::new();
        let mut frames: Vec<Frame> = Vec::new();
        let mut sequence_number: u64 = 0;
        let ghost mut st = scan_start();
        assert(chunks_view(aux_chunks@) =~= Seq::<(Seq<u8>, Seq<u8>)>::empty());
        loop
            invariant_except_break
                scan_png(bytes, fix, strip) == scan_chunks(bytes, byte_offset as int, fix, strip, st),
            invariant
                bytes == byte_data@,
                fix == opts.fix_errors,
                strip == opts.strip,
                8 <= byte_offset <= byte_data@.len(),
                holds_state(st, idat_data@, ihdr_chunk, plte_chunk, trns_chunk, aux_chunks@, frames@, sequence_number),
                st.seq <= byte_offset,
            ensures
                scan_png(bytes, fix, strip) == ScanEnd::Done(st),
                holds_state(st, idat_data@, ihdr_chunk, plte_chunk, trns_chunk, aux_chunks@, frames@, sequence_number),
            decreases byte_data@.len() - byte_offset,
        {
            let ghost off = byte_offset as int;
            proof {
                lemma_scan_chunks_unfold(bytes, off, fix, strip, st);
            }
            let chunk = match parse_next_chunk(byte_data, &mut byte_offset, opts.fix_errors) {
                Err(e) => return Some(Err(e)),
                Ok(None) => break,
                Ok(Some(c)) => c,
            };
            let ghost name = chunk.name@;
            let ghost data = chunk.data@;
            assert(off < byte_offset <= bytes.len());
            let ghost step = scan_step(st, name, data, strip);
            proof {
                lemma_scan_step_unfold(st, name, data, strip);
            }
            if same_name(&chunk.name, &[73, 68, 65, 84]) {
                if idat_data.len() == 0 {
                    // Keep track of where the first IDAT sits relative to other chunks
                    aux_chunks.push(Chunk { name: chunk.name, data: Vec::new() });
                }
                push_all(&mut idat_data, chunk.data.as_slice());
            } else if same_name(&chunk.name, &[73, 72, 68, 82]) {
                ihdr_chunk = Some(chunk.data);
            } else if same_name(&chunk.name, &[80, 76, 84, 69]) {
                plte_chunk = Some(chunk.data);
            } else if same_name(&chunk.name, &[116, 82, 78, 83]) {
                trns_chunk = Some(chunk.data);
            } else if opts.strip.keep(&chunk.name) {
                if same_name(&chunk.name, &[105, 68, 79, 84]) {
                    // iDOT (data offsets) is necessarily invalidated by changes to the
                    // file: it is always stripped.
                } else if same_name(&chunk.name, &[99, 97, 66, 88]) {
                    // caBX (C2PA manifest) is invalidated by any change to the file. If it
                    // has been explicitly kept then return an error, otherwise strip it.
                    if let StripChunks::Keep(_) = &opts.strip {
                        return Some(Err(PngError::C2PAMetadataPreventsChanges));
                    }
                } else if same_name(&chunk.name, &[102, 99, 84, 76]) || same_name(&chunk.name, &[102, 100, 65, 84]) {
                    if chunk.data.len() < 4 {
                        assert(step == ScanStep::Stop(ScanEnd::ShortApng));
                        assert(scan_chunks(bytes, off, fix, strip, st) == ScanEnd::ShortApng);
                        return None;
                    }
                    // Validate the sequence number
                    if read_be_u32(chunk.data.as_slice(), 0) as u64 != sequence_number {
                        return Some(Err(PngError::APNGOutOfOrder));
                    }
                    sequence_number += 1;
                    if same_name(&chunk.name, &[102, 99, 84, 76]) && idat_data.len() > 0 {
                        // Only create a Frame if it's after the IDAT (else store it as an aux chunk)
                        let frame = match Frame::from_fctl_data(chunk.data.as_slice()) {
                            Ok(f) => f,
                            Err(e) => return Some(Err(e)),
                        };
                        frames.push(frame);
                        proof {
                            let st2 = ScanState { frames: st.frames.push((data, Seq::empty())), seq: st.seq + 1, ..st };
                            assert(frames@.last().data@ =~= Seq::<u8>::empty());
                            assert(frames_match(frames@, st2.frames));
                        }
                    } else if same_name(&chunk.name, &[102, 100, 65, 84]) {
                        // Append the data to the last frame
                        let mut last = match frames.pop() {
                            Some(f) => f,
                            None => return Some(Err(PngError::APNGOutOfOrder)),
                        };
                        let rest = copy_range(chunk.data.as_slice(), 4, chunk.data.len());
                        push_all(&mut last.data, rest.as_slice());
                        frames.push(last);
                        proof {
                            assert(rest@ =~= data.skip(4));
                        }
                    } else {
                        aux_chunks.push(chunk);
                    }
                } else {
                    // Regular ancillary chunk
                    aux_chunks.push(chunk);
                }
            }
            proof {
                match step {
                    ScanStep::Next(st2) => {
                        assert(holds_state(st2, idat_data@, ihdr_chunk, plte_chunk, trns_chunk, aux_chunks@, frames@, sequence_number)) by {
                            assert(chunks_view(aux_chunks@) =~= st2.aux);
                            assert(idat_data@ =~= st2.idat);
                        }
                        st = st2;
                    },
                    ScanStep::Stop(_) => {},
                }
            }
        }
        // Parse the chunks into our PngData
        if idat_data.len() == 0 {
            return Some(Err(PngError::ChunkMissing("IDAT")));
        }
        let ihdr_data = match ihdr_chunk {
            Some(v) => v,
            None => return Some(Err(PngError::ChunkMissing("IHDR"))),
        };
        let ihdr = match parse_ihdr_chunk(ihdr_data.as_slice(), plte_chunk, trns_chunk) {
            Ok(h) => h,
            Err(e) => return Some(Err(e)),
        };
        let size = match ihdr.checked_raw_data_size() {
            Some(n) => n,
            None => return None,
        };
        if let Some(max) = opts.max_decompressed_size {
            if size > max {
                return Some(Err(PngError::InflatedDataTooLong(max)));
            }
        }
        let raw = match PngImage::new(ihdr, idat_data.as_slice()) {
            Ok(img) => img,
            Err(e) => return Some(Err(e)),
        };
        // Return the PngData
        Some(Ok(PngData { idat_data, raw, aux_chunks, frames }))
    }
}

/// The reading state after the chunks of a list, each of which lets the
/// reading go on.
pub open spec fn scan_list(st: ScanState, l: Seq<(Seq<u8>, Seq<u8>)>, strip: StripChunks) -> ScanState
    decreases l.len(),
{
    if l.len() == 0 {
        st
    } else {
        match scan_step(scan_list(st, l.drop_last(), strip), l.last().0, l.last().1, strip) {
            ScanStep::Next(st2) => st2,
            ScanStep::Stop(_) => scan_list(st, l.drop_last(), strip),
        }
    }
}

/// Whether every chunk of a list lets the reading go on, each has a
/// four-byte name other than IEND, and data that fits a chunk.
pub open spec fn list_goes_on(st: ScanState, l: Seq<(Seq<u8>, Seq<u8>)>, strip: StripChunks) -> bool
    decreases l.len(),
{
    if l.len() == 0 {
        true
    } else {
        &&& list_goes_on(st, l.drop_last(), strip)
        &&& l.last().0.len() == 4
        &&& l.last().0 != name_iend()
        &&& l.last().1.len() <= u32::MAX
        &&& scan_step(scan_list(st, l.drop_last(), strip), l.last().0, l.last().1, strip) is Next
    }
}

proof fn lemma_blocks_append(a: Seq<(Seq<u8>, Seq<u8>)>, b: Seq<(Seq<u8>, Seq<u8>)>)
    ensures
        blocks(a + b) == blocks(a) + blocks(b),
    decreases b.len(),
{
    if b.len() == 0 {
        assert(a + b =~= a);
        assert(blocks(b) =~= Seq::<u8>::empty());
        assert(blocks(a) + blocks(b) =~= blocks(a));
    } else {
        lemma_blocks_append(a, b.drop_last());
        assert((a + b).drop_last() =~= a + b.drop_last());
        assert((a + b).last() == b.last());
        assert(blocks(a + b) =~= blocks(a) + blocks(b));
    }
}

/// Reading a chunk that lets the reading go on continues after it with the
/// state it leaves.
proof fn lemma_scan_one(bytes: Seq<u8>, off: int, fix_errors: bool, strip: StripChunks, st: ScanState, name: Seq<u8>, data: Seq<u8>, next: int)
    requires
        spec_parse_chunk(bytes, off, fix_errors) == ChunkParse::Found(name, data, next),
        off < next <= bytes.len(),
        scan_step(st, name, data, strip) is Next,
    ensures
        scan_chunks(bytes, off, fix_errors, strip, st) == scan_chunks(bytes, next, fix_errors, strip, scan_step(st, name, data, strip)->Next_0),
{
    lemma_scan_chunks_unfold(bytes, off, fix_errors, strip, st);
}

/// Reading the blocks of a list of chunks that each let the reading go on
/// gathers what the list holds, and continues right after the blocks.
proof fn lemma_block_len(name: Seq<u8>, data: Seq<u8>)
    ensures
        block_bytes(name, data).len() == 8 + name.len() + data.len(),
{
}

proof fn lemma_concat3(a: Seq<u8>, x: Seq<u8>, y: Seq<u8>, b: Seq<u8>)
    ensures
        a + (x + y) + b == a + x + (y + b),
        a + (x + y) + b == (a + x) + y + b,
{
    assert(a + (x + y) + b =~= a + x + (y + b));
    assert(a + (x + y) + b =~= (a + x) + y + b);
}

/// Reading the blocks of a list of chunks that each let the reading go on
/// gathers what the list holds, and continues right after the blocks.
#[verifier::spinoff_prover]
#[verifier::rlimit(100)]
proof fn lemma_scan_blocks(
    a: Seq<u8>,
    l: Seq<(Seq<u8>, Seq<u8>)>,
    b: Seq<u8>,
    fix_errors: bool,
    strip: StripChunks,
    st: ScanState,
)
    requires
        list_goes_on(st, l, strip),
    ensures
        scan_chunks(a + blocks(l) + b, a.len() as int, fix_errors, strip, st) == scan_chunks(
            a + blocks(l) + b,
            (a.len() + blocks(l).len()) as int,
            fix_errors,
            strip,
            scan_list(st, l, strip),
        ),
    decreases l.len(),
{
    if l.len() == 0 {
        assert(blocks(l) =~= Seq::<u8>::empty());
    } else {
        let l0 = l.drop_last();
        let c = l.last();
        let blk = block_bytes(c.0, c.1);
        lemma_block_len(c.0, c.1);
        let b2 = blk + b;
        let x = blocks(l0);
        assert(blocks(l) == x + blk);
        lemma_concat3(a, x, blk, b);
        let bytes = a + blocks(l) + b;
        assert(bytes == a + x + b2);
        lemma_scan_blocks(a, l0, b2, fix_errors, strip, st);
        let before = a + x;
        assert(bytes == before + blk + b);
        lemma_chunk_roundtrip(before, c.0, c.1, b, fix_errors);
        let off = before.len() as int;
        let st0 = scan_list(st, l0, strip);
        assert(list_goes_on(st, l0, strip));
        assert(scan_step(st0, c.0, c.1, strip) is Next);
        lemma_scan_one(bytes, off, fix_errors, strip, st0, c.0, c.1, off + 12 + c.1.len());
        assert(scan_list(st, l, strip) == scan_step(st0, c.0, c.1, strip)->Next_0);
    }
}

proof fn lemma_scan_list_append(st: ScanState, a: Seq<(Seq<u8>, Seq<u8>)>, b: Seq<(Seq<u8>, Seq<u8>)>, strip: StripChunks)
    requires
        list_goes_on(st, a, strip),
        list_goes_on(scan_list(st, a, strip), b, strip),
    ensures
        list_goes_on(st, a + b, strip),
        scan_list(st, a + b, strip) == scan_list(scan_list(st, a, strip), b, strip),
    decreases b.len(),
{
    if b.len() == 0 {
        assert(a + b =~= a);
    } else {
        lemma_scan_list_append(st, a, b.drop_last(), strip);
        assert((a + b).drop_last() =~= a + b.drop_last());
        assert((a + b).last() == b.last());
    }
}

/// Whether a chunk name is one that reading stores as it is: not a key
/// chunk, not IDAT or IEND, and none of the chunks that reading treats
/// specially.
pub open spec fn plain_name(name: Seq<u8>) -> bool {
    &&& name.len() == 4
    &&& name != name_idat()
    &&& name != name_ihdr()
    &&& name != name_plte()
    &&& name != name_trns()
    &&& name != name_iend()
    &&& name != name_cabx()
    &&& name != name_idot()
    &&& name != name_fctl()
    &&& name != name_fdat()
}

/// Reading plain chunks, all kept, stores them in order.
proof fn lemma_scan_plain(st: ScanState, l: Seq<(Seq<u8>, Seq<u8>)>)
    requires
        forall|i: int| 0 <= i < l.len() ==> plain_name((#[trigger] l[i]).0) && l[i].1.len() <= u32::MAX,
    ensures
        list_goes_on(st, l, StripChunks::KeepAll),
        scan_list(st, l, StripChunks::KeepAll) == (ScanState { aux: st.aux + l, ..st }),
    decreases l.len(),
{
    if l.len() == 0 {
        assert(st.aux + l =~= st.aux);
    } else {
        lemma_scan_plain(st, l.drop_last());
        let st0 = scan_list(st, l.drop_last(), StripChunks::KeepAll);
        assert(plain_name(l.last().0));
        lemma_scan_step_unfold(st0, l.last().0, l.last().1, StripChunks::KeepAll);
        assert(st.aux + l.drop_last() + seq![l.last()] =~= st.aux + l);
        assert(st0.aux.push(l.last()) =~= st.aux + l);
    }
}

/// The chunks of a list without the IDAT markers are plain, when all but
/// the markers are.
proof fn lemma_non_idat_plain(l: Seq<(Seq<u8>, Seq<u8>)>)
    requires
        forall|i: int| 0 <= i < l.len() ==> ((#[trigger] l[i]).0 == name_idat() || plain_name(l[i].0)) && l[i].1.len() <= u32::MAX,
    ensures
        forall|i: int| 0 <= i < non_idat(l).len() ==> plain_name((#[trigger] non_idat(l)[i]).0) && non_idat(l)[i].1.len() <= u32::MAX,
    decreases l.len(),
{
    if l.len() > 0 {
        lemma_non_idat_plain(l.drop_last());
        let r = non_idat(l);
        let r0 = non_idat(l.drop_last());
        assert forall|i: int| 0 <= i < r.len() implies plain_name((#[trigger] r[i]).0) && r[i].1.len() <= u32::MAX by {
            if i < r0.len() {
                assert(r[i] == r0[i]);
            } else {
                assert(r[i] == l.last());
            }
        }
    }
}

/// The chunks of a list with late (or not late) names are among the chunks
/// of the list.
proof fn lemma_late_plain(l: Seq<(Seq<u8>, Seq<u8>)>, late: bool)
    requires
        forall|i: int| 0 <= i < l.len() ==> plain_name((#[trigger] l[i]).0) && l[i].1.len() <= u32::MAX,
    ensures
        forall|i: int| 0 <= i < late_chunks(l, late).len() ==> plain_name((#[trigger] late_chunks(l, late)[i]).0)
            && late_chunks(l, late)[i].1.len() <= u32::MAX,
    decreases l.len(),
{
    if l.len() > 0 {
        lemma_late_plain(l.drop_last(), late);
        let r = late_chunks(l, late);
        let r0 = late_chunks(l.drop_last(), late);
        assert forall|i: int| 0 <= i < r.len() implies plain_name((#[trigger] r[i]).0) && r[i].1.len() <= u32::MAX by {
            if i < r0.len() {
                assert(r[i] == r0[i]);
            } else {
                assert(r[i] == l.last());
            }
        }
    }
}

/// The fcTL and fdAT chunks of the frames, numbered from `seq`.
pub open spec fn frame_list(frames: Seq<Frame>, seq: int) -> Seq<(Seq<u8>, Seq<u8>)>
    decreases frames.len(),
{
    if frames.len() == 0 {
        Seq::empty()
    } else {
        let n = seq + 2 * (frames.len() - 1);
        frame_list(frames.drop_last(), seq) + seq![
            (name_fctl(), fctl_bytes(frames.last(), n as u32)),
            (name_fdat(), be_bytes_u32((n + 1) as u32) + frames.last().data@),
        ]
    }
}

proof fn lemma_blocks_single(c: (Seq<u8>, Seq<u8>))
    ensures
        blocks(seq![c]) == block_bytes(c.0, c.1),
{
    assert(seq![c].drop_last() =~= Seq::<(Seq<u8>, Seq<u8>)>::empty());
    assert(blocks(Seq::<(Seq<u8>, Seq<u8>)>::empty()) =~= Seq::<u8>::empty());
    assert(blocks(seq![c]) =~= block_bytes(c.0, c.1));
}

proof fn lemma_blocks_pair(c: (Seq<u8>, Seq<u8>), e: (Seq<u8>, Seq<u8>))
    ensures
        blocks(seq![c, e]) == block_bytes(c.0, c.1) + block_bytes(e.0, e.1),
{
    lemma_blocks_append(seq![c], seq![e]);
    assert(seq![c] + seq![e] =~= seq![c, e]);
    lemma_blocks_single(c);
    lemma_blocks_single(e);
}

proof fn lemma_frame_blocks(frames: Seq<Frame>, seq: int)
    ensures
        frame_blocks(frames, seq) == blocks(frame_list(frames, seq)),
    decreases frames.len(),
{
    if frames.len() > 0 {
        lemma_frame_blocks(frames.drop_last(), seq);
        let n = seq + 2 * (frames.len() - 1);
        let c = (name_fctl(), fctl_bytes(frames.last(), n as u32));
        let e = (name_fdat(), be_bytes_u32((n + 1) as u32) + frames.last().data@);
        lemma_blocks_append(frame_list(frames.drop_last(), seq), seq![c, e]);
        lemma_blocks_pair(c, e);
        assert(frame_blocks(frames, seq) =~= blocks(frame_list(frames.drop_last(), seq)) + (block_bytes(c.0, c.1)
            + block_bytes(e.0, e.1)));
    }
}

/// The frames as reading gathers them from the chunks of `frame_list`.
pub open spec fn gathered_frames(frames: Seq<Frame>, seq: int) -> Seq<(Seq<u8>, Seq<u8>)> {
    Seq::new(frames.len(), |i: int| (fctl_bytes(frames[i], (seq + 2 * i) as u32), frames[i].data@))
}

proof fn lemma_be_u32_prefix(x: u32, rest: Seq<u8>)
    ensures
        be_u32(be_bytes_u32(x) + rest, 0) == x,
        (be_bytes_u32(x) + rest).skip(4) == rest,
{
    crate::headers::lemma_be_u32_roundtrip(x);
    assert((be_bytes_u32(x) + rest).skip(4) =~= rest);
}

proof fn lemma_step_fctl(st: ScanState, f: Frame, n: u32)
    requires
        st.idat.len() > 0,
        st.seq == n,
    ensures
        fctl_bytes(f, n).len() == 26,
        scan_step(st, name_fctl(), fctl_bytes(f, n), StripChunks::KeepAll) == ScanStep::Next(
            ScanState { frames: st.frames.push((fctl_bytes(f, n), Seq::empty())), seq: st.seq + 1, ..st },
        ),
{
    crate::apng::lemma_fctl_roundtrip(f, n);
    lemma_scan_step_unfold(st, name_fctl(), fctl_bytes(f, n), StripChunks::KeepAll);
}

proof fn lemma_step_fdat(st: ScanState, n: u32, data: Seq<u8>)
    requires
        st.frames.len() > 0,
        st.frames.last().1.len() == 0,
        st.seq == n,
    ensures
        scan_step(st, name_fdat(), be_bytes_u32(n) + data, StripChunks::KeepAll) == ScanStep::Next(
            ScanState { frames: st.frames.drop_last().push((st.frames.last().0, data)), seq: st.seq + 1, ..st },
        ),
{
    lemma_be_u32_prefix(n, data);
    lemma_scan_step_unfold(st, name_fdat(), be_bytes_u32(n) + data, StripChunks::KeepAll);
    assert(st.frames.last().1 + (be_bytes_u32(n) + data).skip(4) =~= data);
}

proof fn lemma_scan_pair(st: ScanState, c: (Seq<u8>, Seq<u8>), e: (Seq<u8>, Seq<u8>), strip: StripChunks)
    requires
        c.0.len() == 4,
        e.0.len() == 4,
        c.0 != name_iend(),
        e.0 != name_iend(),
        c.1.len() <= u32::MAX,
        e.1.len() <= u32::MAX,
        scan_step(st, c.0, c.1, strip) is Next,
        scan_step(scan_step(st, c.0, c.1, strip)->Next_0, e.0, e.1, strip) is Next,
    ensures
        list_goes_on(st, seq![c, e], strip),
        scan_list(st, seq![c, e], strip) == scan_step(scan_step(st, c.0, c.1, strip)->Next_0, e.0, e.1, strip)->Next_0,
{
    reveal_with_fuel(scan_list, 3);
    reveal_with_fuel(list_goes_on, 3);
    assert(seq![c, e].drop_last() =~= seq![c]);
    assert(seq![c].drop_last() =~= Seq::<(Seq<u8>, Seq<u8>)>::empty());
    assert(seq![c, e].last() == e);
    assert(seq![c].last() == c);
}

/// Reading the chunks of the frames, after the image data, gathers the
/// frames with their data.
#[verifier::spinoff_prover]
proof fn lemma_scan_frames(st: ScanState, frames: Seq<Frame>, seq: int)
    requires
        st.idat.len() > 0,
        st.seq == seq,
        0 <= seq,
        seq + 2 * frames.len() <= u32::MAX,
        forall|i: int| 0 <= i < frames.len() ==> (#[trigger] frames[i]).data@.len() + 4 <= u32::MAX,
    ensures
        list_goes_on(st, frame_list(frames, seq), StripChunks::KeepAll),
        scan_list(st, frame_list(frames, seq), StripChunks::KeepAll) == (ScanState {
            frames: st.frames + gathered_frames(frames, seq),
            seq: seq + 2 * frames.len(),
            ..st
        }),
    decreases frames.len(),
{
    let strip = StripChunks::KeepAll;
    if frames.len() == 0 {
        assert(st.frames + gathered_frames(frames, seq) =~= st.frames);
    } else {
        let f0 = frames.drop_last();
        assert forall|i: int| 0 <= i < f0.len() implies (#[trigger] f0[i]).data@.len() + 4 <= u32::MAX by {
            assert(f0[i] == frames[i]);
        }
        lemma_scan_frames(st, f0, seq);
        let st0 = scan_list(st, frame_list(f0, seq), strip);
        let f = frames.last();
        let n = seq + 2 * (frames.len() - 1);
        let c = (name_fctl(), fctl_bytes(f, n as u32));
        let e = (name_fdat(), be_bytes_u32((n + 1) as u32) + f.data@);
        lemma_step_fctl(st0, f, n as u32);
        let st1 = ScanState { frames: st0.frames.push((c.1, Seq::empty())), seq: st0.seq + 1, ..st0 };
        lemma_step_fdat(st1, (n + 1) as u32, f.data@);
        let st2 = ScanState { frames: st1.frames.drop_last().push((c.1, f.data@)), seq: st1.seq + 1, ..st1 };
        lemma_scan_pair(st0, c, e, strip);
        lemma_scan_list_append(st, frame_list(f0, seq), seq![c, e], strip);
        assert(st2.frames =~= st.frames + gathered_frames(frames, seq)) by {
            assert(gathered_frames(frames, seq) =~= gathered_frames(f0, seq).push((c.1, f.data@)));
        }
    }
}

/// The PLTE and tRNS chunks that a color type needs, as a list.
pub open spec fn key_list(ct: ColorType) -> Seq<(Seq<u8>, Seq<u8>)> {
    match ct {
        ColorType::Indexed { palette } => seq![(name_plte(), palette_rgb(palette@))] + (if trns_len(palette@) > 0 {
            seq![(name_trns(), palette_alpha(palette@).take(trns_len(palette@)))]
        } else {
            Seq::empty()
        }),
        ColorType::Grayscale { transparent_shade: Some(t) } => seq![(name_trns(), be_bytes_u16(t))],
        ColorType::RGB { transparent_color: Some(c) } => seq![
            (name_trns(), be_bytes_u16(c.r) + be_bytes_u16(c.g) + be_bytes_u16(c.b)),
        ],
        _ => Seq::empty(),
    }
}

/// The PLTE chunk that reading back finds for a color type.
pub open spec fn read_plte(ct: ColorType) -> Option<Seq<u8>> {
    match ct {
        ColorType::Indexed { palette } => Some(palette_rgb(palette@)),
        _ => None,
    }
}

/// The tRNS chunk that reading back finds for a color type.
pub open spec fn read_trns(ct: ColorType) -> Option<Seq<u8>> {
    match ct {
        ColorType::Indexed { palette } => if trns_len(palette@) > 0 {
            Some(palette_alpha(palette@).take(trns_len(palette@)))
        } else {
            None
        },
        ColorType::Grayscale { transparent_shade: Some(t) } => Some(be_bytes_u16(t)),
        ColorType::RGB { transparent_color: Some(c) } => Some(be_bytes_u16(c.r) + be_bytes_u16(c.g) + be_bytes_u16(c.b)),
        _ => None,
    }
}

proof fn lemma_palette_rgb_len(p: Seq<Rgba8>)
    ensures
        palette_rgb(p).len() == 3 * p.len(),
    decreases p.len(),
{
    if p.len() > 0 {
        lemma_palette_rgb_len(p.drop_last());
    }
}

proof fn lemma_scan_single(st: ScanState, c: (Seq<u8>, Seq<u8>), strip: StripChunks)
    requires
        c.0.len() == 4,
        c.0 != name_iend(),
        c.1.len() <= u32::MAX,
        scan_step(st, c.0, c.1, strip) is Next,
    ensures
        list_goes_on(st, seq![c], strip),
        scan_list(st, seq![c], strip) == scan_step(st, c.0, c.1, strip)->Next_0,
{
    reveal_with_fuel(scan_list, 2);
    reveal_with_fuel(list_goes_on, 2);
    assert(seq![c].drop_last() =~= Seq::<(Seq<u8>, Seq<u8>)>::empty());
    assert(seq![c].last() == c);
}

/// Reading the key chunks of a color type finds its PLTE and tRNS data.
proof fn lemma_scan_key(st: ScanState, ct: ColorType)
    requires
        ct matches ColorType::Indexed { palette } ==> 3 * palette@.len() <= u32::MAX,
    ensures
        list_goes_on(st, key_list(ct), StripChunks::KeepAll),
        scan_list(st, key_list(ct), StripChunks::KeepAll) == (ScanState {
            plte: match read_plte(ct) {
                Some(p) => Some(p),
                None => st.plte,
            },
            trns: match read_trns(ct) {
                Some(t) => Some(t),
                None => st.trns,
            },
            ..st
        }),
{
    let strip = StripChunks::KeepAll;
    match ct {
        ColorType::Indexed { palette } => {
            let c = (name_plte(), palette_rgb(palette@));
            lemma_palette_rgb_len(palette@);
            lemma_scan_step_unfold(st, c.0, c.1, strip);
            lemma_scan_single(st, c, strip);
            let st1 = ScanState { plte: Some(c.1), ..st };
            if trns_len(palette@) > 0 {
                crate::png::lemma_trns_len(palette@);
                let e = (name_trns(), palette_alpha(palette@).take(trns_len(palette@)));
                lemma_scan_step_unfold(st1, e.0, e.1, strip);
                lemma_scan_single(st1, e, strip);
                lemma_scan_list_append(st, seq![c], seq![e], strip);
                assert(seq![c] + seq![e] =~= key_list(ct));
            } else {
                assert(seq![c] + Seq::<(Seq<u8>, Seq<u8>)>::empty() =~= key_list(ct));
            }
        },
        ColorType::Grayscale { transparent_shade: Some(t) } => {
            let c = (name_trns(), be_bytes_u16(t));
            lemma_scan_step_unfold(st, c.0, c.1, strip);
            lemma_scan_single(st, c, strip);
        },
        ColorType::RGB { transparent_color: Some(col) } => {
            let c = (name_trns(), be_bytes_u16(col.r) + be_bytes_u16(col.g) + be_bytes_u16(col.b));
            lemma_scan_step_unfold(st, c.0, c.1, strip);
            lemma_scan_single(st, c, strip);
        },
        _ => {
            assert(key_list(ct) =~= Seq::<(Seq<u8>, Seq<u8>)>::empty());
        },
    }
}

proof fn lemma_key_blocks(ct: ColorType)
    ensures
        key_blocks(ct) == blocks(key_list(ct)),
{
    match ct {
        ColorType::Indexed { palette } => {
            let c = (name_plte(), palette_rgb(palette@));
            lemma_blocks_single(c);
            if trns_len(palette@) > 0 {
                let e = (name_trns(), palette_alpha(palette@).take(trns_len(palette@)));
                lemma_blocks_single(e);
                lemma_blocks_append(seq![c], seq![e]);
                assert(seq![c] + seq![e] =~= key_list(ct));
            } else {
                assert(seq![c] + Seq::<(Seq<u8>, Seq<u8>)>::empty() =~= key_list(ct));
                assert(key_blocks(ct) =~= block_bytes(c.0, c.1));
            }
        },
        ColorType::Grayscale { transparent_shade: Some(t) } => {
            lemma_blocks_single((name_trns(), be_bytes_u16(t)));
        },
        ColorType::RGB { transparent_color: Some(col) } => {
            lemma_blocks_single((name_trns(), be_bytes_u16(col.r) + be_bytes_u16(col.g) + be_bytes_u16(col.b)));
        },
        _ => {
            assert(key_list(ct) =~= Seq::<(Seq<u8>, Seq<u8>)>::empty());
            assert(blocks(key_list(ct)) =~= Seq::<u8>::empty());
        },
    }
}

proof fn lemma_parse_iend(before: Seq<u8>, fix_errors: bool)
    ensures
        spec_parse_chunk(before + block_bytes(name_iend(), Seq::empty()), before.len() as int, fix_errors) is End,
{
    let bytes = before + block_bytes(name_iend(), Seq::empty());
    let off = before.len() as int;
    crate::headers::lemma_be_u32_roundtrip(0);
    assert(bytes.subrange(off, off + 4) =~= be_bytes_u32(0));
    assert(be_u32(bytes, off) == be_u32(be_bytes_u32(0), 0));
    assert(bytes.subrange(off + 4, off + 8) =~= name_iend());
    assert(name_iend() == crate::headers::iend_name());
}

proof fn lemma_before_idat(s: Seq<(Seq<u8>, Seq<u8>)>, j: int)
    requires
        0 <= j <= s.len(),
    ensures
        forall|i: int| j <= i < idat_from(s, j) ==> (#[trigger] s[i]).0 != name_idat(),
    decreases s.len() - j,
{
    if j < s.len() && s[j].0 != name_idat() {
        lemma_before_idat(s, j + 1);
    }
}

proof fn lemma_count_fctl_zero(l: Seq<(Seq<u8>, Seq<u8>)>)
    requires
        forall|i: int| 0 <= i < l.len() ==> plain_name((#[trigger] l[i]).0),
    ensures
        count_fctl(l) == 0,
    decreases l.len(),
{
    if l.len() > 0 {
        assert forall|i: int| 0 <= i < l.drop_last().len() implies plain_name((#[trigger] l.drop_last()[i]).0) by {
            assert(l.drop_last()[i] == l[i]);
        }
        lemma_count_fctl_zero(l.drop_last());
        assert(plain_name(l.last().0));
    }
}

impl PngData {
    /// Whether every stored chunk is either a marker of where the image data
    /// stands or a chunk that reading stores as it is.
    pub open spec fn spec_plain_aux(&self) -> bool {
        forall|i: int|
            0 <= i < self.aux_chunks@.len() ==> (#[trigger] self.aux_chunks@[i]).name@ == name_idat() || plain_name(
                self.aux_chunks@[i].name@,
            )
    }

    /// What reading back the stream of `output` gathers: the image data, the
    /// header written, the PLTE and tRNS data of the color type, the stored
    /// chunks (those before the image data that have to follow PLTE moved
    /// after the others), and the frames.
    pub open spec fn spec_read_back(&self) -> ScanState {
        let pre = self.spec_aux_pre();
        ScanState {
            idat: self.idat_data@,
            ihdr: Some(ihdr_bytes(self.raw.ihdr)),
            plte: read_plte(self.raw.ihdr.color_type),
            trns: read_trns(self.raw.ihdr.color_type),
            aux: late_chunks(pre, false) + late_chunks(pre, true) + seq![(name_idat(), Seq::<u8>::empty())]
                + self.spec_aux_post(),
            frames: gathered_frames(self.frames@, 0),
            seq: 2 * self.frames@.len() as int,
        }
    }
}

/// The stored chunks of a plain image are plain, but for the markers.
proof fn lemma_plain_parts(d: PngData)
    requires
        d.spec_writable(),
        d.spec_plain_aux(),
    ensures
        forall|i: int| 0 <= i < late_chunks(d.spec_aux_pre(), false).len() ==> plain_name(
            (#[trigger] late_chunks(d.spec_aux_pre(), false)[i]).0,
        ) && late_chunks(d.spec_aux_pre(), false)[i].1.len() <= u32::MAX,
        forall|i: int| 0 <= i < late_chunks(d.spec_aux_pre(), true).len() ==> plain_name(
            (#[trigger] late_chunks(d.spec_aux_pre(), true)[i]).0,
        ) && late_chunks(d.spec_aux_pre(), true)[i].1.len() <= u32::MAX,
        forall|i: int| 0 <= i < d.spec_aux_post().len() ==> plain_name((#[trigger] d.spec_aux_post()[i]).0)
            && d.spec_aux_post()[i].1.len() <= u32::MAX,
        count_fctl(late_chunks(d.spec_aux_pre(), true)) == 0,
{
    let aux = chunks_view(d.aux_chunks@);
    let split = first_idat(aux);
    lemma_idat_from_range(aux, 0);
    let pre = aux.take(split);
    assert forall|i: int| 0 <= i < aux.len() implies ((#[trigger] aux[i]).0 == name_idat() || plain_name(aux[i].0))
        && aux[i].1.len() <= u32::MAX by {
        assert(aux[i] == chunk_view(d.aux_chunks@[i]));
    }
    lemma_before_idat(aux, 0);
    assert forall|i: int| 0 <= i < pre.len() implies plain_name((#[trigger] pre[i]).0) && pre[i].1.len() <= u32::MAX by {
        assert(pre[i] == aux[i]);
    }
    lemma_late_plain(pre, false);
    lemma_late_plain(pre, true);
    let rest = aux.skip(split);
    assert forall|i: int| 0 <= i < rest.len() implies ((#[trigger] rest[i]).0 == name_idat() || plain_name(rest[i].0))
        && rest[i].1.len() <= u32::MAX by {
        assert(rest[i] == aux[split + i]);
    }
    lemma_non_idat_plain(rest);
    lemma_count_fctl_zero(late_chunks(pre, true));
}

/// Reading the chunks that `output` writes, one after the other, gathers
/// what `spec_read_back` says.
#[verifier::spinoff_prover]
proof fn lemma_output_list_scan(d: PngData)
    requires
        d.spec_writable(),
        d.spec_plain_aux(),
        d.idat_data@.len() > 0,
    ensures
        list_goes_on(scan_start(), d.spec_output_list(), StripChunks::KeepAll),
        scan_list(scan_start(), d.spec_output_list(), StripChunks::KeepAll) == d.spec_read_back(),
{
    let strip = StripChunks::KeepAll;
    lemma_plain_parts(d);
    let pre = d.spec_aux_pre();
    let early = late_chunks(pre, false);
    let late = late_chunks(pre, true);
    let post = d.spec_aux_post();
    let ct = d.raw.ihdr.color_type;
    let c1 = (name_ihdr(), ihdr_bytes(d.raw.ihdr));
    let c5 = (name_idat(), d.idat_data@);
    let fl = frame_list(d.frames@, count_fctl(late));
    let keys = key_list(ct);
    let st0 = scan_start();
    lemma_scan_step_unfold(st0, c1.0, c1.1, strip);
    lemma_scan_single(st0, c1, strip);
    let st1 = ScanState { ihdr: Some(c1.1), ..st0 };
    lemma_scan_plain(st1, early);
    let st2 = ScanState { aux: st1.aux + early, ..st1 };
    lemma_scan_key(st2, ct);
    let st3 = scan_list(st2, keys, strip);
    lemma_scan_plain(st3, late);
    let st4 = ScanState { aux: st3.aux + late, ..st3 };
    lemma_scan_step_unfold(st4, c5.0, c5.1, strip);
    lemma_scan_single(st4, c5, strip);
    let st5 = ScanState { aux: st4.aux.push((c5.0, Seq::empty())), idat: st4.idat + c5.1, ..st4 };
    assert(st5.idat =~= d.idat_data@);
    lemma_scan_frames(st5, d.frames@, 0);
    let st6 = scan_list(st5, fl, strip);
    lemma_scan_plain(st6, post);
    let st7 = ScanState { aux: st6.aux + post, ..st6 };
    let l2 = seq![c1] + early;
    let l3 = l2 + keys;
    let l4 = l3 + late;
    let l5 = l4 + seq![c5];
    let l6 = l5 + fl;
    lemma_scan_list_append(st0, seq![c1], early, strip);
    lemma_scan_list_append(st0, l2, keys, strip);
    lemma_scan_list_append(st0, l3, late, strip);
    lemma_scan_list_append(st0, l4, seq![c5], strip);
    lemma_scan_list_append(st0, l5, fl, strip);
    lemma_scan_list_append(st0, l6, post, strip);
    assert(st7.aux =~= d.spec_read_back().aux);
    assert(st7.frames =~= d.spec_read_back().frames);
}

proof fn lemma_late_chunks_kind(s: Seq<(Seq<u8>, Seq<u8>)>, late: bool)
    ensures
        forall|i: int| 0 <= i < late_chunks(s, late).len() ==> is_late(#[trigger] late_chunks(s, late)[i].0) == late,
    decreases s.len(),
{
    if s.len() > 0 {
        lemma_late_chunks_kind(s.drop_last(), late);
        let t = late_chunks(s.drop_last(), late);
        if is_late(s.last().0) == late {
            assert forall|i: int| 0 <= i < late_chunks(s, late).len() implies is_late(
                #[trigger] late_chunks(s, late)[i].0,
            ) == late by {
                if i < t.len() {
                    assert(late_chunks(s, late)[i] == t[i]);
                }
            }
        }
    }
}

proof fn lemma_late_chunks_member(s: Seq<(Seq<u8>, Seq<u8>)>, late: bool)
    ensures
        forall|i: int|
            0 <= i < late_chunks(s, late).len() ==> exists|k: int| 0 <= k < s.len() && s[k] == #[trigger] late_chunks(s, late)[i],
    decreases s.len(),
{
    if s.len() > 0 {
        lemma_late_chunks_member(s.drop_last(), late);
        let t = late_chunks(s.drop_last(), late);
        assert forall|i: int| 0 <= i < late_chunks(s, late).len() implies exists|k: int|
            0 <= k < s.len() && s[k] == #[trigger] late_chunks(s, late)[i] by {
            if i < t.len() {
                assert(late_chunks(s, late)[i] == t[i]);
                let k = choose|k: int| 0 <= k < s.drop_last().len() && s.drop_last()[k] == t[i];
                assert(s[k] == t[i]);
            } else {
                assert(late_chunks(s, late)[i] == s.last());
                assert(s[s.len() - 1] == s.last());
            }
        }
    }
}

/// In the stream that `output` writes for an image with a palette, the PLTE
/// chunk comes before every chunk named bKGD, hIST, tRNS or fcTL (which the
/// PNG format requires to follow it), and before the image data.
pub proof fn lemma_plte_before_late_chunks(d: PngData)
    requires
        d.raw.ihdr.color_type is Indexed,
    ensures
        exists|p: int|
            0 < p < d.spec_output_list().len() && d.spec_output_list()[p].0 == seq![80u8, 76u8, 84u8, 69u8] && (
            forall|i: int|
                0 <= i < p ==> {
                    let name = #[trigger] d.spec_output_list()[i].0;
                    &&& name != seq![98u8, 75u8, 71u8, 68u8]
                    &&& name != seq![104u8, 73u8, 83u8, 84u8]
                    &&& name != seq![116u8, 82u8, 78u8, 83u8]
                    &&& name != seq![102u8, 99u8, 84u8, 76u8]
                    &&& name != seq![73u8, 68u8, 65u8, 84u8]
                }),
{
    let pre = d.spec_aux_pre();
    let lf = late_chunks(pre, false);
    let l = d.spec_output_list();
    let key = key_list(d.raw.ihdr.color_type);
    lemma_late_chunks_kind(pre, false);
    let p: int = 1 + lf.len() as int;
    assert(l[p] == key[0]);
    lemma_idat_from_range(chunks_view(d.aux_chunks@), 0);
    lemma_before_idat(chunks_view(d.aux_chunks@), 0);
    assert forall|i: int| 0 <= i < p implies {
        let name = #[trigger] l[i].0;
        &&& name != seq![98u8, 75u8, 71u8, 68u8]
        &&& name != seq![104u8, 73u8, 83u8, 84u8]
        &&& name != seq![116u8, 82u8, 78u8, 83u8]
        &&& name != seq![102u8, 99u8, 84u8, 76u8]
        &&& name != seq![73u8, 68u8, 65u8, 84u8]
    } by {
        if i == 0 {
            assert(l[0].0 == name_ihdr());
            assert(name_ihdr()[0] != 98u8 && name_ihdr()[0] != 104u8 && name_ihdr()[0] != 116u8 && name_ihdr()[0]
                != 102u8 && name_ihdr()[1] != 68u8);
        } else {
            assert(l[i] == lf[i - 1]);
            assert(!is_late(lf[i - 1].0));
            lemma_late_chunks_member(pre, false);
            let k = choose|k: int| 0 <= k < pre.len() && pre[k] == lf[i - 1];
            assert(pre[k] == chunks_view(d.aux_chunks@)[k]);
        }
    }
}

proof fn lemma_frame_list_len(frames: Seq<Frame>, seq: int)
    ensures
        frame_list(frames, seq).len() == 2 * frames.len(),
    decreases frames.len(),
{
    if frames.len() > 0 {
        lemma_frame_list_len(frames.drop_last(), seq);
    }
}

#[verifier::spinoff_prover]
proof fn lemma_frame_list_at(frames: Seq<Frame>, seq: int, j: int)
    requires
        0 <= j < frames.len(),
    ensures
        frame_list(frames, seq)[2 * j] == (name_fctl(), fctl_bytes(frames[j], (seq + 2 * j) as u32)),
        frame_list(frames, seq)[2 * j + 1] == (name_fdat(), be_bytes_u32((seq + 2 * j + 1) as u32)
            + frames[j].data@),
    decreases frames.len(),
{
    let k = frames.len() - 1;
    let n = seq + 2 * k;
    let fl0 = frame_list(frames.drop_last(), seq);
    let c = (name_fctl(), fctl_bytes(frames.last(), n as u32));
    let e = (name_fdat(), be_bytes_u32((n + 1) as u32) + frames.last().data@);
    assert(frame_list(frames, seq) == fl0 + seq![c, e]);
    lemma_frame_list_len(frames.drop_last(), seq);
    if j < k {
        lemma_frame_list_at(frames.drop_last(), seq, j);
        assert(frames.drop_last()[j] == frames[j]);
        assert((fl0 + seq![c, e])[2 * j] == fl0[2 * j]);
        assert((fl0 + seq![c, e])[2 * j + 1] == fl0[2 * j + 1]);
    } else {
        assert((fl0 + seq![c, e])[2 * j] == c);
        assert((fl0 + seq![c, e])[2 * j + 1] == e);
    }
}

proof fn lemma_count_fctl_late(s: Seq<(Seq<u8>, Seq<u8>)>)
    ensures
        count_fctl(late_chunks(s, true)) == count_fctl(s),
    decreases s.len(),
{
    if s.len() > 0 {
        lemma_count_fctl_late(s.drop_last());
        if is_late(s.last().0) {
            assert(late_chunks(s, true).drop_last() == late_chunks(s.drop_last(), true));
        } else {
            assert(s.last().0 != name_fctl());
        }
    }
}

/// After the IDAT chunk, `output` writes frame `j` as an fcTL chunk with
/// sequence number `k + 2j` followed by an fdAT chunk with sequence number
/// `k + 2j + 1`, where `k` is the number of fcTL chunks stored before the
/// image data; the frames come before the chunks stored after it.
pub proof fn lemma_frame_numbering(d: PngData, j: int)
    requires
        0 <= j < d.frames@.len(),
    ensures
        ({
            let pre = d.spec_aux_pre();
            let k = count_fctl(pre);
            let at = 2 + late_chunks(pre, false).len() + key_list(d.raw.ihdr.color_type).len() + late_chunks(
                pre,
                true,
            ).len();
            let l = d.spec_output_list();
            &&& l[at - 1] == (name_idat(), d.idat_data@)
            &&& l[at + 2 * j] == (name_fctl(), fctl_bytes(d.frames@[j], (k + 2 * j) as u32))
            &&& l[at + 2 * j + 1] == (name_fdat(), be_bytes_u32((k + 2 * j + 1) as u32) + d.frames@[j].data@)
            &&& l.len() == at + 2 * d.frames@.len() + d.spec_aux_post().len()
        }),
{
    let pre = d.spec_aux_pre();
    let k = count_fctl(late_chunks(pre, true));
    lemma_count_fctl_late(pre);
    lemma_frame_list_len(d.frames@, k);
    lemma_frame_list_at(d.frames@, k, j);
    let a = seq![(name_ihdr(), ihdr_bytes(d.raw.ihdr))] + late_chunks(pre, false) + key_list(d.raw.ihdr.color_type)
        + late_chunks(pre, true) + seq![(name_idat(), d.idat_data@)];
    let f = frame_list(d.frames@, k);
    assert(d.spec_output_list() == a + f + d.spec_aux_post());
    assert((a + f + d.spec_aux_post())[a.len() + 2 * j] == f[2 * j]);
    assert((a + f + d.spec_aux_post())[a.len() + 2 * j + 1] == f[2 * j + 1]);
}

/// The bytes that a list of chunks takes once stored: the data of each chunk
/// with its length, its name and its checksum.
pub open spec fn stored_size(s: Seq<(Seq<u8>, Seq<u8>)>) -> int
    decreases s.len(),
{
    if s.len() == 0 {
        0
    } else {
        stored_size(s.drop_last()) + 8 + s.last().0.len() + s.last().1.len()
    }
}

/// The bytes that the frames take once stored: for each, an fcTL chunk of 26
/// bytes of data and an fdAT chunk of its data after a 4-byte sequence
/// number, each chunk with 12 bytes of length, name and checksum.
pub open spec fn frames_size(frames: Seq<Frame>) -> int
    decreases frames.len(),
{
    if frames.len() == 0 {
        0
    } else {
        frames_size(frames.drop_last()) + 54 + frames.last().data@.len()
    }
}

proof fn lemma_blocks_len(s: Seq<(Seq<u8>, Seq<u8>)>)
    ensures
        blocks(s).len() == stored_size(s),
    decreases s.len(),
{
    if s.len() > 0 {
        lemma_blocks_len(s.drop_last());
    }
}

proof fn lemma_stored_size_append(a: Seq<(Seq<u8>, Seq<u8>)>, b: Seq<(Seq<u8>, Seq<u8>)>)
    ensures
        stored_size(a + b) == stored_size(a) + stored_size(b),
    decreases b.len(),
{
    if b.len() == 0 {
        assert(a + b =~= a);
    } else {
        lemma_stored_size_append(a, b.drop_last());
        assert((a + b).drop_last() =~= a + b.drop_last());
        assert((a + b).last() == b.last());
    }
}

proof fn lemma_stored_size_late(s: Seq<(Seq<u8>, Seq<u8>)>)
    ensures
        stored_size(late_chunks(s, false)) + stored_size(late_chunks(s, true)) == stored_size(s),
    decreases s.len(),
{
    if s.len() > 0 {
        lemma_stored_size_late(s.drop_last());
        if is_late(s.last().0) {
            assert(late_chunks(s, true).drop_last() == late_chunks(s.drop_last(), true));
        } else {
            assert(late_chunks(s, false).drop_last() == late_chunks(s.drop_last(), false));
        }
    }
}

proof fn lemma_non_idat_append(a: Seq<(Seq<u8>, Seq<u8>)>, b: Seq<(Seq<u8>, Seq<u8>)>)
    ensures
        non_idat(a + b) == non_idat(a) + non_idat(b),
    decreases b.len(),
{
    if b.len() == 0 {
        assert(a + b =~= a);
        assert(non_idat(a) + non_idat(b) =~= non_idat(a));
    } else {
        lemma_non_idat_append(a, b.drop_last());
        assert((a + b).drop_last() =~= a + b.drop_last());
        assert((a + b).last() == b.last());
        if b.last().0 == name_idat() {
        } else {
            assert(non_idat(a + b) =~= non_idat(a) + non_idat(b));
        }
    }
}

proof fn lemma_non_idat_none(s: Seq<(Seq<u8>, Seq<u8>)>)
    requires
        forall|i: int| 0 <= i < s.len() ==> (#[trigger] s[i]).0 != name_idat(),
    ensures
        non_idat(s) == s,
    decreases s.len(),
{
    if s.len() > 0 {
        lemma_non_idat_none(s.drop_last());
        assert(s.drop_last().push(s.last()) =~= s);
    }
}

proof fn lemma_fctl_len(f: Frame, n: u32)
    ensures
        fctl_bytes(f, n).len() == 26,
{
}

proof fn lemma_stored_pair(c: (Seq<u8>, Seq<u8>), e: (Seq<u8>, Seq<u8>))
    ensures
        stored_size(seq![c, e]) == 16 + c.0.len() + c.1.len() + e.0.len() + e.1.len(),
{
    assert(seq![c, e].drop_last() =~= seq![c]);
    lemma_stored_single(c);
    assert(seq![c, e].last() == e);
}

proof fn lemma_stored_single(c: (Seq<u8>, Seq<u8>))
    ensures
        stored_size(seq![c]) == 8 + c.0.len() + c.1.len(),
{
    let e = Seq::<(Seq<u8>, Seq<u8>)>::empty();
    assert(seq![c].drop_last() =~= e);
    assert(stored_size(e) == 0);
    assert(seq![c].last() == c);
    assert(stored_size(seq![c]) == stored_size(seq![c].drop_last()) + 8 + c.0.len() + c.1.len());
}

#[verifier::spinoff_prover]
proof fn lemma_frames_size(frames: Seq<Frame>, seq: int)
    ensures
        stored_size(frame_list(frames, seq)) == frames_size(frames),
    decreases frames.len(),
{
    if frames.len() > 0 {
        lemma_frames_size(frames.drop_last(), seq);
        let n = seq + 2 * (frames.len() - 1);
        let c = (name_fctl(), fctl_bytes(frames.last(), n as u32));
        let e = (name_fdat(), be_bytes_u32((n + 1) as u32) + frames.last().data@);
        let fl0 = frame_list(frames.drop_last(), seq);
        assert(frame_list(frames, seq) == fl0 + seq![c, e]);
        lemma_stored_size_append(fl0, seq![c, e]);
        lemma_fctl_len(frames.last(), n as u32);
        lemma_stored_pair(c, e);
    }
}

/// The stream that `output` writes is as long as the signature (8 bytes),
/// the IHDR chunk (25 bytes), the PLTE and tRNS chunks of the color type,
/// every stored chunk but the IDAT markers, the IDAT chunk, the frames and
/// the IEND chunk (12 bytes) together: each stored chunk is written once.
#[verifier::rlimit(40)]
#[verifier::spinoff_prover]
pub proof fn lemma_output_len(d: PngData)
    ensures
        d.spec_output().len() == 8 + 25 + stored_size(key_list(d.raw.ihdr.color_type)) + stored_size(
            non_idat(chunks_view(d.aux_chunks@)),
        ) + 12 + d.idat_data@.len() + frames_size(d.frames@) + 12,
{
    let aux = chunks_view(d.aux_chunks@);
    let f = first_idat(aux);
    let pre = d.spec_aux_pre();
    let post = d.spec_aux_post();
    let ihdr = seq![(name_ihdr(), ihdr_bytes(d.raw.ihdr))];
    let key = key_list(d.raw.ihdr.color_type);
    let idat = seq![(name_idat(), d.idat_data@)];
    let k = count_fctl(late_chunks(pre, true));
    let fl = frame_list(d.frames@, k);
    let lf = late_chunks(pre, false);
    let lt = late_chunks(pre, true);
    let l = d.spec_output_list();
    assert(l == ihdr + lf + key + lt + idat + fl + post);
    lemma_stored_size_append(ihdr + lf + key + lt + idat + fl, post);
    lemma_stored_size_append(ihdr + lf + key + lt + idat, fl);
    lemma_stored_size_append(ihdr + lf + key + lt, idat);
    lemma_stored_size_append(ihdr + lf + key, lt);
    lemma_stored_size_append(ihdr + lf, key);
    lemma_stored_size_append(ihdr, lf);
    lemma_stored_single(ihdr[0]);
    lemma_stored_single(idat[0]);
    assert(ihdr == seq![ihdr[0]]);
    assert(idat == seq![idat[0]]);
    assert(ihdr_bytes(d.raw.ihdr).len() == 13);
    lemma_frames_size(d.frames@, k);
    lemma_stored_size_late(pre);
    lemma_idat_from_range(aux, 0);
    lemma_before_idat(aux, 0);
    assert forall|i: int| 0 <= i < pre.len() implies (#[trigger] pre[i]).0 != name_idat() by {
        assert(pre[i] == aux[i]);
    }
    lemma_non_idat_none(pre);
    assert(aux == pre + aux.skip(f));
    lemma_non_idat_append(pre, aux.skip(f));
    lemma_stored_size_append(pre, post);
    lemma_blocks_len(l);
}

/// A written stream reads back: reading what `output` writes, keeping every
/// chunk, reaches the end of the stream with the image data, the header, the
/// palette and transparency, the stored chunks and the frames of the image.
pub proof fn lemma_output_reads_back(d: PngData, fix_errors: bool)
    requires
        d.spec_writable(),
        d.spec_plain_aux(),
        d.idat_data@.len() > 0,
    ensures
        scan_png(d.spec_output(), fix_errors, StripChunks::KeepAll) == ScanEnd::Done(d.spec_read_back()),
{
    let strip = StripChunks::KeepAll;
    let st0 = scan_start();
    let l = d.spec_output_list();
    lemma_output_list_scan(d);
    let sig = png_signature();
    let iend = block_bytes(name_iend(), Seq::empty());
    let bytes = d.spec_output();
    lemma_scan_blocks(sig, l, iend, fix_errors, strip, st0);
    let off = (sig.len() + blocks(l).len()) as int;
    lemma_parse_iend(sig + blocks(l), fix_errors);
    lemma_scan_chunks_unfold(bytes, off, fix_errors, strip, d.spec_read_back());
    assert(bytes.subrange(0, 8) =~= sig);
}

proof fn lemma_palette_rgb_at(p: Seq<Rgba8>, i: int)
    requires
        0 <= i < p.len(),
    ensures
        palette_rgb(p)[3 * i] == p[i].r,
        palette_rgb(p)[3 * i + 1] == p[i].g,
        palette_rgb(p)[3 * i + 2] == p[i].b,
    decreases p.len(),
{
    lemma_palette_rgb_len(p.drop_last());
    if i < p.len() - 1 {
        lemma_palette_rgb_at(p.drop_last(), i);
    }
}

proof fn lemma_trns_tail(p: Seq<Rgba8>, i: int)
    requires
        trns_len(p) <= i < p.len(),
    ensures
        p[i].a == 255,
    decreases p.len(),
{
    crate::png::lemma_trns_len(p.drop_last());
    if p.last().a == 255 && i < p.len() - 1 {
        lemma_trns_tail(p.drop_last(), i);
    }
}

/// Reading a palette back from the PLTE and tRNS data written for it gives
/// the palette.
proof fn lemma_palette_roundtrip(p: Seq<Rgba8>)
    ensures
        crate::headers::spec_palette(
            palette_rgb(p),
            if trns_len(p) > 0 {
                Some(palette_alpha(p).take(trns_len(p)))
            } else {
                None
            },
        ) == p,
{
    lemma_palette_rgb_len(p);
    crate::png::lemma_trns_len(p);
    let t = if trns_len(p) > 0 {
        Some(palette_alpha(p).take(trns_len(p)))
    } else {
        None
    };
    let q = crate::headers::spec_palette(palette_rgb(p), t);
    assert forall|i: int| 0 <= i < p.len() implies q[i] == p[i] by {
        lemma_palette_rgb_at(p, i);
        if i >= trns_len(p) {
            lemma_trns_tail(p, i);
        }
    }
    assert(q =~= p);
}

/// A header satisfies the reading of the IHDR, PLTE and tRNS chunks written
/// for it, and that reading succeeds.
proof fn lemma_ihdr_own_fields(h: IhdrData)
    requires
        h.spec_valid(),
    ensures
        ihdr_ok(ihdr_bytes(h), read_plte(h.color_type) is Some),
        ihdr_fields(h, ihdr_bytes(h), read_plte(h.color_type), read_trns(h.color_type)),
{
    let b = ihdr_bytes(h);
    crate::headers::lemma_be_u32_roundtrip(h.width);
    crate::headers::lemma_be_u32_roundtrip(h.height);
    assert(be_u32(b, 0) == be_u32(be_bytes_u32(h.width), 0));
    assert(be_u32(b, 4) == be_u32(be_bytes_u32(h.height), 0));
    assert(b[8] == h.bit_depth.spec_bits());
    assert(b[9] == h.color_type.spec_header_code());
    assert(b[12] == (if h.interlaced { 1u8 } else { 0u8 }));
    assert(crate::headers::channels_of_code(b[9]) == h.color_type.spec_channels());
    match h.color_type {
        ColorType::Grayscale { transparent_shade: Some(t) } => {
            crate::headers::lemma_be_u16_roundtrip(t);
        },
        ColorType::RGB { transparent_color: Some(c) } => {
            let t = be_bytes_u16(c.r) + be_bytes_u16(c.g) + be_bytes_u16(c.b);
            crate::headers::lemma_be_u16_roundtrip(c.r);
            crate::headers::lemma_be_u16_roundtrip(c.g);
            crate::headers::lemma_be_u16_roundtrip(c.b);
            assert(crate::headers::be_u16(t, 0) == crate::headers::be_u16(be_bytes_u16(c.r), 0));
            assert(crate::headers::be_u16(t, 2) == crate::headers::be_u16(be_bytes_u16(c.g), 0));
            assert(crate::headers::be_u16(t, 4) == crate::headers::be_u16(be_bytes_u16(c.b), 0));
        },
        ColorType::Indexed { palette } => {
            lemma_palette_roundtrip(palette@);
        },
        _ => {},
    }
}

/// Two headers that satisfy the reading of the same chunks agree in every
/// field, palettes compared by their colors.
proof fn lemma_ihdr_fields_same(x: IhdrData, h: IhdrData, b: Seq<u8>, plte: Option<Seq<u8>>, trns: Option<Seq<u8>>)
    requires
        ihdr_fields(x, b, plte, trns),
        ihdr_fields(h, b, plte, trns),
    ensures
        same_header(x, h),
{
    assert(x.bit_depth == h.bit_depth);
}

/// Whether two headers agree in every field, palettes compared by their
/// colors.
pub open spec fn same_header(x: IhdrData, h: IhdrData) -> bool {
    &&& x.width == h.width
    &&& x.height == h.height
    &&& x.bit_depth == h.bit_depth
    &&& x.interlaced == h.interlaced
    &&& crate::colors::same_color_type(x.color_type, h.color_type)
}

/// Whether two frames agree in every field.
pub open spec fn same_frame(e: Frame, f: Frame) -> bool {
    &&& e.width == f.width
    &&& e.height == f.height
    &&& e.x_offset == f.x_offset
    &&& e.y_offset == f.y_offset
    &&& e.delay_num == f.delay_num
    &&& e.delay_den == f.delay_den
    &&& e.dispose_op == f.dispose_op
    &&& e.blend_op == f.blend_op
    &&& e.data@ == f.data@
}

proof fn lemma_fctl_roundtrip(e: Frame, f: Frame, n: u32)
    requires
        fctl_fields(e, fctl_bytes(f, n)),
    ensures
        e.width == f.width && e.height == f.height && e.x_offset == f.x_offset && e.y_offset == f.y_offset
            && e.delay_num == f.delay_num && e.delay_den == f.delay_den && e.dispose_op == f.dispose_op
            && e.blend_op == f.blend_op,
{
    let b = fctl_bytes(f, n);
    crate::headers::lemma_be_u32_roundtrip(f.width);
    crate::headers::lemma_be_u32_roundtrip(f.height);
    crate::headers::lemma_be_u32_roundtrip(f.x_offset);
    crate::headers::lemma_be_u32_roundtrip(f.y_offset);
    crate::headers::lemma_be_u16_roundtrip(f.delay_num);
    crate::headers::lemma_be_u16_roundtrip(f.delay_den);
    assert(be_u32(b, 4) == be_u32(be_bytes_u32(f.width), 0));
    assert(be_u32(b, 8) == be_u32(be_bytes_u32(f.height), 0));
    assert(be_u32(b, 12) == be_u32(be_bytes_u32(f.x_offset), 0));
    assert(be_u32(b, 16) == be_u32(be_bytes_u32(f.y_offset), 0));
    assert(crate::headers::be_u16(b, 20) == crate::headers::be_u16(be_bytes_u16(f.delay_num), 0));
    assert(crate::headers::be_u16(b, 22) == crate::headers::be_u16(be_bytes_u16(f.delay_den), 0));
    assert(b[24] == f.dispose_op && b[25] == f.blend_op);
}

/// A written stream reads back through `from_slice`: reading what `output`
/// writes, every chunk kept and no size limit, gives the header, the pixels,
/// the image data and the frames of the image, and its stored chunks (those
/// before the image data that have to follow PLTE moved after the others).
/// This holds of an image whose pixels are what its image data decodes to,
/// and whose stored chunks are plain (not image, animation or C2PA chunks).
pub proof fn lemma_output_reads_back_through_from_slice(d: PngData, opts: Options, r: PngResult<PngData>)
    requires
        d.spec_writable(),
        d.spec_plain_aux(),
        d.idat_data@.len() > 0,
        d.raw.wf(),
        spec_zlib_inflate(d.idat_data@) matches Some(v) && v.len() == d.raw.ihdr.spec_raw_data_size()
            && spec_unfilter_image(d.raw.ihdr.spec_layout(), v, d.raw.ihdr.spec_bytes_pp()) == Some(d.raw.data@),
        opts.strip is KeepAll,
        opts.max_decompressed_size is None,
        read_outcome(r, d.spec_output(), opts),
    ensures
        r matches Ok(e) && {
            &&& same_header(e.raw.ihdr, d.raw.ihdr)
            &&& e.raw.data@ == d.raw.data@
            &&& e.idat_data@ == d.idat_data@
            &&& chunks_view(e.aux_chunks@) == d.spec_read_back().aux
            &&& e.frames@.len() == d.frames@.len()
            &&& forall|j: int| 0 <= j < d.frames@.len() ==> same_frame(#[trigger] e.frames@[j], d.frames@[j])
        },
{
    lemma_output_reads_back(d, opts.fix_errors);
    let st = d.spec_read_back();
    let h = ihdr_bytes(d.raw.ihdr);
    lemma_ihdr_own_fields(d.raw.ihdr);
    let v = spec_zlib_inflate(d.idat_data@)->0;
    match r {
        Err(e) => {
            let hd = choose|hd: IhdrData|
                ihdr_fields(hd, h, st.plte, st.trns) && #[trigger] decode_error(
                    e,
                    spec_zlib_inflate(st.idat),
                    ihdr_raw_size(h),
                    hd.spec_layout(),
                    hd.spec_bytes_pp(),
                );
            crate::headers::lemma_fields_determine_layout(hd, d.raw.ihdr, h, st.plte, st.trns);
            assert(false);
        },
        Ok(e) => {
            lemma_ihdr_fields_same(e.raw.ihdr, d.raw.ihdr, h, st.plte, st.trns);
            crate::headers::lemma_fields_determine_layout(e.raw.ihdr, d.raw.ihdr, h, st.plte, st.trns);
            assert forall|j: int| 0 <= j < d.frames@.len() implies same_frame(#[trigger] e.frames@[j], d.frames@[j]) by {
                assert(gathered_frames(d.frames@, 0)[j] == (fctl_bytes(d.frames@[j], (2 * j) as u32), d.frames@[j].data@));
                assert(fctl_fields(e.frames@[j], gathered_frames(d.frames@, 0)[j].0));
                lemma_fctl_roundtrip(e.frames@[j], d.frames@[j], (2 * j) as u32);
            }
        },
    }
}

} // verus!
