use vstd::prelude::*;

verus! {

/// The number of bits in each channel of a pixel
#[derive(Debug, Clone, Copy, PartialEq, Eq, Structural, Hash)]
pub enum BitDepth {
    One,
    Two,
    Four,
    Eight,
    Sixteen,
}

impl BitDepth {
    pub open spec fn spec_bits(self) -> u8 {
        match self {
            BitDepth::One => 1,
            BitDepth::Two => 2,
            BitDepth::Four => 4,
            BitDepth::Eight => 8,
            BitDepth::Sixteen => 16,
        }
    }

    /// The number of bits per channel.
    pub fn as_u8(self) -> (r: u8)
        ensures
            r == self.spec_bits(),
    {
        match self {
            BitDepth::One => 1,
            BitDepth::Two => 2,
            BitDepth::Four => 4,
            BitDepth::Eight => 8,
            BitDepth::Sixteen => 16,
        }
    }

    pub open spec fn spec_from_bits(value: u8) -> Option<BitDepth> {
        if value == 1 {
            Some(BitDepth::One)
        } else if value == 2 {
            Some(BitDepth::Two)
        } else if value == 4 {
            Some(BitDepth::Four)
        } else if value == 8 {
            Some(BitDepth::Eight)
        } else if value == 16 {
            Some(BitDepth::Sixteen)
        } else {
            None
        }
    }

    /// The bit depth with the given number of bits, if it is one of 1, 2, 4, 8, 16.
    pub fn from_u8(value: u8) -> (r: Option<BitDepth>)
        ensures
            r == BitDepth::spec_from_bits(value),
    {
        match value {
            1 => Some(BitDepth::One),
            2 => Some(BitDepth::Two),
            4 => Some(BitDepth::Four),
            8 => Some(BitDepth::Eight),
            16 => Some(BitDepth::Sixteen),
            _ => None,
        }
    }
}

/// A palette entry: 8-bit red, green, blue and alpha.
#[derive(Debug, Clone, Copy, PartialEq, Eq, Structural, Hash)]
pub struct Rgba8 {
    pub r: u8,
    pub g: u8,
    pub b: u8,
    pub a: u8,
}

impl Rgba8 {
    pub fn new(r: u8, g: u8, b: u8, a: u8) -> (c: Rgba8)
        ensures
            c == (Rgba8 { r, g, b, a }),
    {
        Rgba8 { r, g, b, a }
    }

    /// The colour packed into one integer, red in the highest byte.
    pub open spec fn spec_packed(self) -> u32 {
        (self.r as u32) << 24u32 | (self.g as u32) << 16u32 | (self.b as u32) << 8u32 | (self.a as u32)
    }

    /// The colour whose packed form is `v`.
    pub open spec fn spec_unpacked(v: u32) -> Rgba8 {
        Rgba8 {
            r: (v >> 24u32) as u8,
            g: ((v >> 16u32) & 0xffu32) as u8,
            b: ((v >> 8u32) & 0xffu32) as u8,
            a: (v & 0xffu32) as u8,
        }
    }

    /// Unpacking a packed colour gives the colour back.
    pub proof fn lemma_unpack_packed(self)
        ensures
            Rgba8::spec_unpacked(self.spec_packed()) == self,
    {
        let r = self.r;
        let g = self.g;
        let b = self.b;
        let a = self.a;
        let v = self.spec_packed();
        assert((v >> 24u32) as u8 == r && ((v >> 16u32) & 0xffu32) as u8 == g && ((v >> 8u32)
            & 0xffu32) as u8 == b && (v & 0xffu32) as u8 == a) by (bit_vector)
            requires
                v == (r as u32) << 24u32 | (g as u32) << 16u32 | (b as u32) << 8u32 | (a as u32),
        ;
    }

    pub fn packed(self) -> (v: u32)
        ensures
            v == self.spec_packed(),
            Rgba8::spec_unpacked(v) == self,
    {
        let r = self.r;
        let g = self.g;
        let b = self.b;
        let a = self.a;
        let v = (r as u32) << 24u32 | (g as u32) << 16u32 | (b as u32) << 8u32 | (a as u32);
        assert((v >> 24u32) as u8 == r && ((v >> 16u32) & 0xffu32) as u8 == g && ((v >> 8u32)
            & 0xffu32) as u8 == b && (v & 0xffu32) as u8 == a) by (bit_vector)
            requires
                v == (r as u32) << 24u32 | (g as u32) << 16u32 | (b as u32) << 8u32 | (a as u32),
        ;
        v
    }

    pub fn unpacked(v: u32) -> (c: Rgba8)
        ensures
            c == Rgba8::spec_unpacked(v),
    {
        Rgba8 {
            r: (v >> 24u32) as u8,
            g: ((v >> 16u32) & 0xffu32) as u8,
            b: ((v >> 8u32) & 0xffu32) as u8,
            a: (v & 0xffu32) as u8,
        }
    }
}

/// A 16-bit RGB colour, used for the transparent colour of RGB images.
#[derive(Debug, Clone, Copy, PartialEq, Eq, Structural, Hash)]
pub struct Rgb16 {
    pub r: u16,
    pub g: u16,
    pub b: u16,
}

/// The color type of an image, with its transparency information
#[derive(Debug, Clone, PartialEq, Eq)]
pub enum ColorType {
    /// Grayscale, with one color being transparent
    Grayscale { transparent_shade: Option<u16> },
    /// RGB, with one color being transparent
    RGB { transparent_color: Option<Rgb16> },
    /// Indexed, with its palette
    Indexed { palette: Vec<Rgba8> },
    /// Grayscale + Alpha
    GrayscaleAlpha,
    /// RGBA
    RGBA,
}

/// Whether two color types are the same, palettes compared by their colors.
pub open spec fn same_color_type(a: ColorType, b: ColorType) -> bool {
    match (a, b) {
        (ColorType::Indexed { palette: p }, ColorType::Indexed { palette: q }) => p@ == q@,
        (ColorType::Indexed { .. }, _) => false,
        (_, ColorType::Indexed { .. }) => false,
        _ => a == b,
    }
}

impl ColorType {
    /// A copy of the color type, its palette copied color by color.
    pub fn duplicate(&self) -> (r: ColorType)
        ensures
            same_color_type(r, *self),
            r.spec_header_code() == self.spec_header_code(),
            r.spec_channels() == self.spec_channels(),
    {
        match self {
            ColorType::Grayscale { transparent_shade } => ColorType::Grayscale { transparent_shade: *transparent_shade },
            ColorType::RGB { transparent_color } => ColorType::RGB { transparent_color: *transparent_color },
            ColorType::Indexed { palette } => {
                let mut copy: Vec<Rgba8> = Vec::new();
                let mut i: usize = 0;
                while i < palette.len()
                    invariant
                        i <= palette@.len(),
                        copy@ == palette@.take(i as int),
                    decreases palette@.len() - i,
                {
                    copy.push(palette[i]);
                    i += 1;
                    assert(copy@ =~= palette@.take(i as int));
                }
                assert(palette@.take(palette@.len() as int) =~= palette@);
                ColorType::Indexed { palette: copy }
            },
            ColorType::GrayscaleAlpha => ColorType::GrayscaleAlpha,
            ColorType::RGBA => ColorType::RGBA,
        }
    }

    pub open spec fn spec_header_code(&self) -> u8 {
        match self {
            ColorType::Grayscale { .. } => 0,
            ColorType::RGB { .. } => 2,
            ColorType::Indexed { .. } => 3,
            ColorType::GrayscaleAlpha => 4,
            ColorType::RGBA => 6,
        }
    }

    /// The color type code of the IHDR chunk.
    pub fn png_header_code(&self) -> (r: u8)
        ensures
            r == self.spec_header_code(),
    {
        match self {
            ColorType::Grayscale { .. } => 0,
            ColorType::RGB { .. } => 2,
            ColorType::Indexed { .. } => 3,
            ColorType::GrayscaleAlpha => 4,
            ColorType::RGBA => 6,
        }
    }

    pub open spec fn spec_channels(&self) -> u8 {
        match self {
            ColorType::Grayscale { .. } => 1,
            ColorType::RGB { .. } => 3,
            ColorType::Indexed { .. } => 1,
            ColorType::GrayscaleAlpha => 2,
            ColorType::RGBA => 4,
        }
    }

    /// The number of channels of each pixel.
    pub fn channels_per_pixel(&self) -> (r: u8)
        ensures
            r == self.spec_channels(),
    {
        match self {
            ColorType::Grayscale { .. } => 1,
            ColorType::RGB { .. } => 3,
            ColorType::Indexed { .. } => 1,
            ColorType::GrayscaleAlpha => 2,
            ColorType::RGBA => 4,
        }
    }

    pub open spec fn spec_has_alpha(&self) -> bool {
        self matches ColorType::GrayscaleAlpha || self matches ColorType::RGBA
    }

    /// Whether each pixel carries an alpha channel.
    pub fn has_alpha(&self) -> (r: bool)
        ensures
            r == self.spec_has_alpha(),
    {
        match self {
            ColorType::GrayscaleAlpha | ColorType::RGBA => true,
            _ => false,
        }
    }

    /// The name of the color type.
    pub open spec fn spec_name(&self) -> Seq<char> {
        match self {
            ColorType::Grayscale { .. } => "Grayscale"@,
            ColorType::RGB { .. } => "RGB"@,
            ColorType::Indexed { .. } => "Indexed"@,
            ColorType::GrayscaleAlpha => "Grayscale + Alpha"@,
            ColorType::RGBA => "RGB + Alpha"@,
        }
    }

    /// The name of the color type.
    pub fn name(&self) -> (r: &'static str)
        ensures
            r@ == self.spec_name(),
    {
        match self {
            ColorType::Grayscale { .. } => "Grayscale",
            ColorType::RGB { .. } => "RGB",
            ColorType::Indexed { .. } => "Indexed",
            ColorType::GrayscaleAlpha => "Grayscale + Alpha",
            ColorType::RGBA => "RGB + Alpha",
        }
    }
}

/// Whether the PNG specification allows the bit depth for the color type.
pub open spec fn depth_allowed(color_code: u8, bits: u8) -> bool {
    if color_code == 0 {
        bits == 1 || bits == 2 || bits == 4 || bits == 8 || bits == 16
    } else if color_code == 3 {
        bits == 1 || bits == 2 || bits == 4 || bits == 8
    } else {
        bits == 8 || bits == 16
    }
}

} // verus!
