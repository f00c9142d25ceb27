//! The identification of a stream: four-character code, prediction mode,
//! extradata block and stream configuration.

use crate::bytes;
use crate::error::Error;
use vstd::prelude::*;

verus! {

/// The supported four-character codes.
#[derive(Debug, Clone, Copy, PartialEq, Eq, Hash, Structural)]
pub enum Fourcc {
    /// `ULY0`: YUV 4:2:0 planes Y, U, V; chroma half wide and half high.
    Uly0,
    /// `ULY2`: YUV 4:2:2 planes Y, U, V; chroma half wide.
    Uly2,
    /// `ULY4`: YUV 4:4:4 planes Y, U, V.
    Uly4,
    /// `ULRG`: RGB planes in the order G, B, R.
    Ulrg,
    /// `ULRA`: RGBA planes in the order G, B, R, A.
    Ulra,
}

impl Fourcc {
    /// The four characters of each code.
    pub open spec fn code(self) -> Seq<u8> {
        match self {
            Fourcc::Uly0 => seq![0x55u8, 0x4c, 0x59, 0x30],
            Fourcc::Uly2 => seq![0x55u8, 0x4c, 0x59, 0x32],
            Fourcc::Uly4 => seq![0x55u8, 0x4c, 0x59, 0x34],
            Fourcc::Ulrg => seq![0x55u8, 0x4c, 0x52, 0x47],
            Fourcc::Ulra => seq![0x55u8, 0x4c, 0x52, 0x41],
        }
    }

    /// No two codes have the same characters.
    pub proof fn law_code_injective(a: Fourcc, b: Fourcc)
        requires
            a.code() == b.code(),
        ensures
            a == b,
    {
        assert(a.code()[2] == b.code()[2]);
        assert(a.code()[3] == b.code()[3]);
    }

    /// The code with the given characters.
    pub fn from_bytes(code: [u8; 4]) -> (r: Result<Self, Error>)
        ensures
            r matches Ok(f) ==> f.code() == code@,
            r matches Err(e) ==> e == Error::UnknownFourcc(code),
            r is Ok <==> exists|f: Fourcc| #[trigger] f.code() == code@,
    {
        let ul: bool = code[0] == 0x55 && code[1] == 0x4c;
        proof {
            assert(Fourcc::Uly0.code() =~= code@ <==> ul && code@[2] == 0x59 && code@[3] == 0x30);
            assert(Fourcc::Uly2.code() =~= code@ <==> ul && code@[2] == 0x59 && code@[3] == 0x32);
            assert(Fourcc::Uly4.code() =~= code@ <==> ul && code@[2] == 0x59 && code@[3] == 0x34);
            assert(Fourcc::Ulrg.code() =~= code@ <==> ul && code@[2] == 0x52 && code@[3] == 0x47);
            assert(Fourcc::Ulra.code() =~= code@ <==> ul && code@[2] == 0x52 && code@[3] == 0x41);
        }
        if ul && code[2] == 0x59 && code[3] == 0x30 {
            Ok(Fourcc::Uly0)
        } else if ul && code[2] == 0x59 && code[3] == 0x32 {
            Ok(Fourcc::Uly2)
        } else if ul && code[2] == 0x59 && code[3] == 0x34 {
            Ok(Fourcc::Uly4)
        } else if ul && code[2] == 0x52 && code[3] == 0x47 {
            Ok(Fourcc::Ulrg)
        } else if ul && code[2] == 0x52 && code[3] == 0x41 {
            Ok(Fourcc::Ulra)
        } else {
            Err(Error::UnknownFourcc(code))
        }
    }

    /// The four characters in file order.
    pub fn as_bytes(self) -> (b: &'static [u8; 4])
        ensures
            b@ == self.code(),
    {
        let b: &'static [u8; 4] = match self {
            Fourcc::Uly0 => &[0x55, 0x4c, 0x59, 0x30],
            Fourcc::Uly2 => &[0x55, 0x4c, 0x59, 0x32],
            Fourcc::Uly4 => &[0x55, 0x4c, 0x59, 0x34],
            Fourcc::Ulrg => &[0x55, 0x4c, 0x52, 0x47],
            Fourcc::Ulra => &[0x55, 0x4c, 0x52, 0x41],
        };
        assert(b@ =~= self.code());
        b
    }

    /// The name of each code in this program.
    pub open spec fn label(self) -> Seq<char> {
        match self {
            Fourcc::Uly0 => "Uly0"@,
            Fourcc::Uly2 => "Uly2"@,
            Fourcc::Uly4 => "Uly4"@,
            Fourcc::Ulrg => "Ulrg"@,
            Fourcc::Ulra => "Ulra"@,
        }
    }

    /// The name of this code in this program.
    pub fn name(self) -> (s: &'static str)
        ensures
            s@ == self.label(),
    {
        match self {
            Fourcc::Uly0 => "Uly0",
            Fourcc::Uly2 => "Uly2",
            Fourcc::Uly4 => "Uly4",
            Fourcc::Ulrg => "Ulrg",
            Fourcc::Ulra => "Ulra",
        }
    }

    /// The number of planes on the wire.
    pub open spec fn planes(self) -> nat {
        if self == Fourcc::Ulra {
            4
        } else {
            3
        }
    }

    /// The number of planes on the wire.
    pub fn plane_count(self) -> (n: usize)
        ensures
            n == self.planes(),
    {
        match self {
            Fourcc::Uly0 | Fourcc::Uly2 | Fourcc::Uly4 | Fourcc::Ulrg => 3,
            Fourcc::Ulra => 4,
        }
    }

    /// The planes are G, B and R, with B and R stored relative to G.
    pub open spec fn is_rgb(self) -> bool {
        self == Fourcc::Ulrg || self == Fourcc::Ulra
    }

    /// True for the RGB family.
    pub fn is_rgb_family(self) -> (b: bool)
        ensures
            b == self.is_rgb(),
    {
        matches!(self, Fourcc::Ulrg | Fourcc::Ulra)
    }

    /// True if there is an alpha plane.
    pub fn has_alpha(self) -> (b: bool)
        ensures
            b == (self == Fourcc::Ulra),
    {
        matches!(self, Fourcc::Ulra)
    }

    /// Width and height of plane `idx` of a frame.
    pub open spec fn dims(self, idx: int, width: u32, height: u32) -> (u32, u32) {
        if self == Fourcc::Uly0 && (idx == 1 || idx == 2) {
            (width / 2, height / 2)
        } else if self == Fourcc::Uly2 && (idx == 1 || idx == 2) {
            (width / 2, height)
        } else if (self == Fourcc::Uly0 || self == Fourcc::Uly2) && idx != 0 {
            (0, 0)
        } else {
            (width, height)
        }
    }

    /// Width and height of plane `idx` of a frame.
    pub fn plane_dim(self, idx: usize, width: u32, height: u32) -> (d: (u32, u32))
        ensures
            d == self.dims(idx as int, width, height),
    {
        match self {
            Fourcc::Uly0 => match idx {
                0 => (width, height),
                1 | 2 => (width / 2, height / 2),
                _ => (0, 0),
            },
            Fourcc::Uly2 => match idx {
                0 => (width, height),
                1 | 2 => (width / 2, height),
                _ => (0, 0),
            },
            Fourcc::Uly4 => (width, height),
            Fourcc::Ulrg | Fourcc::Ulra => (width, height),
        }
    }

    /// The source-format tag of each code.
    pub open spec fn source_tag(self) -> Seq<u8> {
        match self {
            Fourcc::Uly0 => seq![0x59u8, 0x56, 0x31, 0x32],
            Fourcc::Uly2 => seq![0x59u8, 0x55, 0x59, 0x32],
            Fourcc::Uly4 => seq![0x59u8, 0x56, 0x32, 0x34],
            Fourcc::Ulrg => seq![0x00u8, 0x00, 0x01, 0x18],
            Fourcc::Ulra => seq![0x00u8, 0x00, 0x02, 0x18],
        }
    }

    /// The four-byte source-format tag that FFmpeg writes for this code:
    /// `YV12`, `YUY2`, `YV24`, and two unprintable ones for RGB and RGBA.
    pub fn ffmpeg_source_format_tag(self) -> (t: [u8; 4])
        ensures
            t@ == self.source_tag(),
    {
        let t: [u8; 4] = match self {
            Fourcc::Uly0 => [0x59, 0x56, 0x31, 0x32],
            Fourcc::Uly2 => [0x59, 0x55, 0x59, 0x32],
            Fourcc::Uly4 => [0x59, 0x56, 0x32, 0x34],
            Fourcc::Ulrg => [0x00, 0x00, 0x01, 0x18],
            Fourcc::Ulra => [0x00, 0x00, 0x02, 0x18],
        };
        assert(t@ =~= self.source_tag());
        t
    }

    /// What is wrong with the dimensions of a frame, if anything.
    pub open spec fn dims_error(self, width: u32, height: u32) -> Option<Error> {
        if width == 0 || height == 0 {
            Some(Error::DimensionConstraint("width/height must be > 0"))
        } else if self == Fourcc::Uly0 && (width % 2 != 0 || height % 2 != 0) {
            Some(Error::DimensionConstraint("ULY0 requires even width and height"))
        } else if self == Fourcc::Uly2 && width % 2 != 0 {
            Some(Error::DimensionConstraint("ULY2 requires even width"))
        } else {
            None
        }
    }

    /// Accepts positive dimensions that fit the chroma subsampling.
    pub fn validate_dims(self, width: u32, height: u32) -> (r: Result<(), Error>)
        ensures
            r == (match self.dims_error(width, height) {
                Some(e) => Err::<(), Error>(e),
                None => Ok(()),
            }),
    {
        if width == 0 || height == 0 {
            return Err(Error::DimensionConstraint("width/height must be > 0"));
        }
        match self {
            Fourcc::Uly0 => if width % 2 != 0 || height % 2 != 0 {
                Err(Error::DimensionConstraint("ULY0 requires even width and height"))
            } else {
                Ok(())
            },
            Fourcc::Uly2 => if width % 2 != 0 {
                Err(Error::DimensionConstraint("ULY2 requires even width"))
            } else {
                Ok(())
            },
            _ => Ok(()),
        }
    }
}

/// The prediction mode of a frame.
#[derive(Debug, Clone, Copy, PartialEq, Eq, Hash, Structural)]
pub enum Predictor {
    /// Mode 0: the residual is the sample.
    Identity,
    /// Mode 1: the sample before in scan order.
    Left,
    /// Mode 2: left plus top minus top-left.
    Gradient,
    /// Mode 3: the median of left, top and left plus top minus top-left.
    Median,
}

impl Predictor {
    /// The number of each mode.
    pub open spec fn mode(self) -> int {
        match self {
            Predictor::Identity => 0,
            Predictor::Left => 1,
            Predictor::Gradient => 2,
            Predictor::Median => 3,
        }
    }

    /// The mode that bits 8 and 9 of a frame-info word name.
    pub open spec fn of_frame_info(info: u32) -> Predictor {
        let mode = info / 0x100 % 4;
        if mode == 0 {
            Predictor::Identity
        } else if mode == 1 {
            Predictor::Left
        } else if mode == 2 {
            Predictor::Gradient
        } else {
            Predictor::Median
        }
    }

    /// The mode that bits 8 and 9 of a frame-info word name.
    pub fn from_frame_info(info: u32) -> (p: Self)
        ensures
            p == Predictor::of_frame_info(info),
    {
        match info / 0x100 % 4 {
            0 => Predictor::Identity,
            1 => Predictor::Left,
            2 => Predictor::Gradient,
            _ => Predictor::Median,
        }
    }

    /// The bits of this mode in a frame-info word.
    pub fn as_frame_info_bits(self) -> (bits: u32)
        ensures
            bits == 0x100 * self.mode(),
            Predictor::of_frame_info(bits) == self,
    {
        match self {
            Predictor::Identity => 0x000,
            Predictor::Left => 0x100,
            Predictor::Gradient => 0x200,
            Predictor::Median => 0x300,
        }
    }
}

/// The sixteen-byte extradata block.
#[derive(Debug, Clone, Copy, PartialEq, Eq)]
pub struct Extradata {
    /// Encoder version; for diagnostics only.
    pub encoder_version: u32,
    /// Source-format tag, four bytes as stored.
    pub source_format_tag: [u8; 4],
    /// Size of the frame-info word; always four.
    pub frame_info_size: u32,
    /// Encoding flags: bit 0 Huffman, bit 11 interlaced, the highest byte the
    /// number of slices minus one.
    pub flags: u32,
}

impl Extradata {
    /// The number of slices that the flags announce.
    pub open spec fn slices(self) -> nat {
        (self.flags / 0x100_0000 + 1) as nat
    }

    /// The sixteen bytes of the block.
    pub open spec fn encoded(self) -> Seq<u8> {
        bytes::le_bytes(self.encoder_version) + self.source_format_tag@ + bytes::le_bytes(
            self.frame_info_size,
        ) + bytes::le_bytes(self.flags)
    }

    /// What is wrong with a block of extradata, if anything.
    pub open spec fn parse_error(block: Seq<u8>) -> Option<Error> {
        if block.len() < 16 {
            Some(Error::ExtradataTruncated { len: block.len() as usize })
        } else if bytes::le32(block, 8) != 4 {
            Some(Error::InvalidFrameInfoSize(bytes::le32(block, 8) as u32))
        } else if bytes::le32(block, 12) % 2 == 0 {
            Some(Error::HuffmanBitClear)
        } else if bytes::le32(block, 12) / 0x800 % 2 == 1 {
            Some(Error::InterlacedNotSupported)
        } else {
            None
        }
    }

    /// Reads a block of extradata. Bytes after the sixteenth are ignored.
    pub fn parse(bytes: &[u8]) -> (r: Result<Self, Error>)
        ensures
            match r {
                Ok(x) => Extradata::parse_error(bytes@) is None && x.encoded() == bytes@.take(16),
                Err(e) => Extradata::parse_error(bytes@) == Some(e),
            },
    {
        if bytes.len() < 16 {
            return Err(Error::ExtradataTruncated { len: bytes.len() });
        }
        let encoder_version: u32 = bytes::read_u32_le(bytes, 0);
        let source_format_tag: [u8; 4] = [bytes[4], bytes[5], bytes[6], bytes[7]];
        let frame_info_size: u32 = bytes::read_u32_le(bytes, 8);
        let flags: u32 = bytes::read_u32_le(bytes, 12);
        if frame_info_size != 4 {
            return Err(Error::InvalidFrameInfoSize(frame_info_size));
        }
        if flags % 2 == 0 {
            return Err(Error::HuffmanBitClear);
        }
        if flags / 0x800 % 2 == 1 {
            return Err(Error::InterlacedNotSupported);
        }
        let x = Self { encoder_version, source_format_tag, frame_info_size, flags };
        proof {
            bytes::lemma_le32_write_back(bytes@, 0);
            bytes::lemma_le32_write_back(bytes@, 8);
            bytes::lemma_le32_write_back(bytes@, 12);
            assert(x.source_format_tag@ =~= bytes@.subrange(4, 8));
            assert(x.encoded() =~= bytes@.take(16));
        }
        Ok(x)
    }

    /// The number of slices per plane.
    pub fn num_slices(&self) -> (n: usize)
        ensures
            n == self.slices(),
            1 <= n <= 256,
    {
        (self.flags / 0x100_0000) as usize + 1
    }

    /// The block that FFmpeg writes for a code and a number of slices.
    pub open spec fn of_ffmpeg(self, fourcc: Fourcc, num_slices: nat) -> bool {
        &&& self.encoder_version == 0x0100_00f0
        &&& self.source_format_tag@ == fourcc.source_tag()
        &&& self.frame_info_size == 4
        &&& self.flags == 1 + 0x100_0000 * (num_slices - 1)
    }

    /// Builds the block that FFmpeg writes for a code and a number of slices.
    pub fn ffmpeg_for(fourcc: Fourcc, num_slices: usize) -> (r: Result<Self, Error>)
        ensures
            r is Ok <==> 1 <= num_slices <= 256,
            r matches Ok(x) ==> x.of_ffmpeg(fourcc, num_slices as nat),
            r matches Err(e) ==> e == Error::InvalidSliceCount,
    {
        if num_slices == 0 || num_slices > 256 {
            return Err(Error::InvalidSliceCount);
        }
        Ok(
            Self {
                encoder_version: 0x0100_00f0,
                source_format_tag: fourcc.ffmpeg_source_format_tag(),
                frame_info_size: 4,
                flags: 1 + (num_slices as u32 - 1) * 0x100_0000,
            },
        )
    }

    /// The sixteen bytes of the block.
    pub fn to_bytes(&self) -> (out: [u8; 16])
        ensures
            out@ == self.encoded(),
    {
        let v: u32 = self.encoder_version;
        let t: [u8; 4] = self.source_format_tag;
        let n: u32 = self.frame_info_size;
        let f: u32 = self.flags;
        let out: [u8; 16] = [
            (v % 0x100) as u8,
            (v / 0x100 % 0x100) as u8,
            (v / 0x1_0000 % 0x100) as u8,
            (v / 0x100_0000) as u8,
            t[0],
            t[1],
            t[2],
            t[3],
            (n % 0x100) as u8,
            (n / 0x100 % 0x100) as u8,
            (n / 0x1_0000 % 0x100) as u8,
            (n / 0x100_0000) as u8,
            (f % 0x100) as u8,
            (f / 0x100 % 0x100) as u8,
            (f / 0x1_0000 % 0x100) as u8,
            (f / 0x100_0000) as u8,
        ];
        assert(out@ =~= self.encoded());
        out
    }
}

/// All that identifies a stream: code, frame dimensions and extradata.
#[derive(Debug, Clone, Copy, PartialEq, Eq)]
pub struct StreamConfig {
    pub fourcc: Fourcc,
    pub width: u32,
    pub height: u32,
    pub extradata: Extradata,
}

impl StreamConfig {
    /// A configuration with acceptable dimensions.
    pub open spec fn valid(&self) -> bool {
        self.fourcc.dims_error(self.width, self.height) is None
    }

    /// Builds a configuration, checking the dimensions.
    pub fn new(fourcc: Fourcc, width: u32, height: u32, extradata: Extradata) -> (r: Result<
        Self,
        Error,
    >)
        ensures
            r == (match fourcc.dims_error(width, height) {
                Some(e) => Err::<StreamConfig, Error>(e),
                None => Ok(StreamConfig { fourcc, width, height, extradata }),
            }),
    {
        match fourcc.validate_dims(width, height) {
            Err(e) => Err(e),
            Ok(_) => Ok(Self { fourcc, width, height, extradata }),
        }
    }

    /// The number of slices per plane.
    pub fn num_slices(&self) -> (n: usize)
        ensures
            n == self.extradata.slices(),
            1 <= n <= 256,
    {
        self.extradata.num_slices()
    }
}

} // verus!
