use vstd::prelude::*;

pub mod decoder;
pub mod reader;
pub mod stream;

pub use decoder::ColorFormat;
pub use decoder::QoiDecoder;
pub use reader::QoiReader;
pub use reader::QoiRemaining;

verus! {

/// Errors a decode can end with. `TruncatedHeader` and `BadMagic` come from
/// parsing the 14-byte preamble; `TruncatedStream` from running out of bytes
/// in the middle of a chunk.
#[derive(Clone, Copy, PartialEq, Eq, Debug)]
pub enum QoiError {
    TruncatedHeader,
    BadMagic,
    TruncatedStream,
}

/// One pixel: four 8-bit lanes under modulo-256 arithmetic.
#[derive(Clone, Copy, PartialEq, Eq, Debug)]
pub struct Rgba {
    pub r: u8,
    pub g: u8,
    pub b: u8,
    pub a: u8,
}

impl Rgba {
    /// The all-zero pixel the 64-slot cache starts out with.
    pub open spec fn zero() -> Rgba {
        Rgba { r: 0, g: 0, b: 0, a: 0 }
    }

    /// The pixel the decoder's `latest` register starts out with.
    pub open spec fn init() -> Rgba {
        Rgba { r: 0, g: 0, b: 0, a: 255 }
    }

    /// Cache slot of a pixel. Each multiply and add wraps at 8 bits before the
    /// final reduction, but since 64 divides 256 that collapses to one mod 64.
    pub open spec fn spec_hash(self) -> int {
        (3 * self.r + 5 * self.g + 7 * self.b + 11 * self.a) % 64
    }

    /// The four lanes in memory order.
    pub open spec fn spec_bytes(self) -> Seq<u8> {
        seq![self.r, self.g, self.b, self.a]
    }

    pub fn alpha(self) -> (v: u8)
        ensures
            v == self.a,
    {
        self.a
    }

    pub fn hash(self) -> (h: u8)
        ensures
            h as int == self.spec_hash(),
            h < 64,
    {
        ((3 * (self.r as u32) + 5 * (self.g as u32) + 7 * (self.b as u32) + 11 * (self.a as u32))
            % 64) as u8
    }

    pub fn bytes(self) -> (out: [u8; 4])
        ensures
            out@ == self.spec_bytes(),
    {
        let out = [self.r, self.g, self.b, self.a];
        proof {
            assert(out@ =~= self.spec_bytes());
        }
        out
    }

    pub fn from_bytes(bytes: [u8; 4]) -> (p: Rgba)
        ensures
            p.spec_bytes() == bytes@,
    {
        let p = Rgba { r: bytes[0], g: bytes[1], b: bytes[2], a: bytes[3] };
        proof {
            assert(p.spec_bytes() =~= bytes@);
        }
        p
    }
}

/// A big-endian 32-bit integer read from four bytes.
pub open spec fn spec_be32(b: Seq<u8>) -> int {
    b[0] * 0x100_0000 + b[1] * 0x1_0000 + b[2] * 0x100 + b[3]
}

/// The first four bytes spell the ASCII magic "qoif".
pub open spec fn spec_magic_ok(b: Seq<u8>) -> bool {
    b.len() >= 4 && b[0] == 0x71u8 && b[1] == 0x6fu8 && b[2] == 0x69u8 && b[3] == 0x66u8
}

/// The fixed 14-byte preamble of a stream.
#[derive(Clone, Copy, PartialEq, Eq, Debug)]
pub struct QoiHeader {
    /// magic bytes "qoif"
    pub magic: [u8; 4],
    /// image width in pixels (stored big-endian)
    pub width: u32,
    /// image height in pixels (stored big-endian)
    pub height: u32,
    /// 3 = RGB, 4 = RGBA
    pub channels: u8,
    /// 0 = sRGB with linear alpha, 1 = all channels linear; stored, not interpreted
    pub colorspace: u8,
}

impl QoiHeader {
    /// What a successful parse of `value` yields: field by field, with width and
    /// height read big-endian.
    pub open spec fn parsed_from(self, value: Seq<u8>) -> bool {
        &&& self.magic@ == value.subrange(0, 4)
        &&& self.width == spec_be32(value.subrange(4, 8))
        &&& self.height == spec_be32(value.subrange(8, 12))
        &&& self.channels == value[12]
        &&& self.colorspace == value[13]
    }

    pub fn is_rgba(&self) -> (r: bool)
        ensures
            r == (self.channels == 4),
    {
        self.channels == 4
    }

    /// Parses the preamble: fails with `TruncatedHeader` on fewer than 14 bytes,
    /// with `BadMagic` when the signature is not "qoif", and otherwise returns
    /// the header those 14 bytes spell. Bytes past the 14th are ignored.
    pub fn try_from(value: &[u8]) -> (r: Result<QoiHeader, QoiError>)
        ensures
            match r {
                Ok(h) => value@.len() >= 14 && spec_magic_ok(value@) && h.parsed_from(value@),
                Err(e) => (e == QoiError::TruncatedHeader && value@.len() < 14) || (e
                    == QoiError::BadMagic && value@.len() >= 14 && !spec_magic_ok(value@)),
            },
    {
        if value.len() < 14 {
            return Err(QoiError::TruncatedHeader);
        }
        let magic = [value[0], value[1], value[2], value[3]];
        if !(magic[0] == 0x71 && magic[1] == 0x6f && magic[2] == 0x69 && magic[3] == 0x66) {
            return Err(QoiError::BadMagic);
        }
        let width = be32(value[4], value[5], value[6], value[7]);
        let height = be32(value[8], value[9], value[10], value[11]);
        let h = QoiHeader { magic, width, height, channels: value[12], colorspace: value[13] };
        proof {
            assert(h.magic@ =~= value@.subrange(0, 4));
            assert(value@.subrange(4, 8)[0] == value@[4]);
            assert(value@.subrange(8, 12)[0] == value@[8]);
        }
        Ok(h)
    }
}

/// Assembles a big-endian 32-bit integer from its four bytes.
fn be32(b0: u8, b1: u8, b2: u8, b3: u8) -> (w: u32)
    ensures
        w == spec_be32(seq![b0, b1, b2, b3]),
{
    (b0 as u32) * 0x100_0000 + (b1 as u32) * 0x1_0000 + (b2 as u32) * 0x100 + (b3 as u32)
}

} // verus!
