//! The whole-stream view of the decoder: a parsed header plus the body bytes,
//! with the dimensions, the color format, and a whole-image read.
use vstd::prelude::*;

use crate::reader::QoiReader;
use crate::stream::decode_stream;
use crate::{QoiError, QoiHeader, Rgba, spec_magic_ok};

verus! {

/// The two pixel layouts a stream decodes to, told apart by the header's
/// channel count.
#[derive(Clone, Copy, PartialEq, Eq, Debug)]
pub enum ColorFormat {
    Rgb,
    Rgba,
}

/// Bytes per decoded pixel: 4 when the header says RGBA, 3 otherwise.
pub open spec fn spec_bytes_per_pixel(header: QoiHeader) -> nat {
    if header.channels == 4 {
        4
    } else {
        3
    }
}

/// How many bytes the whole image decodes to: exactly one pattern per pixel.
pub open spec fn spec_total_bytes(header: QoiHeader) -> nat {
    header.width as nat * header.height as nat * spec_bytes_per_pixel(header)
}

/// What decoding a whole stream yields: the body's chunks expanded pixel by
/// pixel from the initial decoder state, `None` when the body runs out first.
pub open spec fn spec_image(header: QoiHeader, body: Seq<u8>) -> Option<Seq<u8>> {
    decode_stream(
        Seq::<u8>::empty(),
        header.channels as nat,
        body,
        Rgba::init(),
        Seq::new(64, |i: int| Rgba::zero()),
        spec_total_bytes(header),
    )
}

/// A whole QOI stream with its preamble parsed: the header, and the body bytes
/// that follow it.
#[derive(Debug)]
pub struct QoiDecoder {
    pub header: QoiHeader,
    pub body: Vec<u8>,
}

impl QoiDecoder {
    /// Splits a stream into its parsed 14-byte header and the body that
    /// follows. Fails exactly as header parsing does.
    pub fn new(bytes: Vec<u8>) -> (r: Result<QoiDecoder, QoiError>)
        ensures
            match r {
                Ok(d) => {
                    &&& bytes@.len() >= 14
                    &&& spec_magic_ok(bytes@)
                    &&& d.header.parsed_from(bytes@)
                    &&& d.body@ == bytes@.skip(14)
                },
                Err(e) => (e == QoiError::TruncatedHeader && bytes@.len() < 14) || (e
                    == QoiError::BadMagic && bytes@.len() >= 14 && !spec_magic_ok(bytes@)),
            },
    {
        let header = match QoiHeader::try_from(bytes.as_slice()) {
            Ok(h) => h,
            Err(e) => {
                return Err(e);
            },
        };
        let mut body: Vec<u8> = Vec::new();
        let mut i: usize = 14;
        while i < bytes.len()
            invariant
                14 <= i <= bytes@.len(),
                body@ == bytes@.subrange(14, i as int),
            decreases bytes@.len() - i,
        {
            let b = bytes[i];
            body.push(b);
            proof {
                assert(body@ =~= bytes@.subrange(14, i + 1));
            }
            i = i + 1;
        }
        proof {
            assert(body@ =~= bytes@.skip(14));
        }
        Ok(QoiDecoder { header, body })
    }

    pub fn dimensions(&self) -> (d: (u32, u32))
        ensures
            d == (self.header.width, self.header.height),
    {
        (self.header.width, self.header.height)
    }

    /// RGBA when the header's channel count says 4, RGB otherwise.
    pub fn color_format(&self) -> (c: ColorFormat)
        ensures
            c == (if self.header.channels == 4 {
                ColorFormat::Rgba
            } else {
                ColorFormat::Rgb
            }),
    {
        if self.header.is_rgba() {
            ColorFormat::Rgba
        } else {
            ColorFormat::Rgb
        }
    }

    /// Bytes per decoded pixel, and so per scanline column.
    pub fn scanline_bytes(&self) -> (n: u64)
        ensures
            n == spec_bytes_per_pixel(self.header),
    {
        if self.header.is_rgba() {
            4
        } else {
            3
        }
    }

    /// Hands the body over to a fresh streaming reader.
    pub fn into_reader(self) -> (r: QoiReader)
        requires
            self.header.channels == 3 || self.header.channels == 4,
        ensures
            r.wf(),
            r.header == self.header,
            r.avail() == self.body@,
            r.latest == Rgba::init(),
            r.pixels@ == Seq::new(64, |i: int| Rgba::zero()),
            r.remain.count == 0,
            r.remain.chans == self.header.channels as usize,
            r.remain.pending() == Seq::<u8>::empty(),
    {
        let QoiDecoder { header, body } = self;
        QoiReader::new(header, body)
    }

    /// Decodes the whole image in one call: exactly `width * height` pixels'
    /// worth of bytes, read off the reader until none are owed. Fails with
    /// `TruncatedStream` exactly when the body ends before the last pixel.
    #[verifier::rlimit(30)]
    pub fn read_image(self) -> (r: Result<Vec<u8>, QoiError>)
        requires
            self.header.channels == 3 || self.header.channels == 4,
            spec_total_bytes(self.header) <= usize::MAX,
        ensures
            match r {
                Ok(v) => {
                    &&& v@.len() == spec_total_bytes(self.header)
                    &&& spec_image(self.header, self.body@) == Some(v@)
                },
                Err(e) => e == QoiError::TruncatedStream && spec_image(
                    self.header,
                    self.body@,
                ) is None,
            },
    {
        let ghost hdr = self.header;
        let ghost body0 = self.body@;
        let w = self.header.width;
        let h = self.header.height;
        let bpp: usize = if self.header.is_rgba() {
            4
        } else {
            3
        };
        proof {
            assert((w as int) * (h as int) <= (w as int) * (h as int) * (bpp as int) && (w as int)
                * (h as int) * (bpp as int) == ((w as int) * (h as int)) * (bpp as int))
                by (nonlinear_arith)
                requires
                    bpp >= 1,
                    w >= 0,
                    h >= 0,
            ;
        }
        let wh = (w as usize) * (h as usize);
        let total = wh * bpp;
        let mut reader = self.into_reader();
        let mut acc: Vec<u8> = Vec::new();
        proof {
            assert(total == spec_total_bytes(hdr));
            assert(reader.stream(spec_total_bytes(hdr)) == spec_image(hdr, body0));
            if reader.stream(spec_total_bytes(hdr)) is Some {
                let s = reader.stream(spec_total_bytes(hdr))->Some_0;
                assert(Seq::<u8>::empty() + s =~= s);
            }
        }
        while acc.len() < total
            invariant
                reader.wf(),
                acc@.len() <= total,
                total == spec_total_bytes(hdr),
                hdr == self.header,
                body0 == self.body@,
                (match reader.stream((total - acc@.len()) as nat) {
                    Some(s) => spec_image(hdr, body0) == Some(acc@ + s),
                    None => spec_image(hdr, body0) is None,
                }),
            decreases total - acc@.len(),
        {
            let ghost acc0 = acc@;
            let ghost rd0 = reader;
            let want = total - acc.len();
            let mut buf = zero_vec(want);
            let n = match reader.read(&mut buf) {
                Ok(n) => n,
                Err(_) => {
                    proof {
                        assert(rd0.stream(want as nat) is None);
                    }
                    return Err(QoiError::TruncatedStream);
                },
            };
            proof {
                assert(rd0.stream(want as nat) == (match reader.stream((want - n) as nat) {
                    Some(s) => Some(buf@.take(n as int) + s),
                    None => None::<Seq<u8>>,
                })) by {
                    assert(rd0.stream((n + (want - n)) as nat) == (match reader.stream(
                        (want - n) as nat,
                    ) {
                        Some(s) => Some(buf@.take(n as int) + s),
                        None => None::<Seq<u8>>,
                    }));
                }
                lemma_acc_step(
                    spec_image(hdr, body0),
                    acc0,
                    buf@.take(n as int),
                    rd0.stream(want as nat),
                    reader.stream((want - n) as nat),
                );
            }
            let mut i: usize = 0;
            while i < n
                invariant
                    i <= n,
                    n <= buf@.len(),
                    acc@ == acc0 + buf@.take(i as int),
                decreases n - i,
            {
                let b = buf[i];
                acc.push(b);
                proof {
                    assert(acc@ =~= acc0 + buf@.take(i + 1));
                }
                i = i + 1;
            }
            proof {
                assert(acc@ == acc0 + buf@.take(n as int));
                assert((total - acc@.len()) as nat == (want - n) as nat);
            }
        }
        proof {
            assert(acc@.len() == total);
            assert(reader.stream(0) == Some(Seq::<u8>::empty()));
            assert(acc@ + Seq::<u8>::empty() =~= acc@);
        }
        Ok(acc)
    }
}

/// One accumulation step of a whole-image read: when the bytes delivered so far
/// grow by the front piece of the stream, the decoded image stays the
/// accumulated bytes followed by whatever the reader still owes.
proof fn lemma_acc_step(
    image: Option<Seq<u8>>,
    acc0: Seq<u8>,
    front: Seq<u8>,
    s0: Option<Seq<u8>>,
    s1: Option<Seq<u8>>,
)
    requires
        match s0 {
            Some(s) => image == Some(acc0 + s),
            None => image is None,
        },
        s0 == (match s1 {
            Some(s) => Some(front + s),
            None => None::<Seq<u8>>,
        }),
    ensures
        match s1 {
            Some(s) => image == Some((acc0 + front) + s),
            None => image is None,
        },
{
    match s1 {
        Some(s) => {
            assert(acc0 + (front + s) =~= (acc0 + front) + s);
        },
        None => {},
    }
}

/// A scratch buffer of `n` zero bytes.
fn zero_vec(n: usize) -> (v: Vec<u8>)
    ensures
        v@.len() == n,
{
    let mut v: Vec<u8> = Vec::new();
    let mut i: usize = 0;
    while i < n
        invariant
            i <= n,
            v@.len() == i,
        decreases n - i,
    {
        v.push(0);
        i = i + 1;
    }
    v
}

} // verus!
