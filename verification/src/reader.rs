//! The streaming half of the decoder: the remainder buffer that re-chunks
//! decoded pixel bytes into caller-sized reads, and the pull reader that drives
//! the chunk decoder over it.
use vstd::prelude::*;

use vstd::arithmetic::div_mod::{
    lemma_add_mod_noop,
    lemma_add_mod_noop_right,
    lemma_mod_division_less_than_divisor,
    lemma_small_mod,
};

use crate::stream::{
    chunk_cache,
    chunk_emit,
    chunk_len,
    chunk_pixel,
    cyc,
    decode_stream,
    lemma_emit_single,
    pix_pattern,
    run_len,
};
use crate::{QoiError, QoiHeader, Rgba};

verus! {

/// 8-bit wraparound addition: the result is `(a + b) mod 256`.
fn wadd(a: u8, b: u8) -> (r: u8)
    ensures
        r as int == (a + b) % 256,
{
    (((a as u16) + (b as u16)) % 256) as u8
}

/// 8-bit wraparound subtraction: the result is `(a - b) mod 256`.
fn wsub(a: u8, b: u8) -> (r: u8)
    ensures
        r as int == (a - b) % 256,
{
    proof {
        vstd::arithmetic::div_mod::lemma_mod_add_multiples_vanish(a - b, 256);
    }
    (((a as u16) + 256 - (b as u16)) % 256) as u8
}

/// Decoded-but-undelivered pixel bytes. One decoded chunk can stand for many
/// pixels while the caller may ask for output one byte at a time, so the
/// `chans`-byte pattern is handed out cyclically, `count` bytes in all, with
/// `offset` marking where in the pattern the next byte comes from.
#[derive(Debug)]
pub struct QoiRemaining {
    pub bytes: [u8; 4],
    pub chans: usize,
    pub count: usize,
    pub offset: usize,
}

impl QoiRemaining {
    pub open spec fn wf(self) -> bool {
        &&& (self.chans == 3 || self.chans == 4)
        &&& self.offset < self.chans
    }

    /// The active pattern: one pixel's worth of bytes.
    pub open spec fn pattern(self) -> Seq<u8> {
        self.bytes@.take(self.chans as int)
    }

    /// Every byte still owed to the caller, in delivery order.
    pub open spec fn pending(self) -> Seq<u8> {
        cyc(self.pattern(), self.offset as nat, self.count as nat)
    }

    /// Copies `min(buf.len(), count)` pending bytes into the front of `buf`,
    /// cycling the pattern and rotating its start point so that the next call
    /// resumes exactly where this one stopped. Bytes of `buf` past the copied
    /// prefix keep their old values.
    pub fn read(&mut self, buf: &mut Vec<u8>) -> (n: usize)
        requires
            old(self).wf(),
        ensures
            final(self).wf(),
            final(self).chans == old(self).chans,
            final(self).bytes == old(self).bytes,
            n == (if old(buf)@.len() < old(self).count {
                old(buf)@.len() as int
            } else {
                old(self).count as int
            }),
            final(self).count == old(self).count - n,
            final(buf)@.len() == old(buf)@.len(),
            final(buf)@ == old(self).pending().take(n as int) + old(buf)@.skip(n as int),
            final(self).pending() == old(self).pending().skip(n as int),
    {
        let n = if buf.len() < self.count {
            buf.len()
        } else {
            self.count
        };
        let c = self.chans;
        let mut i: usize = 0;
        while i < n
            invariant
                i <= n,
                n <= buf@.len(),
                n <= self.count,
                self == old(self),
                self.wf(),
                c == self.chans,
                buf@.len() == old(buf)@.len(),
                forall|j: int| 0 <= j < i ==> buf@[j] == old(self).pending()[j],
                forall|j: int| i <= j < buf@.len() ==> buf@[j] == old(buf)@[j],
            decreases n - i,
        {
            proof {
                lemma_mod_division_less_than_divisor(i as int, c as int);
                lemma_small_mod(self.offset as nat, c as nat);
                lemma_add_mod_noop(self.offset as int, i as int, c as int);
                lemma_mod_division_less_than_divisor(self.offset as int + (i as int % c as int),
                    c as int);
            }
            let idx = (self.offset + i % c) % c;
            let b = self.bytes[idx];
            buf.set(i, b);
            i = i + 1;
        }
        proof {
            assert(buf@ =~= old(self).pending().take(n as int) + old(buf)@.skip(n as int));
        }
        let ghost before = *self;
        self.count = self.count - n;
        proof {
            lemma_mod_division_less_than_divisor(n as int, c as int);
            lemma_small_mod(self.offset as nat, c as nat);
            lemma_add_mod_noop(self.offset as int, n as int, c as int);
            lemma_mod_division_less_than_divisor(self.offset as int + (n as int % c as int),
                c as int);
        }
        self.offset = (self.offset + n % c) % c;
        proof {
            let ci = c as int;
            assert(self.offset == (before.offset + n) % ci);
            assert forall|j: int| 0 <= j < self.count implies self.pending()[j]
                == before.pending().skip(n as int)[j] by {
                lemma_add_mod_noop_right(j, before.offset + n, ci);
                assert((self.offset as int + j) % ci == (before.offset + n + j) % ci);
            }
            assert(self.pending() =~= before.pending().skip(n as int));
        }
        n
    }
}

/// The pull-based streaming decoder: a parsed header, the body bytes with a
/// cursor, the 64-slot pixel lookback cache, the latest decoded pixel, and the
/// remainder buffer the caller drains.
#[derive(Debug)]
pub struct QoiReader {
    pub header: QoiHeader,
    pub input: Vec<u8>,
    pub pos: usize,
    pub pixels: Vec<Rgba>,
    pub latest: Rgba,
    pub remain: QoiRemaining,
}

impl QoiReader {
    pub open spec fn wf(self) -> bool {
        &&& self.pixels@.len() == 64
        &&& self.remain.wf()
        &&& self.remain.chans == self.header.channels as usize
        &&& self.pos <= self.input@.len()
    }

    /// The body bytes not yet consumed.
    pub open spec fn avail(self) -> Seq<u8> {
        self.input@.skip(self.pos as int)
    }

    /// The next `need` bytes this reader will deliver, or `None` when the input
    /// runs out first.
    pub open spec fn stream(self, need: nat) -> Option<Seq<u8>> {
        decode_stream(
            self.remain.pending(),
            self.remain.chans as nat,
            self.avail(),
            self.latest,
            self.pixels@,
            need,
        )
    }

    /// A fresh decoder over the body bytes that follow the header: cache all
    /// zero, latest pixel (0, 0, 0, 255), nothing pending.
    pub fn new(header: QoiHeader, input: Vec<u8>) -> (r: QoiReader)
        requires
            header.channels == 3 || header.channels == 4,
        ensures
            r.wf(),
            r.header == header,
            r.pos == 0,
            r.avail() == input@,
            r.latest == Rgba::init(),
            r.pixels@ == Seq::new(64, |i: int| Rgba::zero()),
            r.remain.count == 0,
            r.remain.chans == header.channels as usize,
            r.remain.pending() == Seq::<u8>::empty(),
    {
        let ghost in0 = input@;
        let chans = header.channels as usize;
        let mut pixels: Vec<Rgba> = Vec::new();
        let mut i: usize = 0;
        while i < 64
            invariant
                i <= 64,
                pixels@.len() == i,
                forall|j: int| 0 <= j < i ==> pixels@[j] == Rgba::zero(),
            decreases 64 - i,
        {
            pixels.push(Rgba { r: 0, g: 0, b: 0, a: 0 });
            i = i + 1;
        }
        let r = QoiReader {
            header,
            input,
            pos: 0,
            pixels,
            latest: Rgba { r: 0, g: 0, b: 0, a: 255 },
            remain: QoiRemaining { bytes: [0u8, 0u8, 0u8, 0u8], chans, count: 0, offset: 0 },
        };
        proof {
            assert(r.avail() =~= in0);
            assert(r.pixels@ =~= Seq::new(64, |j: int| Rgba::zero()));
            assert(r.remain.pending() =~= Seq::<u8>::empty());
        }
        r
    }

    /// Reads the next byte of the body: the tag of a chunk, or a follow-on byte.
    pub fn read_tag(&mut self) -> (r: Result<u8, QoiError>)
        requires
            old(self).wf(),
        ensures
            final(self).wf(),
            final(self).header == old(self).header,
            final(self).input == old(self).input,
            final(self).pixels == old(self).pixels,
            final(self).latest == old(self).latest,
            final(self).remain == old(self).remain,
            match r {
                Ok(t) => old(self).pos < old(self).input@.len() && t == old(self).input@[old(
                    self,
                ).pos as int] && final(self).pos == old(self).pos + 1,
                Err(e) => e == QoiError::TruncatedStream && old(self).pos == old(
                    self,
                ).input@.len() && final(self).pos == old(self).pos,
            },
    {
        if self.pos < self.input.len() {
            let t = self.input[self.pos];
            self.pos = self.pos + 1;
            Ok(t)
        } else {
            Err(QoiError::TruncatedStream)
        }
    }

    /// Registers a freshly decoded pixel: it becomes `latest`, unconditionally
    /// overwrites its hash slot in the cache, and one copy of it is owed to the
    /// caller.
    pub fn save_pixel(&mut self, pixel: Rgba) -> (rem: QoiRemaining)
        requires
            old(self).wf(),
        ensures
            final(self).wf(),
            final(self).header == old(self).header,
            final(self).input == old(self).input,
            final(self).pos == old(self).pos,
            final(self).remain == old(self).remain,
            final(self).latest == pixel,
            final(self).pixels@ == old(self).pixels@.update(pixel.spec_hash(), pixel),
            rem.wf(),
            rem.chans == old(self).remain.chans,
            rem.count == rem.chans,
            rem.pending() == pix_pattern(pixel, rem.chans as nat),
    {
        self.latest = pixel;
        let h = pixel.hash();
        self.pixels.set(h as usize, pixel);
        let chans = self.header.channels as usize;
        let rem = QoiRemaining { bytes: pixel.bytes(), chans, count: chans, offset: 0 };
        proof {
            assert forall|i: int| 0 <= i < chans implies rem.pending()[i] == pix_pattern(
                pixel,
                chans as nat,
            )[i] by {
                lemma_small_mod(i as nat, chans as nat);
            }
            assert(rem.pending() =~= pix_pattern(pixel, chans as nat));
        }
        rem
    }

    /// Reads the four bytes of an RGBA literal and registers the pixel.
    pub fn read_rgba(&mut self) -> (r: Result<QoiRemaining, QoiError>)
        requires
            old(self).wf(),
        ensures
            final(self).wf(),
            final(self).header == old(self).header,
            final(self).input == old(self).input,
            final(self).remain == old(self).remain,
            match r {
                Ok(rem) => {
                    let v = old(self).input@;
                    let p = old(self).pos as int;
                    let px = Rgba { r: v[p], g: v[p + 1], b: v[p + 2], a: v[p + 3] };
                    &&& old(self).pos + 4 <= v.len()
                    &&& final(self).pos == old(self).pos + 4
                    &&& final(self).latest == px
                    &&& final(self).pixels@ == old(self).pixels@.update(px.spec_hash(), px)
                    &&& rem.wf()
                    &&& rem.chans == old(self).remain.chans
                    &&& rem.count == rem.chans
                    &&& rem.pending() == pix_pattern(px, rem.chans as nat)
                },
                Err(e) => {
                    &&& e == QoiError::TruncatedStream
                    &&& old(self).input@.len() - old(self).pos < 4
                    &&& *final(self) == *old(self)
                },
            },
    {
        if self.input.len() - self.pos < 4 {
            return Err(QoiError::TruncatedStream);
        }
        let b0 = self.input[self.pos];
        let b1 = self.input[self.pos + 1];
        let b2 = self.input[self.pos + 2];
        let b3 = self.input[self.pos + 3];
        self.pos = self.pos + 4;
        let px = Rgba::from_bytes([b0, b1, b2, b3]);
        Ok(self.save_pixel(px))
    }

    /// Reads the three bytes of an RGB literal; alpha is carried forward from
    /// the latest pixel.
    pub fn read_rgb(&mut self) -> (r: Result<QoiRemaining, QoiError>)
        requires
            old(self).wf(),
        ensures
            final(self).wf(),
            final(self).header == old(self).header,
            final(self).input == old(self).input,
            final(self).remain == old(self).remain,
            match r {
                Ok(rem) => {
                    let v = old(self).input@;
                    let p = old(self).pos as int;
                    let px = Rgba { r: v[p], g: v[p + 1], b: v[p + 2], a: old(self).latest.a };
                    &&& old(self).pos + 3 <= v.len()
                    &&& final(self).pos == old(self).pos + 3
                    &&& final(self).latest == px
                    &&& final(self).pixels@ == old(self).pixels@.update(px.spec_hash(), px)
                    &&& rem.wf()
                    &&& rem.chans == old(self).remain.chans
                    &&& rem.count == rem.chans
                    &&& rem.pending() == pix_pattern(px, rem.chans as nat)
                },
                Err(e) => {
                    &&& e == QoiError::TruncatedStream
                    &&& old(self).input@.len() - old(self).pos < 3
                    &&& *final(self) == *old(self)
                },
            },
    {
        if self.input.len() - self.pos < 3 {
            return Err(QoiError::TruncatedStream);
        }
        let b0 = self.input[self.pos];
        let b1 = self.input[self.pos + 1];
        let b2 = self.input[self.pos + 2];
        let a = self.latest.alpha();
        self.pos = self.pos + 3;
        let px = Rgba::from_bytes([b0, b1, b2, a]);
        Ok(self.save_pixel(px))
    }

    /// Decodes exactly one chunk: reads the tag byte, dispatches on its opcode,
    /// updates `latest` and the cache as the chunk dictates, and returns the
    /// remainder describing every pixel byte the chunk produced. Fails with
    /// `TruncatedStream` exactly when the body holds fewer bytes than the chunk
    /// needs.
    pub fn load_next_pixel(&mut self) -> (r: Result<QoiRemaining, QoiError>)
        requires
            old(self).wf(),
        ensures
            final(self).wf(),
            final(self).header == old(self).header,
            final(self).input == old(self).input,
            final(self).remain == old(self).remain,
            match r {
                Ok(rem) => {
                    let av = old(self).avail();
                    &&& av.len() >= 1
                    &&& av.len() >= chunk_len(av[0])
                    &&& final(self).pos == old(self).pos + chunk_len(av[0])
                    &&& final(self).latest == chunk_pixel(av, old(self).latest, old(self).pixels@)
                    &&& final(self).pixels@ == chunk_cache(av, old(self).latest, old(self).pixels@)
                    &&& rem.wf()
                    &&& rem.chans == old(self).remain.chans
                    &&& rem.pending() == chunk_emit(
                        av,
                        old(self).latest,
                        old(self).pixels@,
                        rem.chans as nat,
                    )
                },
                Err(e) => {
                    let av = old(self).avail();
                    &&& e == QoiError::TruncatedStream
                    &&& (av.len() == 0 || av.len() < chunk_len(av[0]))
                    &&& final(self).latest == old(self).latest
                    &&& final(self).pixels == old(self).pixels
                },
            },
    {
        let ghost st0 = *old(self);
        let ghost av = st0.avail();
        let tag = match self.read_tag() {
            Ok(t) => t,
            Err(e) => {
                return Err(e);
            },
        };
        proof {
            assert(av[0] == tag);
        }
        if tag == 0xff {
            let r = self.read_rgba();
            proof {
                if r is Ok {
                    assert(av[1] == st0.input@[st0.pos + 1]);
                    assert(av[2] == st0.input@[st0.pos + 2]);
                    assert(av[3] == st0.input@[st0.pos + 3]);
                    assert(av[4] == st0.input@[st0.pos + 4]);
                    assert(self.latest == chunk_pixel(av, st0.latest, st0.pixels@));
                    lemma_emit_single(av, st0.latest, st0.pixels@, self.remain.chans as nat);
                }
            }
            r
        } else if tag == 0xfe {
            let r = self.read_rgb();
            proof {
                if r is Ok {
                    assert(av[1] == st0.input@[st0.pos + 1]);
                    assert(av[2] == st0.input@[st0.pos + 2]);
                    assert(av[3] == st0.input@[st0.pos + 3]);
                    lemma_emit_single(av, st0.latest, st0.pixels@, self.remain.chans as nat);
                }
            }
            r
        } else {
            let top = tag / 64;
            if top == 3 {
                let run = tag % 64 + 1;
                let chans = self.header.channels as usize;
                proof {
                    assert((run as int) * (chans as int) <= 256) by (nonlinear_arith)
                        requires
                            run <= 64,
                            chans <= 4,
                    ;
                }
                let count = (run as usize) * chans;
                let rem = QoiRemaining {
                    bytes: self.latest.bytes(),
                    chans,
                    count,
                    offset: 0,
                };
                proof {
                    assert(chunk_pixel(av, st0.latest, st0.pixels@) == st0.latest);
                    assert(chunk_cache(av, st0.latest, st0.pixels@) == st0.pixels@);
                    assert(run_len(av[0]) == run as nat);
                    assert(rem.pattern() =~= pix_pattern(st0.latest, chans as nat));
                    assert(rem.pending() == chunk_emit(av, st0.latest, st0.pixels@, chans as nat));
                }
                Ok(rem)
            } else if top == 2 {
                let dg = wsub(tag % 64, 32);
                let b1 = match self.read_tag() {
                    Ok(t) => t,
                    Err(e) => {
                        return Err(e);
                    },
                };
                let dr = wadd(wsub(b1 / 16, 8), dg);
                let db = wadd(wsub(b1 % 16, 8), dg);
                let px = Rgba {
                    r: wadd(self.latest.r, dr),
                    g: wadd(self.latest.g, dg),
                    b: wadd(self.latest.b, db),
                    a: self.latest.a,
                };
                proof {
                    assert(av[1] == b1);
                    let c = 256int;
                    let dgs = av[0] % 64 - 32;
                    let drs = av[1] / 16 - 8 + dgs;
                    let dbs = av[1] % 16 - 8 + dgs;
                    lemma_add_mod_noop(b1 / 16 - 8, dgs, c);
                    lemma_add_mod_noop(b1 % 16 - 8, dgs, c);
                    lemma_add_mod_noop_right(st0.latest.r as int, drs, c);
                    lemma_add_mod_noop_right(st0.latest.g as int, dgs, c);
                    lemma_add_mod_noop_right(st0.latest.b as int, dbs, c);
                    assert(px == chunk_pixel(av, st0.latest, st0.pixels@));
                    lemma_emit_single(av, st0.latest, st0.pixels@, self.remain.chans as nat);
                }
                Ok(self.save_pixel(px))
            } else if top == 1 {
                let dr = wsub((tag / 16) % 4, 2);
                let dg = wsub((tag / 4) % 4, 2);
                let db = wsub(tag % 4, 2);
                let px = Rgba {
                    r: wadd(self.latest.r, dr),
                    g: wadd(self.latest.g, dg),
                    b: wadd(self.latest.b, db),
                    a: self.latest.a,
                };
                proof {
                    let c = 256int;
                    lemma_add_mod_noop_right(st0.latest.r as int, (av[0] / 16) % 4 - 2, c);
                    lemma_add_mod_noop_right(st0.latest.g as int, (av[0] / 4) % 4 - 2, c);
                    lemma_add_mod_noop_right(st0.latest.b as int, av[0] % 4 - 2, c);
                    assert(px == chunk_pixel(av, st0.latest, st0.pixels@));
                    lemma_emit_single(av, st0.latest, st0.pixels@, self.remain.chans as nat);
                }
                Ok(self.save_pixel(px))
            } else {
                let index = (tag % 64) as usize;
                let pixel = self.pixels[index];
                proof {
                    lemma_small_mod(tag as nat, 64);
                    assert(pixel == chunk_pixel(av, st0.latest, st0.pixels@));
                    lemma_emit_single(av, st0.latest, st0.pixels@, self.remain.chans as nat);
                }
                Ok(self.save_pixel(pixel))
            }
        }
    }

    /// One pull: refills the remainder from the next chunk when it has run dry,
    /// then copies up to `buf.len()` pending bytes into the front of `buf`. The
    /// bytes delivered are exactly the next `n` bytes of this reader's stream,
    /// and whatever the reader owed beyond them it still owes afterwards, so
    /// reads of any sizes compose to the same byte sequence.
    pub fn read(&mut self, buf: &mut Vec<u8>) -> (r: Result<usize, QoiError>)
        requires
            old(self).wf(),
        ensures
            final(self).wf(),
            final(self).header == old(self).header,
            final(self).remain.chans == old(self).remain.chans,
            final(buf)@.len() == old(buf)@.len(),
            match r {
                Ok(n) => {
                    &&& n <= old(buf)@.len()
                    &&& final(buf)@.skip(n as int) == old(buf)@.skip(n as int)
                    &&& old(self).stream(n as nat) == Some(final(buf)@.take(n as int))
                    &&& (forall|m: nat|
                        old(self).stream((n + m) as nat) == (match #[trigger] final(self).stream(m) {
                            Some(s) => Some(final(buf)@.take(n as int) + s),
                            None => None::<Seq<u8>>,
                        }))
                    &&& (old(buf)@.len() > 0 ==> n > 0)
                },
                Err(e) => {
                    &&& e == QoiError::TruncatedStream
                    &&& (forall|m: nat| m >= 1 ==> old(self).stream(m) is None)
                    &&& final(buf)@ == old(buf)@
                },
            },
    {
        let ghost st0 = *old(self);
        if self.remain.count == 0 {
            let rem = match self.load_next_pixel() {
                Ok(rm) => rm,
                Err(e) => {
                    proof {
                        assert(st0.remain.pending().len() == 0);
                        assert forall|m: nat| m >= 1 implies st0.stream(m) is None by {
                            assert(decode_stream(
                                st0.remain.pending(),
                                st0.remain.chans as nat,
                                st0.avail(),
                                st0.latest,
                                st0.pixels@,
                                m,
                            ) is None);
                        }
                    }
                    return Err(e);
                },
            };
            self.remain = rem;
        }
        let ghost mid = *self;
        proof {
            let c = st0.remain.chans as nat;
            assert forall|m: nat| st0.stream(m) == mid.stream(m) by {
                if st0.remain.count == 0 {
                    let av = st0.avail();
                    let clen = chunk_len(av[0]) as int;
                    assert(st0.remain.pending().len() == 0);
                    assert(av.skip(clen) =~= mid.avail());
                    if m != 0 {
                        assert(st0.stream(m) == decode_stream(
                            chunk_emit(av, st0.latest, st0.pixels@, c),
                            c,
                            av.skip(clen),
                            chunk_pixel(av, st0.latest, st0.pixels@),
                            chunk_cache(av, st0.latest, st0.pixels@),
                            m,
                        ));
                    }
                } else {
                    assert(mid == st0);
                }
            }
            if st0.remain.count == 0 {
                assert(run_len(st0.avail()[0]) * c >= 1) by (nonlinear_arith)
                    requires
                        run_len(st0.avail()[0]) >= 1,
                        c >= 1,
                ;
            }
            assert(mid.remain.pending().len() == mid.remain.count);
            assert(mid.remain.count >= 1);
        }
        let n = self.remain.read(buf);
        proof {
            let c = mid.remain.chans as nat;
            let pend = mid.remain.pending();
            let ni = n as int;
            assert(buf@.take(ni) =~= pend.take(ni));
            assert(buf@.skip(ni) =~= old(buf)@.skip(ni));
            crate::stream::lemma_stream_drain(
                pend,
                c,
                mid.avail(),
                mid.latest,
                mid.pixels@,
                n as nat,
                n as nat,
            );
            assert(pend.take(ni) + Seq::<u8>::empty() =~= buf@.take(ni));
            assert(mid.stream(n as nat) == Some(buf@.take(ni)));
            assert forall|m: nat|
                st0.stream((n + m) as nat) == (match #[trigger] self.stream(m) {
                    Some(s) => Some(buf@.take(ni) + s),
                    None => None::<Seq<u8>>,
                }) by {
                crate::stream::lemma_stream_drain(
                    pend,
                    c,
                    mid.avail(),
                    mid.latest,
                    mid.pixels@,
                    (n + m) as nat,
                    n as nat,
                );
                assert(self.remain.pending() == pend.skip(ni));
                assert(self.stream(m) == decode_stream(
                    pend.skip(ni),
                    c,
                    mid.avail(),
                    mid.latest,
                    mid.pixels@,
                    m,
                ));
                match self.stream(m) {
                    Some(s) => {
                        assert(pend.take(ni) + s =~= buf@.take(ni) + s);
                    },
                    None => {},
                }
            }
        }
        Ok(n)
    }
}

} // verus!
