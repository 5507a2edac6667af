//! The mathematical model of the decode engine: what one chunk means, and what
//! byte sequence a reader state owes its caller.
use vstd::prelude::*;

use crate::Rgba;

verus! {

/// An 8-bit lane value after wraparound arithmetic.
pub open spec fn wrap8(x: int) -> u8 {
    (x % 256) as u8
}

/// How many bytes a chunk occupies, tag byte included.
pub open spec fn chunk_len(tag: u8) -> nat {
    if tag == 0xff {
        5
    } else if tag == 0xfe {
        4
    } else if tag / 64 == 2 {
        2
    } else {
        1
    }
}

/// Whether the tag is a RUN: top two bits `0b11`, excluding the two literal tags.
pub open spec fn is_run(tag: u8) -> bool {
    tag / 64 == 3 && tag != 0xfe && tag != 0xff
}

/// How many pixels a chunk stands for: the encoded run length for RUN, 1 otherwise.
pub open spec fn run_len(tag: u8) -> nat {
    if is_run(tag) {
        (tag % 64 + 1) as nat
    } else {
        1
    }
}

/// The pixel one chunk decodes to. `input` starts at the tag byte and holds at
/// least `chunk_len` bytes; `latest` is the previously decoded pixel and `cache`
/// the 64-slot lookback table. A RUN repeats `latest`; the delta forms wrap at
/// 8 bits per lane.
pub open spec fn chunk_pixel(input: Seq<u8>, latest: Rgba, cache: Seq<Rgba>) -> Rgba {
    let tag = input[0];
    if tag == 0xff {
        Rgba { r: input[1], g: input[2], b: input[3], a: input[4] }
    } else if tag == 0xfe {
        Rgba { r: input[1], g: input[2], b: input[3], a: latest.a }
    } else if tag / 64 == 3 {
        latest
    } else if tag / 64 == 2 {
        let dg = tag % 64 - 32;
        let dr = input[1] / 16 - 8 + dg;
        let db = input[1] % 16 - 8 + dg;
        Rgba {
            r: wrap8(latest.r + dr),
            g: wrap8(latest.g + dg),
            b: wrap8(latest.b + db),
            a: latest.a,
        }
    } else if tag / 64 == 1 {
        Rgba {
            r: wrap8(latest.r + (tag / 16) % 4 - 2),
            g: wrap8(latest.g + (tag / 4) % 4 - 2),
            b: wrap8(latest.b + tag % 4 - 2),
            a: latest.a,
        }
    } else {
        cache[(tag % 64) as int]
    }
}

/// The cache after one chunk: unchanged for a RUN, otherwise the decoded pixel
/// overwrites its hash slot unconditionally.
pub open spec fn chunk_cache(input: Seq<u8>, latest: Rgba, cache: Seq<Rgba>) -> Seq<Rgba> {
    if is_run(input[0]) {
        cache
    } else {
        let px = chunk_pixel(input, latest, cache);
        cache.update(px.spec_hash(), px)
    }
}

/// The first `chans` lanes of a pixel: its wire representation.
pub open spec fn pix_pattern(px: Rgba, chans: nat) -> Seq<u8> {
    px.spec_bytes().take(chans as int)
}

/// `count` bytes drawn from `pattern` cyclically, starting `offset` bytes in.
pub open spec fn cyc(pattern: Seq<u8>, offset: nat, count: nat) -> Seq<u8> {
    Seq::new(count, |i: int| pattern[(offset + i) % (pattern.len() as int)])
}

/// All the bytes one chunk emits: the decoded pixel's `chans`-byte pattern,
/// `run_len` times over.
pub open spec fn chunk_emit(input: Seq<u8>, latest: Rgba, cache: Seq<Rgba>, chans: nat) -> Seq<
    u8,
> {
    cyc(pix_pattern(chunk_pixel(input, latest, cache), chans), 0, run_len(input[0]) * chans)
}

/// The next `need` bytes a decoder owes, or `None` when the input runs out
/// first. `pending` is decoded-but-undelivered output; while it is empty and
/// bytes are still owed, one chunk is decoded from `input` at a time.
pub open spec fn decode_stream(
    pending: Seq<u8>,
    chans: nat,
    input: Seq<u8>,
    latest: Rgba,
    cache: Seq<Rgba>,
    need: nat,
) -> Option<Seq<u8>>
    decreases need, (if pending.len() == 0 { 1int } else { 0int }),
    via decode_stream_decreases
{
    if need == 0 {
        Some(Seq::empty())
    } else if pending.len() > 0 {
        let take = if need < pending.len() { need as int } else { pending.len() as int };
        match decode_stream(pending.skip(take), chans, input, latest, cache, (need - take) as nat) {
            Some(rest) => Some(pending.take(take) + rest),
            None => None,
        }
    } else if chans == 0 {
        None
    } else if input.len() < 1 || input.len() < chunk_len(input[0]) {
        None
    } else {
        decode_stream(
            chunk_emit(input, latest, cache, chans),
            chans,
            input.skip(chunk_len(input[0]) as int),
            chunk_pixel(input, latest, cache),
            chunk_cache(input, latest, cache),
            need,
        )
    }
}

/// A decoder that succeeds delivers exactly the `need` bytes asked for.
pub proof fn lemma_stream_len(
    pending: Seq<u8>,
    chans: nat,
    input: Seq<u8>,
    latest: Rgba,
    cache: Seq<Rgba>,
    need: nat,
)
    ensures
        match decode_stream(pending, chans, input, latest, cache, need) {
            Some(s) => s.len() == need,
            None => true,
        },
    decreases need, (if pending.len() == 0 { 1int } else { 0int }),
{
    if need == 0 {
    } else if pending.len() > 0 {
        let take = if need < pending.len() { need as int } else { pending.len() as int };
        lemma_stream_len(pending.skip(take), chans, input, latest, cache, (need - take) as nat);
    } else if chans == 0 {
    } else if input.len() < 1 || input.len() < chunk_len(input[0]) {
    } else {
        assert(run_len(input[0]) * chans >= 1) by (nonlinear_arith)
            requires
                run_len(input[0]) >= 1,
                chans >= 1,
        ;
        lemma_stream_len(
            chunk_emit(input, latest, cache, chans),
            chans,
            input.skip(chunk_len(input[0]) as int),
            chunk_pixel(input, latest, cache),
            chunk_cache(input, latest, cache),
            need,
        );
    }
}

/// Draining `j` pending bytes first changes nothing about what the decoder
/// delivers: the `j` bytes come off the front of the pending output and the
/// rest of the stream follows unchanged.
pub proof fn lemma_stream_drain(
    pending: Seq<u8>,
    chans: nat,
    input: Seq<u8>,
    latest: Rgba,
    cache: Seq<Rgba>,
    need: nat,
    j: nat,
)
    requires
        j <= need,
        j <= pending.len(),
    ensures
        decode_stream(pending, chans, input, latest, cache, need) == match decode_stream(
            pending.skip(j as int),
            chans,
            input,
            latest,
            cache,
            (need - j) as nat,
        ) {
            Some(s) => Some(pending.take(j as int) + s),
            None => None::<Seq<u8>>,
        },
{
    let ji = j as int;
    if j == 0 {
        assert(pending.skip(0) =~= pending);
        match decode_stream(pending, chans, input, latest, cache, need) {
            Some(s) => {
                assert(pending.take(0) + s =~= s);
            },
            None => {},
        }
    } else {
        // j >= 1, hence need >= 1 and pending is nonempty.
        let t = if need < pending.len() { need as int } else { pending.len() as int };
        assert(ji <= t);
        let inner = decode_stream(pending.skip(t), chans, input, latest, cache, (need - t) as nat);
        if j == t {
            // Both sides take the same first slice; the remainders coincide.
        } else {
            // j < t: the right-hand side takes its own first slice of length t - j.
            let pending2 = pending.skip(ji);
            let t2 = t - ji;
            assert(pending2.len() == pending.len() - j);
            assert(t2 == (if need - j < pending2.len() { need - j } else { pending2.len() as int }));
            assert(pending2.skip(t2) =~= pending.skip(t));
            assert((need - j - t2) as nat == (need - t) as nat);
            match inner {
                Some(rest) => {
                    assert(pending.take(ji) + (pending2.take(t2) + rest) =~= pending.take(t)
                        + rest);
                },
                None => {},
            }
        }
    }
}

/// Chunked reads cannot change what is decoded: whenever the decoder can
/// deliver `n + m` bytes, asking for only `n` of them delivers exactly the
/// first `n` of the same byte sequence. Reading a stream in any pattern of
/// piece sizes therefore yields the same bytes as one large read.
#[verifier::rlimit(50)]
pub proof fn lemma_stream_prefix(
    pending: Seq<u8>,
    chans: nat,
    input: Seq<u8>,
    latest: Rgba,
    cache: Seq<Rgba>,
    n: nat,
    m: nat,
)
    ensures
        match decode_stream(pending, chans, input, latest, cache, (n + m) as nat) {
            Some(s) => decode_stream(pending, chans, input, latest, cache, n) == Some(
                s.take(n as int),
            ),
            None => true,
        },
    decreases n + m, (if pending.len() == 0 { 1int } else { 0int }),
{
    match decode_stream(pending, chans, input, latest, cache, (n + m) as nat) {
        None => {},
        Some(s) => {
            if n == 0 {
                assert(s.take(0) =~= Seq::<u8>::empty());
            } else if pending.len() > 0 {
                let j: nat = if n < pending.len() { n } else { pending.len() };
                let ji = j as int;
                lemma_stream_drain(pending, chans, input, latest, cache, (n + m) as nat, j);
                lemma_stream_drain(pending, chans, input, latest, cache, n, j);
                match decode_stream(
                    pending.skip(ji),
                    chans,
                    input,
                    latest,
                    cache,
                    (n + m - j) as nat,
                ) {
                    None => {
                        assert(false);
                    },
                    Some(s1) => {
                        lemma_stream_len(
                            pending.skip(ji),
                            chans,
                            input,
                            latest,
                            cache,
                            (n + m - j) as nat,
                        );
                        lemma_stream_prefix(
                            pending.skip(ji),
                            chans,
                            input,
                            latest,
                            cache,
                            (n - j) as nat,
                            m,
                        );
                        assert(s == pending.take(ji) + s1);
                        assert(s.take(n as int) =~= pending.take(ji) + s1.take(n - ji));
                    },
                }
            } else if chans == 0 || input.len() < 1 || input.len() < chunk_len(input[0]) {
                assert(false);
            } else {
                assert(run_len(input[0]) * chans >= 1) by (nonlinear_arith)
                    requires
                        run_len(input[0]) >= 1,
                        chans >= 1,
                ;
                lemma_stream_prefix(
                    chunk_emit(input, latest, cache, chans),
                    chans,
                    input.skip(chunk_len(input[0]) as int),
                    chunk_pixel(input, latest, cache),
                    chunk_cache(input, latest, cache),
                    n,
                    m,
                );
            }
        },
    }
}

/// RUN law: a RUN tag encoding length `n` emits exactly `n` back-to-back copies
/// of whatever pixel was latest immediately before the tag was read, and leaves
/// the cache (and the latest pixel) untouched.
pub proof fn lemma_run_correct(
    input: Seq<u8>,
    latest: Rgba,
    cache: Seq<Rgba>,
    chans: nat,
    k: int,
)
    requires
        is_run(input[0]),
        chans == 3 || chans == 4,
        0 <= k < run_len(input[0]),
    ensures
        chunk_pixel(input, latest, cache) == latest,
        chunk_cache(input, latest, cache) == cache,
        chunk_emit(input, latest, cache, chans).len() == run_len(input[0]) * chans,
        chunk_emit(input, latest, cache, chans).subrange(k * (chans as int), (k + 1) * (
        chans as int)) == pix_pattern(latest, chans),
{
    let c = chans as int;
    let emit = chunk_emit(input, latest, cache, chans);
    let pat = pix_pattern(latest, chans);
    assert(k * c >= 0 && (k + 1) * c <= run_len(input[0]) * c) by (nonlinear_arith)
        requires
            0 <= k < run_len(input[0]),
            c >= 1,
    ;
    assert forall|i: int| 0 <= i < c implies emit[k * c + i] == pat[i] by {
        vstd::arithmetic::div_mod::lemma_mod_multiples_vanish(k, i, c);
        vstd::arithmetic::div_mod::lemma_small_mod(i as nat, chans);
    }
    assert(emit.subrange(k * c, (k + 1) * c) =~= pat);
}

/// INDEX law: an INDEX tag yields exactly the pixel most recently saved into
/// that cache slot, whatever put it there, and emits one copy of it; the
/// recalled pixel is then re-saved into its own hash slot.
pub proof fn lemma_index_correct(input: Seq<u8>, latest: Rgba, cache: Seq<Rgba>, chans: nat)
    requires
        input[0] < 64,
        cache.len() == 64,
        chans == 3 || chans == 4,
    ensures
        chunk_pixel(input, latest, cache) == cache[input[0] as int],
        chunk_cache(input, latest, cache) == cache.update(
            cache[input[0] as int].spec_hash(),
            cache[input[0] as int],
        ),
        chunk_emit(input, latest, cache, chans) == pix_pattern(cache[input[0] as int], chans),
{
    let tag = input[0];
    assert(tag % 64 == tag) by {
        vstd::arithmetic::div_mod::lemma_small_mod(tag as nat, 64);
    }
    lemma_emit_single(input, latest, cache, chans);
}

/// Every chunk but a RUN stands for exactly one pixel, so it emits exactly one
/// copy of the decoded pixel's pattern.
pub proof fn lemma_emit_single(input: Seq<u8>, latest: Rgba, cache: Seq<Rgba>, chans: nat)
    requires
        !is_run(input[0]),
        chans == 3 || chans == 4,
    ensures
        chunk_emit(input, latest, cache, chans) == pix_pattern(
            chunk_pixel(input, latest, cache),
            chans,
        ),
{
    let emit = chunk_emit(input, latest, cache, chans);
    let pat = pix_pattern(chunk_pixel(input, latest, cache), chans);
    assert(emit.len() == 1 * chans);
    assert forall|i: int| 0 <= i < chans implies emit[i] == pat[i] by {
        vstd::arithmetic::div_mod::lemma_small_mod(i as nat, chans);
        assert((0 + i) % (pat.len() as int) == i);
    }
    assert(emit =~= pat);
}

#[via_fn]
proof fn decode_stream_decreases(
    pending: Seq<u8>,
    chans: nat,
    input: Seq<u8>,
    latest: Rgba,
    cache: Seq<Rgba>,
    need: nat,
) {
    if need != 0 && pending.len() == 0 && chans != 0 && input.len() >= 1 && input.len()
        >= chunk_len(input[0]) {
        assert(run_len(input[0]) * chans >= 1) by (nonlinear_arith)
            requires
                run_len(input[0]) >= 1,
                chans >= 1,
        ;
        assert(chunk_emit(input, latest, cache, chans).len() == run_len(input[0]) * chans);
    }
}

} // verus!
