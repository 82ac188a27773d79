//! Core pieces of a DEFLATE-style compressor: a bit-packing output buffer
//! writing to a caller-supplied byte sink, canonical Huffman code
//! construction with encode/decode sessions, and an LZ77 backreference
//! matcher over a sliding window.

use vstd::prelude::*;

pub mod huffman;
pub mod lz77;

verus! {

use vstd::arithmetic::power2::pow2;
use vstd::arithmetic::power2::lemma2_to64;
use vstd::arithmetic::power2::lemma_pow2_unfold;
use vstd::arithmetic::power2::lemma_pow2_strictly_increases;

/// Value of a bit sequence read most-significant-bit first.
pub open spec fn bits_val(bits: Seq<bool>) -> nat
    decreases bits.len(),
{
    if bits.len() == 0 {
        0
    } else {
        (2 * bits_val(bits.drop_last()) + (if bits.last() {
            1nat
        } else {
            0nat
        })) as nat
    }
}

proof fn lemma_bits_val_bound(bits: Seq<bool>)
    ensures
        bits_val(bits) < pow2(bits.len()),
    decreases bits.len(),
{
    lemma2_to64();
    if bits.len() > 0 {
        lemma_bits_val_bound(bits.drop_last());
        lemma_pow2_unfold(bits.len());
    }
}

/// The byte that a full group of 8 bits packs to.
pub open spec fn byte_of(bits: Seq<bool>) -> u8 {
    bits_val(bits) as u8
}

/// The byte a forced flush emits: the pending bits, zero-padded at the low end.
pub open spec fn flush_byte(bits: Seq<bool>) -> u8 {
    (bits_val(bits) * pow2((8 - bits.len()) as nat)) as u8
}

/// One bit entering the buffer: it joins the pending bits, and once eight are
/// collected they leave as one byte to the sink.
pub open spec fn spec_put_bit(pending: Seq<bool>, sunk: Seq<u8>, bit: bool) -> (Seq<bool>, Seq<
    u8,
>) {
    if pending.len() < 7 {
        (pending.push(bit), sunk)
    } else {
        (Seq::<bool>::empty(), sunk.push(byte_of(pending.push(bit))))
    }
}

/// A run of bits entering the buffer, first element first.
pub open spec fn spec_put_bits(pending: Seq<bool>, sunk: Seq<u8>, bits: Seq<bool>) -> (Seq<
    bool,
>, Seq<u8>)
    decreases bits.len(),
{
    if bits.len() == 0 {
        (pending, sunk)
    } else {
        let st = spec_put_bit(pending, sunk, bits[0]);
        spec_put_bits(st.0, st.1, bits.skip(1))
    }
}

/// The low `n` bits of `v`, most significant of them first.
pub open spec fn low_bits(v: u8, n: nat) -> Seq<bool> {
    Seq::new(n, |i: int| (v >> ((n - 1 - i) as u8)) & 1 == 1)
}

proof fn lemma_put_bits_snoc(pending: Seq<bool>, sunk: Seq<u8>, bits: Seq<bool>, x: bool)
    ensures
        spec_put_bits(pending, sunk, bits.push(x)) == ({
            let st = spec_put_bits(pending, sunk, bits);
            spec_put_bit(st.0, st.1, x)
        }),
    decreases bits.len(),
{
    if bits.len() == 0 {
        assert(bits.push(x)[0] == x);
        assert(bits.push(x).skip(1) =~= Seq::<bool>::empty());
        let st1 = spec_put_bit(pending, sunk, x);
        assert(spec_put_bits(pending, sunk, bits.push(x)) == spec_put_bits(
            st1.0,
            st1.1,
            Seq::<bool>::empty(),
        ));
        assert(spec_put_bits(st1.0, st1.1, Seq::<bool>::empty()) == (st1.0, st1.1));
        assert(spec_put_bits(pending, sunk, bits) == (pending, sunk));
        assert(spec_put_bit(pending, sunk, x) == (st1.0, st1.1));
    } else {
        assert(bits.push(x)[0] == bits[0]);
        assert(bits.push(x).skip(1) =~= bits.skip(1).push(x));
        let st = spec_put_bit(pending, sunk, bits[0]);
        lemma_put_bits_snoc(st.0, st.1, bits.skip(1), x);
        assert(spec_put_bits(pending, sunk, bits.push(x)) == spec_put_bits(
            st.0,
            st.1,
            bits.skip(1).push(x),
        ));
        assert(spec_put_bits(pending, sunk, bits) == spec_put_bits(st.0, st.1, bits.skip(1)));
    }
}

/// Bits that fit beside the pending ones without completing a byte are
/// simply appended: no byte leaves, so no sink call is made.
proof fn lemma_put_bits_no_flush(pending: Seq<bool>, sunk: Seq<u8>, bits: Seq<bool>)
    requires
        pending.len() + bits.len() <= 7,
    ensures
        spec_put_bits(pending, sunk, bits) == (pending + bits, sunk),
    decreases bits.len(),
{
    if bits.len() == 0 {
        assert(pending + bits =~= pending);
    } else {
        lemma_put_bits_no_flush(pending.push(bits[0]), sunk, bits.skip(1));
        assert(pending.push(bits[0]) + bits.skip(1) =~= pending + bits);
    }
}

/// Error raised by a byte sink; the bit buffer propagates it unchanged and
/// never retries.
#[derive(Clone, Copy, PartialEq, Eq, Debug)]
pub struct SinkError;

/// A byte sink: the capability the bit buffer writes completed bytes to.
/// `bytes()` is the history of bytes accepted so far; a sink that can never
/// fail reports `always_ok()`.
pub trait ByteSink: Sized {
    spec fn bytes(&self) -> Seq<u8>;

    spec fn always_ok(&self) -> bool;

    fn write_byte(&mut self, b: u8) -> (r: Result<(), SinkError>)
        ensures
            final(self).always_ok() == old(self).always_ok(),
            r is Ok ==> final(self).bytes() == old(self).bytes().push(b),
            r is Err ==> final(self).bytes() == old(self).bytes(),
            old(self).always_ok() ==> r is Ok,
    ;
}

/// An in-memory sink that accumulates every byte in a vector and never fails.
pub struct VecSink {
    pub data: Vec<u8>,
}

impl VecSink {
    pub fn new() -> (r: VecSink)
        ensures
            r.bytes() == Seq::<u8>::empty(),
    {
        VecSink { data: Vec::new() }
    }
}

impl ByteSink for VecSink {
    open spec fn bytes(&self) -> Seq<u8> {
        self.data@
    }

    open spec fn always_ok(&self) -> bool {
        true
    }

    fn write_byte(&mut self, b: u8) -> (r: Result<(), SinkError>) {
        self.data.push(b);
        Ok(())
    }
}

/// Packs bits most-significant-bit first into a one-byte accumulator; a high
/// sentinel bit tracks the fill level, so no separate counter is kept. Each
/// completed byte goes to the sink in exactly one `write_byte` call; a sink
/// failure propagates at once and the buffered bits are dropped.
pub struct BitBuf<W: ByteSink> {
    cur: u8,
    out: W,
    bits: Ghost<Seq<bool>>,
}

impl<W: ByteSink> BitBuf<W> {
    /// The bits accepted so far that have not yet left as a byte (fewer than 8).
    pub closed spec fn pending(&self) -> Seq<bool> {
        self.bits@
    }

    /// The bytes the sink has accepted.
    pub closed spec fn sunk(&self) -> Seq<u8> {
        self.out.bytes()
    }

    pub closed spec fn sink_ok(&self) -> bool {
        self.out.always_ok()
    }

    /// The accumulator holds exactly the sentinel bit followed by the pending bits.
    pub closed spec fn wf(&self) -> bool {
        &&& self.bits@.len() <= 7
        &&& self.cur as nat == pow2(self.bits@.len()) + bits_val(self.bits@)
    }

    pub fn new(out: W) -> (r: BitBuf<W>)
        ensures
            r.wf(),
            r.pending() == Seq::<bool>::empty(),
            r.sunk() == out.bytes(),
            r.sink_ok() == out.always_ok(),
    {
        proof {
            lemma2_to64();
        }
        BitBuf { cur: 0x1, out, bits: Ghost(Seq::empty()) }
    }

    /// Recover the sink (the buffered bits, if any, are dropped).
    pub fn into_inner(self) -> (r: W)
        ensures
            r.bytes() == self.sunk(),
            r.always_ok() == self.sink_ok(),
    {
        self.out
    }

    pub fn put(&mut self, bit: bool) -> (r: Result<(), SinkError>)
        requires
            old(self).wf(),
        ensures
            final(self).wf(),
            final(self).sink_ok() == old(self).sink_ok(),
            old(self).sink_ok() ==> r is Ok,
            old(self).pending().len() < 7 ==> r is Ok,
            r is Ok ==> ({
                let st = spec_put_bit(old(self).pending(), old(self).sunk(), bit);
                final(self).pending() == st.0 && final(self).sunk() == st.1
            }),
            r is Err ==> final(self).pending() == Seq::<bool>::empty() && final(self).sunk()
                == old(self).sunk(),
    {
        proof {
            lemma2_to64();
            lemma_bits_val_bound(self.bits@);
            if self.bits@.len() < 7 {
                lemma_pow2_strictly_increases(self.bits@.len(), 7);
            }
        }
        let ghost l = self.bits@.len();
        let ghost v = bits_val(self.bits@);
        let b: u8 = if bit {
            1
        } else {
            0
        };
        let flush = (self.cur & 0x80) != 0;
        proof {
            let c = self.cur;
            assert((c & 0x80 != 0) == (c >= 128)) by (bit_vector);
        }
        if flush {
            assert(l == 7);
            let byte = (self.cur << 1) | b;
            proof {
                let c = self.cur;
                assert(c >= 128 && b <= 1 ==> ((c << 1) | b) == 2 * (c - 128) + b)
                    by (bit_vector);
                assert(self.bits@.push(bit).drop_last() =~= self.bits@);
                lemma_bits_val_bound(self.bits@.push(bit));
            }
            assert(byte == byte_of(self.bits@.push(bit)));
            let ghost oldbits = self.bits@;
            self.cur = 1;
            self.bits = Ghost(Seq::empty());
            let r = self.out.write_byte(byte);
            match r {
                Ok(_) => Ok(()),
                Err(e) => Err(e),
            }
        } else {
            assert(self.cur <= 127);
            let nc = (self.cur << 1) | b;
            proof {
                let c = self.cur;
                assert(c <= 127 && b <= 1 ==> ((c << 1) | b) == 2 * c + b) by (bit_vector);
                assert(self.bits@.push(bit).drop_last() =~= self.bits@);
                lemma_pow2_unfold(l + 1);
            }
            self.cur = nc;
            self.bits = Ghost(self.bits@.push(bit));
            Ok(())
        }
    }

    /// Emit the low `N` bits of `b`, most significant of them first, as used
    /// for fixed-width header fields.
    pub fn putnc<const N: usize>(&mut self, b: u8) -> (r: Result<(), SinkError>)
        requires
            old(self).wf(),
            N <= 8,
        ensures
            final(self).wf(),
            final(self).sink_ok() == old(self).sink_ok(),
            old(self).sink_ok() ==> r is Ok,
            old(self).pending().len() + N < 8 ==> r is Ok,
            r is Ok ==> ({
                let st = spec_put_bits(
                    old(self).pending(),
                    old(self).sunk(),
                    low_bits(b, N as nat),
                );
                final(self).pending() == st.0 && final(self).sunk() == st.1
            }),
            r is Err ==> final(self).pending() == Seq::<bool>::empty() && exists|j: int|
                0 <= j <= N && final(self).sunk() == (#[trigger] spec_put_bits(
                    old(self).pending(),
                    old(self).sunk(),
                    low_bits(b, N as nat).take(j),
                )).1,
    {
        let ghost p0 = self.pending();
        let ghost s0 = self.sunk();
        let ghost all = low_bits(b, N as nat);
        let mut k: usize = N;
        proof {
            assert(all.take(0) =~= Seq::<bool>::empty());
        }
        while k > 0
            invariant
                self.wf(),
                N <= 8,
                k <= N,
                self.sink_ok() == old(self).sink_ok(),
                p0 == old(self).pending(),
                s0 == old(self).sunk(),
                all == low_bits(b, N as nat),
                (self.pending(), self.sunk()) == spec_put_bits(p0, s0, all.take(N - k)),
            decreases k,
        {
            k = k - 1;
            let kk: u8 = k as u8;
            let bit = (b & (1u8 << kk)) != 0;
            proof {
                assert(kk < 8 ==> ((b & (1u8 << kk) != 0) == ((b >> kk) & 1 == 1)))
                    by (bit_vector);
                assert(all[N - k - 1] == bit);
            }
            let r = self.put(bit);
            match r {
                Ok(_) => {
                    proof {
                        lemma_put_bits_snoc(p0, s0, all.take(N - k - 1), all[N - k - 1]);
                        assert(all.take(N - k - 1).push(all[N - k - 1]) =~= all.take(N - k));
                    }
                },
                Err(e) => {
                    proof {
                        if p0.len() + N < 8 {
                            lemma_put_bits_no_flush(p0, s0, all.take(N - k - 1));
                            assert(false);
                        }
                        assert(0 <= N - k - 1 <= N);
                        assert(self.sunk() == spec_put_bits(p0, s0, all.take(N - k - 1)).1);
                    }
                    return Err(e);
                },
            }
        }
        proof {
            assert(all.take(N as int) =~= all);
        }
        Ok(())
    }

    /// Forced flush: pad the pending bits with zeros at the low end and write
    /// them as one byte; with nothing pending, nothing is written. Callers
    /// must track the exact number of emitted bits to avoid reading pad bits
    /// as data.
    pub fn write_flush(&mut self) -> (r: Result<(), SinkError>)
        requires
            old(self).wf(),
        ensures
            final(self).wf(),
            final(self).pending() == Seq::<bool>::empty(),
            final(self).sink_ok() == old(self).sink_ok(),
            old(self).sink_ok() ==> r is Ok,
            old(self).pending().len() == 0 ==> r is Ok,
            r is Ok && old(self).pending().len() == 0 ==> final(self).sunk() == old(self).sunk(),
            r is Ok && old(self).pending().len() > 0 ==> final(self).sunk() == old(self).sunk()
                .push(flush_byte(old(self).pending())),
            r is Err ==> final(self).sunk() == old(self).sunk(),
    {
        proof {
            lemma2_to64();
            lemma_bits_val_bound(self.bits@);
        }
        if self.cur == 1 {
            proof {
                if self.bits@.len() > 0 {
                    lemma_pow2_strictly_increases(0, self.bits@.len());
                }
            }
            assert(self.bits@.len() == 0);
            self.bits = Ghost(Seq::empty());
            return Ok(());
        }
        let ghost l = self.bits@.len();
        let ghost v = bits_val(self.bits@);
        let ghost mut j: nat = 0;
        proof {
            if l == 0 {
                assert(pow2(0) == 1);
                assert(self.cur == 1);
            }
            assert((pow2(l) + v) * pow2(0) == pow2(l) + v) by (nonlinear_arith)
                requires
                    pow2(0) == 1,
            ;
        }
        while self.cur & 0x80 == 0
            invariant
                1 <= l <= 7,
                l + j <= 7,
                v == bits_val(self.bits@),
                v < pow2(l),
                l == self.bits@.len(),
                self.bits@ == old(self).bits@,
                self.out == old(self).out,
                self.cur as nat == (pow2(l) + v) * pow2(j),
            decreases 7 - l - j,
        {
            proof {
                let c = self.cur;
                assert((c & 0x80 == 0) == (c < 128)) by (bit_vector);
                lemma2_to64();
                vstd::arithmetic::power2::lemma_pow2_adds(l, j);
                if l + j == 7 {
                    assert((pow2(l) + v) * pow2(j) >= pow2(l) * pow2(j)) by (nonlinear_arith)
                        requires
                            pow2(j) > 0,
                            v >= 0,
                    ;
                    assert(self.cur as nat >= pow2(7));
                }
                assert(l + j <= 6);
                assert((pow2(l) + v) * pow2(j) < pow2(l + j + 1)) by (nonlinear_arith)
                    requires
                        v < pow2(l),
                        pow2(j) > 0,
                        pow2(l + j) == pow2(l) * pow2(j),
                        pow2(l + j + 1) == 2 * pow2(l + j),
                ;
                vstd::arithmetic::power2::lemma_pow2_strictly_increases(l + j + 1, 8);
                assert(self.cur < 128) by {
                    assert(pow2(l + j + 1) <= pow2(7));
                };
                let c2 = self.cur;
                assert(c2 < 128 ==> (c2 << 1) == 2 * c2) by (bit_vector);
            }
            let newcur = self.cur << 1;
            proof {
                assert(2 * ((pow2(l) + v) * pow2(j)) == (pow2(l) + v) * pow2(j + 1))
                    by (nonlinear_arith)
                    requires
                        pow2(j + 1) == 2 * pow2(j),
                ;
                lemma_pow2_unfold(j + 1);
            }
            self.cur = newcur;
            proof {
                j = j + 1;
            }
        }
        // the sentinel has reached the top bit: l + j == 7
        proof {
            let c = self.cur;
            assert(!(c & 0x80 == 0) ==> (c >= 128)) by (bit_vector);
            lemma2_to64();
            vstd::arithmetic::power2::lemma_pow2_adds(l, j);
            if l + j <= 6 {
                assert((pow2(l) + v) * pow2(j) < pow2(l + j + 1)) by (nonlinear_arith)
                    requires
                        v < pow2(l),
                        pow2(j) > 0,
                        pow2(l + j) == pow2(l) * pow2(j),
                        pow2(l + j + 1) == 2 * pow2(l + j),
                ;
                vstd::arithmetic::power2::lemma_pow2_strictly_increases(l + j + 1, 8);
                assert(false);
            }
            assert(l + j == 7);
            assert((pow2(l) + v) * pow2(j) == pow2(7) + v * pow2(j)) by (nonlinear_arith)
                requires
                    pow2(l) * pow2(j) == pow2(l + j),
                    l + j == 7,
                    pow2(7) == pow2(l + j),
            ;
            assert(v * pow2(j) < pow2(7)) by (nonlinear_arith)
                requires
                    v < pow2(l),
                    pow2(j) > 0,
                    pow2(l) * pow2(j) == pow2(l + j),
                    l + j == 7,
                    pow2(7) == pow2(l + j),
            ;
        }
        // drop the sentinel: the remaining bits, zero-padded, form the byte
        let byte = self.cur << 1;
        proof {
            let c = self.cur;
            assert(c >= 128 ==> (c << 1) == 2 * (c - 128)) by (bit_vector);
            assert(2 * (v * pow2(j)) == v * pow2(j + 1)) by (nonlinear_arith)
                requires
                    pow2(j + 1) == 2 * pow2(j),
            ;
            lemma_pow2_unfold(j + 1);
            assert(j + 1 == (8 - l) as nat);
            assert(byte == flush_byte(self.bits@));
        }
        self.cur = 1;
        let ghost oldbits = self.bits@;
        self.bits = Ghost(Seq::empty());
        proof {
            lemma2_to64();
        }
        let r = self.out.write_byte(byte);
        match r {
            Ok(_) => Ok(()),
            Err(e) => Err(e),
        }
    }

    /// Convenience for the header writers below: the exact bits, without the
    /// pending/sunk split.
    pub open spec fn state_after(self, bits: Seq<bool>) -> (Seq<bool>, Seq<u8>) {
        spec_put_bits(self.pending(), self.sunk(), bits)
    }

    /// Discard any buffered bits without writing.
    pub fn reset(&mut self)
        ensures
            final(self).wf(),
            final(self).pending() == Seq::<bool>::empty(),
            final(self).sunk() == old(self).sunk(),
            final(self).sink_ok() == old(self).sink_ok(),
    {
        proof {
            lemma2_to64();
        }
        self.cur = 1;
        self.bits = Ghost(Seq::empty());
    }
}

/// Something that can write itself as a fixed sequence of header bits.
pub trait WriteHeader {
    /// The exact bits this header writes, first bit first.
    spec fn header_bits(&self) -> Seq<bool>;

    fn hwrite<W: ByteSink>(&self, out: &mut BitBuf<W>) -> (r: Result<(), SinkError>)
        requires
            old(out).wf(),
        ensures
            final(out).wf(),
            final(out).sink_ok() == old(out).sink_ok(),
            old(out).sink_ok() ==> r is Ok,
            r is Ok ==> (final(out).pending(), final(out).sunk()) == old(out).state_after(
                self.header_bits(),
            ),
            r is Err ==> final(out).pending() == Seq::<bool>::empty(),
    ;
}

/// A DEFLATE block header: a final-block flag followed by the block kind.
pub struct DeflateHeader {
    pub last: bool,
    pub kind: DeflateHeaderKind,
}

impl WriteHeader for DeflateHeader {
    open spec fn header_bits(&self) -> Seq<bool> {
        seq![self.last] + self.kind.header_bits()
    }

    fn hwrite<W: ByteSink>(&self, out: &mut BitBuf<W>) -> (r: Result<(), SinkError>) {
        let ghost p0 = out.pending();
        let ghost s0 = out.sunk();
        let r = out.put(self.last);
        match r {
            Ok(_) => {
                let rk = self.kind.hwrite(out);
                proof {
                    let all = self.header_bits();
                    assert(all[0] == self.last);
                    assert(all.skip(1) =~= self.kind.header_bits());
                    assert(spec_put_bits(p0, s0, all) == ({
                        let st = spec_put_bit(p0, s0, self.last);
                        spec_put_bits(st.0, st.1, self.kind.header_bits())
                    }));
                }
                rk
            },
            Err(e) => Err(e),
        }
    }
}

/// The three DEFLATE block kinds, encoded as a two-bit code.
pub enum DeflateHeaderKind {
    Stored,
    StaticHf,
    DynamicHf,
}

impl WriteHeader for DeflateHeaderKind {
    open spec fn header_bits(&self) -> Seq<bool> {
        match self {
            DeflateHeaderKind::Stored => seq![false, false],
            DeflateHeaderKind::StaticHf => seq![false, true],
            DeflateHeaderKind::DynamicHf => seq![true, false],
        }
    }

    fn hwrite<W: ByteSink>(&self, out: &mut BitBuf<W>) -> (r: Result<(), SinkError>) {
        proof {
            assert(((0b00u8 >> 1) & 1) == 0 && ((0b00u8 >> 0) & 1) == 0 && ((0b01u8 >> 1) & 1)
                == 0 && ((0b01u8 >> 0) & 1) == 1 && ((0b10u8 >> 1) & 1) == 1 && ((0b10u8 >> 0)
                & 1) == 0) by (bit_vector);
            assert(low_bits(0b00u8, 2) =~= seq![false, false]);
            assert(low_bits(0b01u8, 2) =~= seq![false, true]);
            assert(low_bits(0b10u8, 2) =~= seq![true, false]);
        }
        match self {
            DeflateHeaderKind::Stored => out.putnc::<2>(0b00),
            DeflateHeaderKind::StaticHf => out.putnc::<2>(0b01),
            DeflateHeaderKind::DynamicHf => out.putnc::<2>(0b10),
        }
    }
}

} // verus!
