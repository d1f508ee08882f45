//! Reading and writing bits, most significant bit first (§1.6.1).

use vstd::prelude::*;
use vstd::arithmetic::power2::*;
use vstd::bits::*;
use crate::codec::bits;

verus! {

/// Bit writer, most significant bit first. Its view is the bits written so
/// far.
pub struct BitWriter {
    buf: Vec<u8>,
    cur: u8,
    nbits: u8,
    total_bits: u64,
}

impl View for BitWriter {
    type V = Seq<bool>;

    closed spec fn view(&self) -> Seq<bool> {
        bits::bits_of_bytes(self.buf@) + bits::bits_of(self.cur as nat, self.nbits as nat)
    }
}

impl BitWriter {
    /// The writer's internal counts agree with the bits that it holds.
    pub closed spec fn wf(&self) -> bool {
        &&& self.nbits < 8
        &&& self.cur < pow2(self.nbits as nat)
        &&& self.total_bits == 8 * self.buf@.len() + self.nbits
    }

    /// A writer that has written nothing.
    pub fn new() -> (w: Self)
        ensures
            w.wf(),
            w@ == Seq::<bool>::empty(),
    {
        let w = BitWriter { buf: Vec::new(), cur: 0, nbits: 0, total_bits: 0 };
        proof {
            lemma2_to64();
            assert(w@ =~= Seq::<bool>::empty());
        }
        w
    }

    /// Appends one bit.
    pub fn put_bit(&mut self, bit: bool)
        requires
            old(self).wf(),
            old(self)@.len() < u64::MAX,
        ensures
            final(self).wf(),
            final(self)@ == old(self)@.push(bit),
    {
        proof {
            bits::lemma_bits_of_len(self.cur as nat, self.nbits as nat);
            lemma_pow2_unfold((self.nbits + 1) as nat);
            lemma2_to64();
            if self.nbits < 7 {
                lemma_pow2_strictly_increases((self.nbits + 1) as nat, 8);
            }
            let c = self.cur;
            assert(c < 128 ==> (c << 1) | 1 == 2 * c + 1) by (bit_vector);
            assert(c < 128 ==> (c << 1) | 0 == 2 * c) by (bit_vector);
            if self.nbits < 7 {
                lemma_pow2_strictly_increases(self.nbits as nat, 7);
            }
        }
        let ghost before = self.cur;
        let low: u8 = if bit { 1 } else { 0 };
        self.cur = (self.cur << 1) | low;
        self.nbits += 1;
        self.total_bits += 1;
        proof {
            bits::lemma_bits_of_len(self.cur as nat, self.nbits as nat);
            assert(self.cur as nat / 2 == before);
            assert(bits::bits_of(self.cur as nat, self.nbits as nat) =~= bits::bits_of(
                before as nat,
                (self.nbits - 1) as nat,
            ).push(bit));
            assert(self@ =~= old(self)@.push(bit));
        }
        if self.nbits == 8 {
            proof {
                bits::lemma_bits_of_bytes_push(self.buf@, self.cur);
            }
            self.buf.push(self.cur);
            self.cur = 0;
            self.nbits = 0;
            assert(self@ =~= old(self)@.push(bit));
        }
    }

    /// Appends the `n` least significant bits of `v`, most significant first.
    pub fn put_bits(&mut self, v: u32, n: u8)
        requires
            old(self).wf(),
            n <= 32,
            old(self)@.len() + n <= u64::MAX,
        ensures
            final(self).wf(),
            final(self)@ == old(self)@ + bits::bits_of(v as nat, n as nat),
    {
        let mut i: u8 = n;
        proof {
            bits::lemma_bits_of_len(v as nat / pow2(i as nat), 0);
            assert(self@ =~= old(self)@ + bits::bits_of(v as nat / pow2(i as nat), 0));
        }
        while i > 0
            invariant
                i <= n <= 32,
                self.wf(),
                old(self)@.len() + n <= u64::MAX,
                self@.len() == old(self)@.len() + (n - i),
                self@ == old(self)@ + bits::bits_of(v as nat / pow2(i as nat), (n - i) as nat),
            decreases i,
        {
            let ghost high = v as nat / pow2(i as nat);
            i -= 1;
            let k: u32 = i as u32;
            let word = v >> k;
            proof {
                lemma_u32_shr_is_div(v, k);
                assert(word & 1 == word % 2) by (bit_vector);
                lemma_pow2_unfold((i + 1) as nat);
                lemma_pow2_pos(i as nat);
                vstd::arithmetic::div_mod::lemma_div_denominator(v as int, pow2(i as nat) as int, 2);
                assert(word as nat / 2 == high);
            }
            self.put_bit(word & 1 != 0);
            proof {
                assert(bits::bits_of(word as nat, (n - i) as nat) =~= bits::bits_of(
                    high,
                    (n - i - 1) as nat,
                ).push(word % 2 == 1));
                assert(self@ =~= old(self)@ + bits::bits_of(word as nat, (n - i) as nat));
            }
        }
        proof {
            lemma2_to64();
            assert(v as nat / pow2(0) == v);
        }
    }

    /// Number of bits written so far.
    pub fn bit_len(&self) -> (n: u64)
        requires
            self.wf(),
        ensures
            n == self@.len(),
    {
        proof {
            bits::lemma_bits_of_len(self.cur as nat, self.nbits as nat);
        }
        self.total_bits
    }

    /// Ends the stream: the bits written, padded with zeros to a whole number
    /// of bytes.
    pub fn finish(self) -> (bytes: Vec<u8>)
        requires
            self.wf(),
        ensures
            bytes@.len() == (self@.len() + 7) / 8,
            bits::bits_of_bytes(bytes@) == self@ + bits::zeros(
                (8 * bytes@.len() - self@.len()) as nat,
            ),
    {
        proof {
            bits::lemma_bits_of_len(self.cur as nat, self.nbits as nat);
        }
        let mut buf = self.buf;
        if self.nbits > 0 {
            let pad: u8 = 8 - self.nbits;
            let last = self.cur << pad;
            proof {
                let (c, k) = (self.cur, self.nbits);
                lemma2_to64();
                lemma_pow2_adds(k as nat, pad as nat);
                assert(c as nat * pow2(pad as nat) < pow2(8)) by (nonlinear_arith)
                    requires
                        c < pow2(k as nat),
                        pow2(k as nat) * pow2(pad as nat) == pow2(8),
                        pow2(pad as nat) > 0,
                ;
                lemma_u8_shl_is_mul(c, pad);
                assert(last == c as nat * pow2(pad as nat));
                bits::lemma_bits_of_split(last as nat, k as nat, pad as nat);
                lemma_pow2_pos(pad as nat);
                vstd::arithmetic::div_mod::lemma_div_multiples_vanish(c as int, pow2(pad as nat) as int);
                vstd::arithmetic::mul::lemma_mul_is_commutative(c as int, pow2(pad as nat) as int);
                bits::lemma_low_bits_of_multiple(c as nat, pad as nat);
                bits::lemma_bits_of_bytes_push(buf@, last);
            }
            buf.push(last);
            assert(bits::bits_of_bytes(buf@) =~= self@ + bits::zeros(
                (8 * buf@.len() - self@.len()) as nat,
            ));
        } else {
            assert(bits::bits_of_bytes(buf@) =~= self@ + bits::zeros(0));
        }
        buf
    }
}

/// Bit reader, most significant bit first. `None` marks the end of the
/// stream.
pub struct BitReader<'a> {
    data: &'a [u8],
    /// Position in bits from the start.
    pos: u64,
}

impl<'a> BitReader<'a> {
    /// All the bits of the stream.
    pub closed spec fn bits(&self) -> Seq<bool> {
        bits::bits_of_bytes(self.data@)
    }

    /// The position of the next bit to read.
    pub closed spec fn at(&self) -> nat {
        self.pos as nat
    }

    /// The number of bits in the stream can be counted in 64 bits.
    pub open spec fn wf(&self) -> bool {
        self.bits().len() <= u64::MAX
    }

    /// A reader at the start of `data`.
    pub fn new(data: &'a [u8]) -> (r: Self)
        ensures
            r.bits() == bits::bits_of_bytes(data@),
            r.at() == 0,
    {
        BitReader { data, pos: 0 }
    }

    /// The position of the next bit to read.
    pub fn bit_pos(&self) -> (p: u64)
        ensures
            p == self.at(),
    {
        self.pos
    }

    /// Moves to a position.
    pub fn seek(&mut self, bit_pos: u64)
        ensures
            final(self).bits() == old(self).bits(),
            final(self).at() == bit_pos,
    {
        self.pos = bit_pos;
    }

    /// Number of bits from the position to the end of the stream.
    pub fn remaining(&self) -> (n: u64)
        requires
            self.wf(),
        ensures
            n == (if self.at() <= self.bits().len() { self.bits().len() - self.at() } else { 0 }),
    {
        let total: u64 = self.data.len() as u64 * 8;
        if self.pos <= total { total - self.pos } else { 0 }
    }

    /// Reads one bit.
    pub fn read_bit(&mut self) -> (bit: Option<bool>)
        requires
            old(self).wf(),
        ensures
            final(self).bits() == old(self).bits(),
            old(self).at() < old(self).bits().len() ==> bit == Some(
                old(self).bits()[old(self).at() as int],
            ) && final(self).at() == old(self).at() + 1,
            old(self).at() >= old(self).bits().len() ==> bit is None && final(self).at()
                == old(self).at(),
    {
        if self.pos / 8 >= self.data.len() as u64 {
            return None;
        }
        let byte = self.data[(self.pos / 8) as usize];
        let k: u8 = (7 - self.pos % 8) as u8;
        let word = byte >> k;
        proof {
            bits::lemma_bits_of_index(byte as nat, 8, (self.pos % 8) as int);
            lemma_u8_shr_is_div(byte, k);
            assert(word & 1 == word % 2) by (bit_vector);
        }
        self.pos += 1;
        Some(word & 1 != 0)
    }

    /// Reads a number of `n` bits, most significant bit first. Nothing is
    /// consumed where fewer bits remain.
    pub fn read_bits(&mut self, n: u8) -> (v: Option<u32>)
        requires
            old(self).wf(),
            n <= 32,
        ensures
            final(self).bits() == old(self).bits(),
            match bits::number_at(old(self).bits(), old(self).at(), n as nat) {
                Some(x) => {
                    &&& v == Some(x as u32)
                    &&& x <= u32::MAX
                    &&& final(self).at() == old(self).at() + n
                },
                None => v is None && final(self).at() == old(self).at(),
            },
    {
        if n == 0 {
            return Some(0);
        }
        if self.remaining() < n as u64 {
            return None;
        }
        let mut v: u32 = 0;
        let mut i: u8 = 0;
        let ghost p = self.at();
        let ghost all = self.bits();
        assert(all.subrange(p as int, p as int) =~= Seq::<bool>::empty());
        while i < n
            invariant
                self.wf(),
                i <= n <= 32,
                p + n <= all.len(),
                self.bits() == all,
                self.at() == p + i,
                v == bits::value_of(all.subrange(p as int, p + i)),
            decreases n - i,
        {
            let ghost before = v;
            match self.read_bit() {
                Some(b) => {
                    let low: u32 = if b { 1 } else { 0 };
                    proof {
                        let seen = all.subrange(p as int, p + i);
                        bits::lemma_value_bound(seen);
                        lemma2_to64();
                        if i < 31 {
                            lemma_pow2_strictly_increases(i as nat, 31);
                        }
                        assert(v < 0x8000_0000 ==> (v << 1) | 1 == 2 * v + 1) by (bit_vector);
                        assert(v < 0x8000_0000 ==> (v << 1) | 0 == 2 * v) by (bit_vector);
                        assert(all.subrange(p as int, p + i + 1).drop_last() =~= seen);
                    }
                    v = (v << 1) | low;
                },
                None => {
                    return None;
                },
            }
            i += 1;
        }
        Some(v)
    }

    /// Looks at the next `n` bits without consuming them.
    pub fn peek_bits(&mut self, n: u8) -> (v: Option<u32>)
        requires
            old(self).wf(),
            n <= 32,
        ensures
            final(self).bits() == old(self).bits(),
            final(self).at() == old(self).at(),
            match bits::number_at(old(self).bits(), old(self).at(), n as nat) {
                Some(x) => v == Some(x as u32) && x <= u32::MAX,
                None => v is None,
            },
    {
        let save = self.pos;
        let v = self.read_bits(n);
        self.pos = save;
        v
    }
}

} // verus!
