//! A nibble-wise delta coding with variable-length bit codes.
use crate::bytes::StBytesMut;
use vstd::prelude::*;

verus! {

/// The nibbles of `data`, low nibble first.
pub open spec fn c999_nibbles(data: Seq<u8>) -> Seq<u8>
    decreases data.len(),
{
    if data.len() == 0 {
        Seq::<u8>::empty()
    } else {
        seq![data[0] % 16, data[0] / 16] + c999_nibbles(data.drop_first())
    }
}

/// Number of binary digits of `v`.
pub open spec fn bit_len(v: nat) -> nat
    decreases v,
{
    if v == 0 {
        0
    } else {
        1 + bit_len(v / 2)
    }
}

pub open spec fn pow2(e: nat) -> nat
    decreases e,
{
    if e == 0 {
        1
    } else {
        2 * pow2((e - 1) as nat)
    }
}

/// The `len` lowest bits of `v`, lowest first.
pub open spec fn low_bits(v: nat, len: nat) -> Seq<bool>
    decreases len,
{
    if len == 0 {
        Seq::<bool>::empty()
    } else {
        seq![v % 2 == 1] + low_bits(v / 2, (len - 1) as nat)
    }
}

/// The code of a step from nibble `cur` to a different nibble `b`: the shorter way round the
/// 16 nibble values, with its direction in the lowest bit.
pub open spec fn c999_code(b: u8, cur: u8) -> nat {
    let d0: int = if b < cur { cur - b } else { b - cur };
    let s0: int = if b < cur { -1 } else { 1 };
    let d: int = if d0 >= 8 { 16 - d0 } else { d0 };
    let sg: int = if d0 >= 8 { -s0 } else { s0 };
    ((if sg > 0 { 0int } else { 1int }) + 2 * d) as nat
}

/// The bits for a step from `cur` to `b` that is neither a repeat nor a return to `prev`:
/// `len` zeros, a one, then the `len` low bits of `code + 1`, where `len` is one less than
/// the number of digits of `code + 1`.
pub open spec fn c999_delta_bits(b: u8, cur: u8) -> Seq<bool> {
    let code = c999_code(b, cur);
    let len = (bit_len(code + 1) - 1) as nat;
    let code2 = ((code + 1) % pow2(len)) as nat;
    Seq::new(len, |i: int| false) + seq![true] + low_bits(code2, len)
}

/// The bits that encode `nibs`, from state (`prev`, `cur`).
pub open spec fn c999_bits(nibs: Seq<u8>, prev: u8, cur: u8) -> Seq<bool>
    decreases nibs.len(),
{
    if nibs.len() == 0 {
        Seq::<bool>::empty()
    } else {
        let b = nibs[0];
        if b == cur {
            seq![true] + c999_bits(nibs.drop_first(), prev, cur)
        } else if b == prev {
            seq![false, true, false] + c999_bits(nibs.drop_first(), cur, prev)
        } else {
            c999_delta_bits(b, cur) + c999_bits(nibs.drop_first(), cur, b)
        }
    }
}

/// A byte made of up to 8 bits, lowest first.
pub open spec fn bits_byte(c: Seq<bool>) -> nat
    decreases c.len(),
{
    if c.len() == 0 {
        0
    } else {
        (if c[0] { 1nat } else { 0nat }) + 2 * bits_byte(c.drop_first())
    }
}

/// The bits packed into bytes, 8 per byte, lowest bit first; the last byte may hold fewer.
pub open spec fn pack_bits(bits: Seq<bool>) -> Seq<u8>
    decreases bits.len(),
{
    if bits.len() == 0 {
        Seq::<u8>::empty()
    } else if bits.len() <= 8 {
        seq![bits_byte(bits) as u8]
    } else {
        seq![bits_byte(bits.take(8)) as u8] + pack_bits(bits.skip(8))
    }
}

/// The compressed form of `data`: its first nibble, then the packed bits of the other nibbles.
pub open spec fn c999_compress(data: Seq<u8>) -> Seq<u8> {
    let nibs = c999_nibbles(data);
    seq![nibs[0]] + pack_bits(c999_bits(nibs.drop_first(), nibs[0], nibs[0]))
}

proof fn lemma_nibbles_push(data: Seq<u8>, b: u8)
    ensures
        c999_nibbles(data.push(b)) == c999_nibbles(data) + seq![b % 16, b / 16],
    decreases data.len(),
{
    assert(c999_nibbles(Seq::<u8>::empty()) == Seq::<u8>::empty());
    if data.len() == 0 {
        assert(data.push(b).drop_first() == Seq::<u8>::empty());
        assert(c999_nibbles(data.push(b)) == seq![b % 16, b / 16] + c999_nibbles(Seq::<u8>::empty()));
        assert(c999_nibbles(data.push(b)) =~= c999_nibbles(data) + seq![b % 16, b / 16]);
    } else {
        assert(data.push(b).drop_first() == data.drop_first().push(b));
        lemma_nibbles_push(data.drop_first(), b);
        assert(data.push(b)[0] == data[0]);
        assert(c999_nibbles(data.push(b)) == seq![data[0] % 16, data[0] / 16] + c999_nibbles(data.drop_first().push(b)));
        assert(c999_nibbles(data.push(b)) =~= c999_nibbles(data) + seq![b % 16, b / 16]);
    }
}

proof fn lemma_bits_byte_bound(c: Seq<bool>)
    requires
        c.len() <= 8,
    ensures
        bits_byte(c) < pow2(c.len()),
        pow2(c.len()) <= 256,
    decreases c.len(),
{
    if c.len() > 0 {
        lemma_bits_byte_bound(c.drop_first());
    }
    reveal_with_fuel(pow2, 9);
}

proof fn lemma_bits_byte_push(c: Seq<bool>, b: bool)
    ensures
        bits_byte(c.push(b)) == bits_byte(c) + (if b { pow2(c.len()) } else { 0 }),
    decreases c.len(),
{
    assert(bits_byte(Seq::<bool>::empty()) == 0);
    if c.len() == 0 {
        assert(c.push(b).drop_first() == Seq::<bool>::empty());
        assert(pow2(0) == 1);
        assert(bits_byte(c.push(b)) == (if c.push(b)[0] { 1nat } else { 0nat }) + 2 * bits_byte(Seq::<bool>::empty()));
    } else {
        assert(c.push(b).drop_first() == c.drop_first().push(b));
        lemma_bits_byte_push(c.drop_first(), b);
        assert(c.push(b)[0] == c[0]);
        assert(pow2(c.len()) == 2 * pow2((c.len() - 1) as nat));
        assert(bits_byte(c.push(b)) == (if c[0] { 1nat } else { 0nat }) + 2 * bits_byte(c.drop_first().push(b)));
    }
}

proof fn lemma_pack_bits_split(a: Seq<bool>, b: Seq<bool>)
    requires
        a.len() == 8,
    ensures
        pack_bits(a + b) == seq![bits_byte(a) as u8] + pack_bits(b),
{
    let ab = a + b;
    assert(ab.take(8) == a);
    assert(ab.skip(8) == b);
    if b.len() == 0 {
        assert(ab == a);
        assert(pack_bits(b) == Seq::<u8>::empty());
    }
}

proof fn lemma_pow2_ge(e: nat)
    ensures
        pow2(e) >= e + 1,
    decreases e,
{
    if e > 0 {
        lemma_pow2_ge((e - 1) as nat);
    }
}

proof fn lemma_low_bits_len(v: nat, len: nat)
    ensures
        low_bits(v, len).len() == len,
    decreases len,
{
    if len > 0 {
        lemma_low_bits_len(v / 2, (len - 1) as nat);
    }
}

/// Encoder of the nibble delta coding.
pub struct Custom999Compressor;

impl Custom999Compressor {
    fn delta_bits(b: u8, cur: u8, bit_list: &mut Vec<bool>)
        requires
            b < 16,
            cur < 16,
            b != cur,
        ensures
            final(bit_list)@ == old(bit_list)@ + c999_delta_bits(b, cur),
    {
        let ghost code_s = c999_code(b, cur);
        let mut diff: i16 = b as i16 - cur as i16;
        let mut sign: i8;
        if diff < 0 {
            diff = -diff;
            sign = -1;
        } else {
            sign = 1;
        }
        if diff >= 8 {
            diff = 0x10 - diff;
            sign = -sign;
        }
        let base: i16 = if sign > 0 { 0 } else { 1 };
        assert(diff << 1 == diff * 2) by (bit_vector)
            requires 0 <= diff <= 8;
        let code: usize = (base + (diff << 1)) as usize;
        assert(code == code_s);
        assert(2 <= code <= 17);
        // number of binary digits of code + 1, less one
        let v: usize = code + 1;
        let mut len_code: usize = 0;
        let mut rest: usize = v / 2;
        let mut p: usize = 1;
        proof {
            assert(bit_len(v as nat) == 1 + bit_len((v / 2) as nat));
        }
        while rest > 0
            invariant
                v <= 18,
                len_code <= 64,
                rest * p <= v,
                p >= 1,
                p == pow2(len_code as nat),
                bit_len(v as nat) == len_code + 1 + bit_len(rest as nat),
            decreases rest,
        {
            assert(p <= 18) by (nonlinear_arith)
                requires rest * p <= v, rest >= 1, v <= 18, p >= 1;
            assert((rest / 2) * (p * 2) <= rest * p) by (nonlinear_arith)
                requires rest >= 1, p >= 1;
            assert(len_code <= 17) by {
                lemma_pow2_ge(len_code as nat);
            }
            rest = rest / 2;
            len_code = len_code + 1;
            p = p * 2;
        }
        let mut code2: usize = (code + 1) % p;
        assert(len_code == (bit_len(code_s + 1) - 1) as nat);
        let ghost code2_s = code2 as nat;
        let mut i: usize = 0;
        let ghost start = bit_list@;
        while i < len_code
            invariant
                i <= len_code,
                bit_list@ == start + Seq::new(i as nat, |j: int| false),
            decreases len_code - i,
        {
            bit_list.push(false);
            i = i + 1;
        }
        bit_list.push(true);
        let ghost mid = bit_list@;
        i = 0;
        while i < len_code
            invariant
                i <= len_code,
                bit_list@ + low_bits(code2 as nat, (len_code - i) as nat) == mid + low_bits(code2_s, len_code as nat),
            decreases len_code - i,
        {
            let bit = code2 % 2 == 1;
            proof {
                assert(low_bits(code2 as nat, (len_code - i) as nat) == seq![bit] + low_bits((code2 / 2) as nat, (len_code - i - 1) as nat));
                assert(bit_list@.push(bit) + low_bits((code2 / 2) as nat, (len_code - i - 1) as nat)
                    == bit_list@ + (seq![bit] + low_bits((code2 / 2) as nat, (len_code - i - 1) as nat)));
            }
            bit_list.push(bit);
            code2 = code2 / 2;
            i = i + 1;
        }
        proof {
            assert(low_bits(code2 as nat, 0) == Seq::<bool>::empty());
            assert(bit_list@ == mid + low_bits(code2_s, len_code as nat));
            assert(c999_delta_bits(b, cur) == Seq::new(len_code as nat, |j: int| false) + seq![true] + low_bits(code2_s, len_code as nat));
        }
    }

    /// Compresses `buffer`: the first nibble as a byte, then per following nibble a bit code
    /// (repeat of the current nibble, return to the previous one, or a signed step).
    pub fn run(buffer: &[u8]) -> (r: StBytesMut)
        requires
            buffer@.len() > 0,
        ensures
            r@ == c999_compress(buffer@),
    {
        let mut data: Vec<u8> = Vec::new();
        let mut k: usize = 0;
        while k < buffer.len()
            invariant
                k <= buffer@.len(),
                data@ == c999_nibbles(buffer@.take(k as int)),
                forall|j: int| 0 <= j < data@.len() ==> data@[j] < 16,
            decreases buffer@.len() - k,
        {
            let x = buffer[k];
            proof {
                assert(buffer@.take(k as int + 1) == buffer@.take(k as int).push(x));
                lemma_nibbles_push(buffer@.take(k as int), x);
            }
            data.push(x % 16);
            data.push(x / 16);
            k = k + 1;
        }
        proof {
            assert(buffer@.take(buffer@.len() as int) == buffer@);
            assert(c999_nibbles(buffer@).len() >= 2) by {
                assert(buffer@.len() > 0);
            }
        }
        let ghost nibs = data@;
        let first = data[0];
        let mut prev = data[0];
        let mut current = data[0];
        let mut bit_list: Vec<bool> = Vec::new();
        let mut i: usize = 1;
        let ghost total = c999_bits(nibs.drop_first(), first, first);
        proof {
            assert(nibs.skip(1) == nibs.drop_first());
        }
        while i < data.len()
            invariant
                1 <= i <= data@.len(),
                nibs == data@,
                forall|j: int| 0 <= j < nibs.len() ==> nibs[j] < 16,
                prev < 16,
                current < 16,
                bit_list@ + c999_bits(nibs.skip(i as int), prev, current) == total,
            decreases data@.len() - i,
        {
            let b = data[i];
            let ghost rest = nibs.skip(i as int + 1);
            proof {
                assert(nibs.skip(i as int).drop_first() == rest);
                assert(nibs.skip(i as int)[0] == b);
            }
            let ghost before = bit_list@;
            if b == current {
                bit_list.push(true);
                proof {
                    assert(before + (seq![true] + c999_bits(rest, prev, current)) == bit_list@ + c999_bits(rest, prev, current));
                }
            } else if b == prev {
                bit_list.push(false);
                bit_list.push(true);
                bit_list.push(false);
                proof {
                    assert(bit_list@ == before + seq![false, true, false]);
                    assert(before + (seq![false, true, false] + c999_bits(rest, current, prev)) == bit_list@ + c999_bits(rest, current, prev));
                }
                let t = prev;
                prev = current;
                current = t;
            } else {
                Self::delta_bits(b, current, &mut bit_list);
                proof {
                    assert(before + (c999_delta_bits(b, current) + c999_bits(rest, current, b)) == bit_list@ + c999_bits(rest, current, b));
                }
                prev = current;
                current = b;
            }
            i = i + 1;
        }
        proof {
            assert(nibs.skip(i as int) == Seq::<u8>::empty());
            assert(bit_list@ + Seq::<bool>::empty() == bit_list@);
        }
        let mut out: Vec<u8> = Vec::new();
        out.push(first);
        let n = bit_list.len();
        proof {
            assert(bit_list@ == total);
            assert(bit_list@.skip(0) == bit_list@);
            assert(out@ == seq![first]);
        }
        let mut pos: usize = 0;
        while pos < n
            invariant
                pos <= n,
                n == bit_list@.len(),
                bit_list@ == total,
                out@ + pack_bits(bit_list@.skip(pos as int)) == seq![first] + pack_bits(total),
            decreases n - pos,
        {
            let end: usize = if n - pos > 8 { pos + 8 } else { n };
            let mut byte: u8 = 0;
            let mut j: usize = pos;
            let ghost chunkb = bit_list@.subrange(pos as int, end as int);
            while j < end
                invariant
                    pos <= j <= end <= n,
                    end - pos <= 8,
                    n == bit_list@.len(),
                    chunkb == bit_list@.subrange(pos as int, end as int),
                    byte as nat == bits_byte(bit_list@.subrange(pos as int, j as int)),
                decreases end - j,
            {
                let ghost c = bit_list@.subrange(pos as int, j as int);
                proof {
                    assert(bit_list@.subrange(pos as int, j as int + 1) == c.push(bit_list@[j as int]));
                    lemma_bits_byte_push(c, bit_list@[j as int]);
                    lemma_bits_byte_bound(bit_list@.subrange(pos as int, j as int + 1));
                }
                let sh: u8 = (j - pos) as u8;
                if bit_list[j] {
                    let add: u8 = 1u8 << sh;
                    assert(add as nat == pow2(c.len())) by {
                        assert(1u8 << sh == pow2(sh as nat)) by {
                            reveal_with_fuel(pow2, 9);
                            assert(sh < 8);
                            assert(sh == 0 ==> 1u8 << sh == 1) by (bit_vector);
                            assert(sh == 1 ==> 1u8 << sh == 2) by (bit_vector);
                            assert(sh == 2 ==> 1u8 << sh == 4) by (bit_vector);
                            assert(sh == 3 ==> 1u8 << sh == 8) by (bit_vector);
                            assert(sh == 4 ==> 1u8 << sh == 16) by (bit_vector);
                            assert(sh == 5 ==> 1u8 << sh == 32) by (bit_vector);
                            assert(sh == 6 ==> 1u8 << sh == 64) by (bit_vector);
                            assert(sh == 7 ==> 1u8 << sh == 128) by (bit_vector);
                        }
                    }
                    byte = byte + add;
                }
                j = j + 1;
            }
            proof {
                let rest = bit_list@.skip(pos as int);
                if n - pos > 8 {
                    assert(rest == chunkb + bit_list@.skip(end as int));
                    lemma_pack_bits_split(chunkb, bit_list@.skip(end as int));
                } else {
                    assert(rest == chunkb);
                    assert(bit_list@.skip(end as int) == Seq::<bool>::empty());
                    assert(pack_bits(rest) == seq![bits_byte(chunkb) as u8]);
                }
                assert(out@.push(byte) + pack_bits(bit_list@.skip(end as int)) == out@ + pack_bits(rest));
            }
            out.push(byte);
            pos = end;
        }
        proof {
            assert(bit_list@.skip(n as int) == Seq::<bool>::empty());
            assert(out@ + Seq::<u8>::empty() == out@);
        }
        StBytesMut(out)
    }
}


/// The decoder's state: read position, bit buffer and its length, the previous and current
/// nibble, and the nibbles written so far.
pub struct C999State {
    pub pos: int,
    pub flags: int,
    pub nbits: int,
    pub prev: u8,
    pub code: u8,
    pub out: Seq<u8>,
}

/// The bit buffer refilled (a byte at a time, zero bytes past the end) until it holds 17 bits.
pub open spec fn c999_fill(data: Seq<u8>, pos: int, flags: int, nbits: int) -> (int, int, int)
    decreases (if nbits < 17 { 17 - nbits } else { 0 }),
{
    if nbits >= 17 {
        (pos, flags, nbits)
    } else if pos < data.len() {
        c999_fill(data, pos + 1, (flags as usize | ((data[pos] as usize) << (nbits as usize))) as int, nbits + 8)
    } else {
        c999_fill(data, pos, flags, nbits + 8)
    }
}

/// The lowest set bit of `flags` from bit `j` up to bit 8, or 8.
pub open spec fn c999_first_bit(flags: usize, j: int) -> int
    decreases 9 - j,
{
    if j > 8 {
        8
    } else if flags & (1usize << (j as usize)) != 0 {
        j
    } else {
        c999_first_bit(flags, j + 1)
    }
}

proof fn lemma_first_bit_le(flags: usize, j: int)
    ensures
        c999_first_bit(flags, j) <= 8,
    decreases 9 - j,
{
    if j <= 8 {
        lemma_first_bit_le(flags, j + 1);
    }
}

/// The nibble reached from `code` by the step `n`: `n / 2` up, or down where `n` is odd.
pub open spec fn c999_next_code(code: u8, n: usize) -> u8 {
    ((((code as i64) + ((n >> 1usize) as i64) * (1 - 2 * ((n & 1usize) as i64))) as i64) & 0xFi64) as u8
}

/// One decoding step: refill, read one code and write one nibble.
pub open spec fn c999_step(data: Seq<u8>, st: C999State) -> C999State {
    let (pos, flags, nbits) = c999_fill(data, st.pos, st.flags, st.nbits);
    let fl = flags as usize;
    let outnbit = c999_first_bit(fl, 0);
    let n0: usize = ((1usize << (outnbit as usize)) - 1) as usize;
    let n: usize = (n0 + ((fl >> ((outnbit + 1) as usize)) & n0)) as usize;
    let flags2 = (fl >> ((2 * outnbit + 1) as usize)) as int;
    let nbits2 = nbits - (2 * outnbit + 1);
    if n == 1 {
        C999State { pos, flags: flags2, nbits: nbits2, prev: st.code, code: st.prev, out: st.out.push(st.prev) }
    } else {
        let prev = if n != 0 { st.code } else { st.prev };
        let code = c999_next_code(st.code, n);
        C999State { pos, flags: flags2, nbits: nbits2, prev, code, out: st.out.push(code) }
    }
}

/// The state after `k` steps.
pub open spec fn c999_run(data: Seq<u8>, k: nat) -> C999State
    decreases k,
{
    if k == 0 {
        C999State { pos: 1, flags: 0, nbits: 0, prev: data[0], code: data[0], out: seq![data[0]] }
    } else {
        c999_step(data, c999_run(data, (k - 1) as nat))
    }
}

/// Nibbles joined in pairs into bytes, low nibble first.
pub open spec fn join_nibbles(nibs: Seq<u8>) -> Seq<u8> {
    Seq::new(nibs.len() / 2, |j: int| (nibs[2 * j] + nibs[2 * j + 1] * 16) as u8)
}

/// What the decoder gives for `size` bytes: the nibbles of `2 * size - 1` steps after the first
/// byte, joined in pairs.
pub open spec fn c999_decompress(data: Seq<u8>, size: nat) -> Seq<u8> {
    join_nibbles(c999_run(data, (2 * size - 1) as nat).out)
}

/// Decoder of the nibble delta coding.
pub struct Custom999Decompressor;

impl Custom999Decompressor {
    /// Decompresses `decompressed_size` bytes from `compressed_data`.
    #[verifier::rlimit(60)]
    pub fn run(compressed_data: &[u8], decompressed_size: usize) -> (r: StBytesMut)
        requires
            compressed_data@.len() > 0,
            compressed_data@[0] < 16,
            decompressed_size > 0,
            decompressed_size * 2 <= usize::MAX,
        ensures
            r@ == c999_decompress(compressed_data@, decompressed_size as nat),
            r@.len() == decompressed_size,
    {
        let data = compressed_data;
        let len = data.len();
        let mut code: u8 = data[0];
        let mut prev: u8 = code;
        let mut decompressed: Vec<u8> = Vec::new();
        decompressed.push(code);
        let mut pos: usize = 1;
        let mut nbits: usize = 0;
        let mut flags: usize = 0;
        let target: usize = decompressed_size * 2;
        let ghost mut k: nat = 0;
        assert(0usize < (1usize << 0usize)) by (bit_vector);
        while decompressed.len() < target
            invariant
                len == data@.len(),
                data@ == compressed_data@,
                data@[0] < 16,
                target == decompressed_size * 2,
                1 <= decompressed@.len() <= target,
                decompressed@.len() == k + 1,
                pos <= len + 1,
                nbits <= 24,
                flags < (1usize << (nbits as usize)),
                prev < 16,
                code < 16,
                forall|j: int| 0 <= j < decompressed@.len() ==> decompressed@[j] < 16,
                ({
                    let st = c999_run(data@, k);
                    &&& st.pos == pos
                    &&& st.flags == flags
                    &&& st.nbits == nbits
                    &&& st.prev == prev
                    &&& st.code == code
                    &&& st.out == decompressed@
                }),
            decreases target - decompressed@.len(),
        {
            let ghost st = c999_run(data@, k);
            let ghost filled = c999_fill(data@, pos as int, flags as int, nbits as int);
            while nbits < 17
                invariant
                    len == data@.len(),
                    pos <= len + 1,
                    nbits <= 24,
                    flags < (1usize << (nbits as usize)),
                    c999_fill(data@, pos as int, flags as int, nbits as int) == filled,
                decreases 24 - nbits,
            {
                if pos < len {
                    let b = data[pos];
                    let nf: usize = flags | ((b as usize) << nbits);
                    assert(nf < (1usize << ((nbits + 8) as usize))) by (bit_vector)
                        requires flags < (1usize << nbits), b < 256, nbits < 17, nf == flags | ((b as usize) << nbits);
                    flags = nf;
                    pos = pos + 1;
                } else {
                    assert(flags < (1usize << ((nbits + 8) as usize))) by (bit_vector)
                        requires flags < (1usize << nbits), nbits < 17;
                }
                nbits = nbits + 8;
            }
            assert(filled == (pos as int, flags as int, nbits as int));
            let mut outnbit: usize = 8;
            let mut nbit: usize = 0;
            while nbit <= 8
                invariant
                    nbit <= 9,
                    nbit <= 8 ==> c999_first_bit(flags, nbit as int) == c999_first_bit(flags, 0) && outnbit == 8,
                    nbit == 9 ==> outnbit == c999_first_bit(flags, 0),
                decreases 9 - nbit,
            {
                if (flags & (1usize << nbit)) != 0 {
                    outnbit = nbit;
                    nbit = 9;
                } else {
                    proof {
                        if nbit == 8 {
                            assert(c999_first_bit(flags, 9) == 8);
                        }
                    }
                    nbit = nbit + 1;
                }
            }
            assert(outnbit == c999_first_bit(flags, 0));
            proof {
                lemma_first_bit_le(flags, 0);
            }
            assert(outnbit <= 8);
            assert(1usize << outnbit >= 1 && 1usize << outnbit <= 256) by (bit_vector)
                requires outnbit <= 8;
            let n0: usize = (1 << outnbit) - 1;
            let extra: usize = (flags >> (outnbit + 1)) & n0;
            assert(extra <= n0) by (bit_vector)
                requires extra == (flags >> (outnbit + 1)) & n0;
            let n: usize = n0 + extra;
            assert(n <= 510);
            assert((n >> 1usize) <= 255 && (n & 1usize) <= 1) by (bit_vector)
                requires n <= 510;
            if n == 1 {
                decompressed.push(prev);
                let t = prev;
                prev = code;
                code = t;
            } else {
                if n != 0 {
                    prev = code;
                }
                let half: i64 = (n >> 1) as i64;
                let odd: i64 = (n & 1) as i64;
                let step: i64 = if odd == 1 { -half } else { half };
                assert(step == half * (1 - 2 * odd)) by (nonlinear_arith)
                    requires odd == 0 || odd == 1, odd == 1 ==> step == -half, odd == 0 ==> step == half;
                let sum: i64 = code as i64 + step;
                let nc: i64 = sum & 0xF;
                assert(0 <= nc < 16) by (bit_vector)
                    requires nc == sum & 0xF;
                code = nc as u8;
                decompressed.push(code);
            }
            let shift: usize = 2 * outnbit + 1;
            assert(nbits >= shift);
            let nf: usize = flags >> shift;
            assert(nf < (1usize << ((nbits - shift) as usize))) by (bit_vector)
                requires flags < (1usize << nbits), shift <= nbits, nbits <= 24, nf == flags >> shift;
            flags = nf;
            nbits = nbits - shift;
            proof {
                k = k + 1;
                assert(c999_run(data@, k) == c999_step(data@, st));
            }
        }
        let ghost nibs = decompressed@;
        let mut out: Vec<u8> = Vec::new();
        let mut j: usize = 0;
        while j < decompressed_size
            invariant
                j <= decompressed_size,
                decompressed_size * 2 <= usize::MAX,
                nibs == decompressed@,
                nibs.len() == decompressed_size * 2,
                forall|i: int| 0 <= i < nibs.len() ==> nibs[i] < 16,
                out@ == join_nibbles(nibs).take(j as int),
            decreases decompressed_size - j,
        {
            let lo = decompressed[2 * j];
            let hi = decompressed[2 * j + 1];
            out.push(lo + hi * 16);
            proof {
                assert(join_nibbles(nibs).take(j as int + 1) == join_nibbles(nibs).take(j as int).push((lo + hi * 16) as u8));
            }
            j = j + 1;
        }
        proof {
            assert(k == 2 * decompressed_size - 1);
            assert(join_nibbles(nibs).take(decompressed_size as int) == join_nibbles(nibs));
        }
        StBytesMut(out)
    }
}

} // verus!
