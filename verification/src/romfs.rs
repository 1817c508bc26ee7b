use vstd::prelude::*;

verus! {

/// One shift of the reflected CRC-16 register (polynomial 0x8005, reflected as 0xA001).
pub open spec fn crc16_shift(x: u16) -> u16 {
    if x & 1u16 == 1u16 {
        ((x >> 1u16) ^ 0xA001u16) as u16
    } else {
        (x >> 1u16) as u16
    }
}

/// `crc16_shift` applied `n` times.
pub open spec fn crc16_shifts(x: u16, n: nat) -> u16
    decreases n,
{
    if n == 0 {
        x
    } else {
        crc16_shifts(crc16_shift(x), (n - 1) as nat)
    }
}

/// The entry of the byte-wise lookup table for index `i`: eight register shifts of `i`.
pub open spec fn crc16_table_entry(i: u8) -> u16 {
    crc16_shifts(i as u16, 8)
}

/// Feeds one byte into the register.
pub open spec fn crc16_step(crc: u16, byte: u8) -> u16 {
    ((crc >> 8u16) ^ crc16_table_entry((crc as u8 ^ byte) as u8)) as u16
}

/// The register after feeding all of `data`, starting from `0xFFFF`
/// (the NDS header checksum).
pub open spec fn crc16_spec(data: Seq<u8>) -> u16 {
    data.fold_left(0xFFFFu16, |crc: u16, b: u8| crc16_step(crc, b))
}

fn table_entry(i: u8) -> (r: u16)
    ensures
        r == crc16_table_entry(i),
{
    let mut x: u16 = i as u16;
    let mut k: u32 = 0;
    while k < 8
        invariant
            k <= 8,
            crc16_shifts(x, (8 - k) as nat) == crc16_table_entry(i),
        decreases 8 - k,
    {
        let next: u16 = if x & 1 == 1 {
            (x >> 1) ^ 0xA001
        } else {
            x >> 1
        };
        assert(next == crc16_shift(x));
        x = next;
        k = k + 1;
    }
    x
}

/// CRC-16 (reflected polynomial 0xA001, initial value 0xFFFF, no final xor) of `data`.
pub fn crc16(data: &[u8]) -> (r: u16)
    ensures
        r == crc16_spec(data@),
{
    let mut crc: u16 = 0xFFFF;
    let mut i: usize = 0;
    let n = data.len();
    while i < n
        invariant
            i <= n,
            n == data@.len(),
            crc == data@.take(i as int).fold_left(0xFFFFu16, |c: u16, b: u8| crc16_step(c, b)),
        decreases n - i,
    {
        let b = data[i];
        let idx: u8 = (crc as u8) ^ b;
        let e = table_entry(idx);
        let next: u16 = (crc >> 8) ^ e;
        proof {
            let f = |c: u16, b: u8| crc16_step(c, b);
            assert(data@.take(i as int + 1).drop_last() == data@.take(i as int));
            assert(data@.take(i as int + 1).last() == b);
            assert(next == crc16_step(crc, b));
        }
        crc = next;
        i = i + 1;
    }
    proof {
        assert(data@.take(n as int) == data@);
    }
    crc
}

} // verus!
