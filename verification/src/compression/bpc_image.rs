//! Compression of the tile graphics of BPC files.
//!
//! The data is handled in 16-bit words. Command bytes either copy bytes that
//! follow, or write a stored one-byte pattern; two patterns are kept (the
//! current one and a buffer), and a command can load a new one or swap them.
use vstd::prelude::*;

use crate::bytes::{copy_range, le16, push_all, push_u16_le, read_u16_le, u16_le_bytes, StBytesMut};
use crate::python::{exceptions, PyResult};

verus! {

pub const CMD_CYCLE_PATTERN_AND_CP: u8 = 0xE0;
pub const CMD_USE_LAST_PATTERN_AND_CP: u8 = 0xC0;
pub const CMD_LOAD_BYTE_AS_PATTERN_AND_CP: u8 = 0x80;
pub const CMD_CYCLE_PATTERN_AND_CP__NEXT: u8 = 0xFF;
pub const CMD_USE_LAST_PATTERN_AND_CP__NEXT: u8 = 0xDF;
pub const CMD_LOAD_BYTE_AS_PATTERN_AND_CP__NEXT: u8 = 0xBF;
pub const CMD_CP_FROM_POS__NEXT: u8 = 0x7E;
pub const CMD_COPY__NEXT__LE_16: u8 = 0x7F;

/// The state of the decompressor between commands.
pub struct BpcImgState {
    pub pos: nat,
    pub out: Seq<u8>,
    pub has_leftover: bool,
    pub leftover: u8,
    pub pattern: u8,
    pub pattern_buffer: u8,
}

pub open spec fn is_next_cmd(cmd: u8) -> bool {
    cmd == CMD_CP_FROM_POS__NEXT || cmd == CMD_CYCLE_PATTERN_AND_CP__NEXT
        || cmd == CMD_LOAD_BYTE_AS_PATTERN_AND_CP__NEXT || cmd == CMD_USE_LAST_PATTERN_AND_CP__NEXT
}

/// Whether the command writes the stored pattern (rather than copying bytes).
pub open spec fn is_pattern_op(cmd: u8) -> bool {
    cmd >= CMD_LOAD_BYTE_AS_PATTERN_AND_CP
}

/// Whether the command reads a new pattern byte.
pub open spec fn is_loading_pattern_from_next_byte(cmd: u8) -> bool {
    CMD_LOAD_BYTE_AS_PATTERN_AND_CP <= cmd < CMD_USE_LAST_PATTERN_AND_CP
}

/// Whether the command swaps the current pattern with the buffered one first.
pub open spec fn should_cycle_pattern(cmd: u8) -> bool {
    is_loading_pattern_from_next_byte(cmd) || CMD_CYCLE_PATTERN_AND_CP <= cmd
}

/// The count in the command byte itself.
pub open spec fn count_in_cmd(cmd: u8) -> int {
    if cmd >= CMD_CYCLE_PATTERN_AND_CP {
        cmd - CMD_CYCLE_PATTERN_AND_CP
    } else if cmd >= CMD_USE_LAST_PATTERN_AND_CP {
        cmd - CMD_USE_LAST_PATTERN_AND_CP
    } else if cmd >= CMD_LOAD_BYTE_AS_PATTERN_AND_CP {
        cmd - CMD_LOAD_BYTE_AS_PATTERN_AND_CP
    } else {
        cmd as int
    }
}

/// One command at `st.pos`; `None` when the data ends inside it.
pub open spec fn bpc_img_process(d: Seq<u8>, st: BpcImgState) -> Option<BpcImgState> {
    let p0 = st.pos as int;
    if p0 >= d.len() {
        None
    } else {
        let cmd = d[p0];
        // the count: in the next byte, the next two bytes, or the command
        let count_len: int = if is_next_cmd(cmd) { 1 } else if cmd == CMD_COPY__NEXT__LE_16 { 2 } else { 0 };
        if p0 + 1 + count_len > d.len() {
            None
        } else {
            let raw: int = if is_next_cmd(cmd) { d[p0 + 1] as int } else if cmd == CMD_COPY__NEXT__LE_16 { le16(d, p0 + 1) } else { count_in_cmd(cmd) };
            let nb = if st.has_leftover { raw - 1 } else { raw };
            let p1 = p0 + 1 + count_len;
            let pat_a = if should_cycle_pattern(cmd) { st.pattern_buffer } else { st.pattern };
            let pbuf = if should_cycle_pattern(cmd) { st.pattern } else { st.pattern_buffer };
            let loading = is_loading_pattern_from_next_byte(cmd);
            if loading && p1 >= d.len() {
                None
            } else {
                let pat = if loading { d[p1] } else { pat_a };
                let p2 = if loading { p1 + 1 } else { p1 };
                let pop = is_pattern_op(cmd);
                // the leftover byte completes a word
                if st.has_leftover && !pop && p2 >= d.len() {
                    None
                } else {
                    let out1 = if st.has_leftover {
                        st.out + seq![st.leftover, if pop { pat } else { d[p2] }]
                    } else {
                        st.out
                    };
                    let p3 = if st.has_leftover && !pop { p2 + 1 } else { p2 };
                    if nb < 0 {
                        Some(BpcImgState { pos: p3 as nat, out: out1, has_leftover: false, leftover: st.leftover, pattern: pat, pattern_buffer: pbuf })
                    } else {
                        let words = (nb + 1) / 2;
                        if !pop && p3 + 2 * words > d.len() {
                            None
                        } else {
                            let out2 = if pop {
                                out1 + Seq::new((2 * words) as nat, |i: int| pat)
                            } else {
                                out1 + d.subrange(p3, p3 + 2 * words)
                            };
                            let p4 = if pop { p3 } else { p3 + 2 * words };
                            if nb % 2 == 0 {
                                if !pop && p4 >= d.len() {
                                    None
                                } else {
                                    Some(BpcImgState {
                                        pos: (if pop { p4 } else { p4 + 1 }) as nat,
                                        out: out2,
                                        has_leftover: true,
                                        leftover: if pop { pat } else { d[p4] },
                                        pattern: pat,
                                        pattern_buffer: pbuf,
                                    })
                                }
                            } else {
                                Some(BpcImgState { pos: p4 as nat, out: out2, has_leftover: false, leftover: st.leftover, pattern: pat, pattern_buffer: pbuf })
                            }
                        }
                    }
                }
            }
        }
    }
}

/// Runs commands until `n` bytes or more are written. When the data ends with a
/// leftover byte pending and one word or one byte missing, the leftover fills it.
pub open spec fn bpc_img_run(d: Seq<u8>, st: BpcImgState, n: nat) -> Option<Seq<u8>>
    decreases d.len() - st.pos,
{
    if st.out.len() >= n {
        Some(st.out)
    } else if st.pos >= d.len() {
        if st.has_leftover && n - st.out.len() == 2 {
            Some(st.out + seq![st.leftover, 0u8])
        } else if st.has_leftover && n - st.out.len() == 1 {
            Some(st.out + seq![st.leftover])
        } else {
            None
        }
    } else {
        match bpc_img_process(d, st) {
            None => None,
            Some(st2) => {
                if st2.pos <= st.pos {
                    None
                } else {
                    bpc_img_run(d, st2, n)
                }
            },
        }
    }
}

/// Where in the data the run of `bpc_img_run` stops.
pub open spec fn bpc_img_end(d: Seq<u8>, st: BpcImgState, n: nat) -> nat
    decreases d.len() - st.pos,
{
    if st.out.len() >= n {
        st.pos
    } else if st.pos >= d.len() {
        st.pos
    } else {
        match bpc_img_process(d, st) {
            None => st.pos,
            Some(st2) => {
                if st2.pos <= st.pos {
                    st.pos
                } else {
                    bpc_img_end(d, st2, n)
                }
            },
        }
    }
}

pub open spec fn bpc_img_initial() -> BpcImgState {
    BpcImgState { pos: 0, out: Seq::empty(), has_leftover: false, leftover: 0, pattern: 0, pattern_buffer: 0 }
}

/// Decompression of `d` to `n` bytes; `None` for an odd `n` and for data that
/// ends too early.
pub open spec fn bpc_image_decompress(d: Seq<u8>, n: nat) -> Option<Seq<u8>> {
    if n % 2 != 0 {
        None
    } else {
        bpc_img_run(d, bpc_img_initial(), n)
    }
}

/// Decompressor for BPC tile graphics.
pub struct BpcImageDecompressor {
    pub decompressed_data: Vec<u8>,
    pub pos: usize,
    pub stop_when_size: usize,
    pub has_leftover: bool,
    pub leftover: u8,
    pub pattern: u8,
    pub pattern_buffer: u8,
}

impl BpcImageDecompressor {
    pub open spec fn state(&self) -> BpcImgState {
        BpcImgState {
            pos: self.pos as nat,
            out: self.decompressed_data@,
            has_leftover: self.has_leftover,
            leftover: self.leftover,
            pattern: self.pattern,
            pattern_buffer: self.pattern_buffer,
        }
    }

    pub fn run(compressed_data: &[u8], stop_when_size: usize) -> (r: PyResult<Vec<u8>>)
        ensures
            match bpc_image_decompress(compressed_data@, stop_when_size as nat) {
                Some(o) => r matches Ok(v) && v@ == o,
                None => r is Err,
            },
    {
        match Self::run_counted(compressed_data, stop_when_size) {
            Ok((v, _p)) => Ok(v),
            Err(e) => Err(e),
        }
    }

    /// As `run`, also giving where in the data decompression stopped.
    pub fn run_counted(compressed_data: &[u8], stop_when_size: usize) -> (r: PyResult<(Vec<u8>, usize)>)
        ensures
            match bpc_image_decompress(compressed_data@, stop_when_size as nat) {
                Some(o) => r matches Ok((v, p)) && v@ == o && p == bpc_img_end(compressed_data@, bpc_img_initial(), stop_when_size as nat)
                    && p <= compressed_data@.len(),
                None => r is Err,
            },
    {
        if stop_when_size % 2 != 0 {
            return Err(exceptions::PyValueError::new_err(
                "BPC Image compressor can only decompress data with an even output length.",
            ));
        }
        let mut slf = Self {
            decompressed_data: Vec::new(),
            pos: 0,
            stop_when_size,
            has_leftover: false,
            leftover: 0,
            pattern: 0,
            pattern_buffer: 0,
        };
        assert(slf.state() == bpc_img_initial());
        let n = compressed_data.len();
        while slf.decompressed_data.len() < stop_when_size
            invariant
                n == compressed_data@.len(),
                slf.pos <= n,
                bpc_image_decompress(compressed_data@, stop_when_size as nat)
                    == bpc_img_run(compressed_data@, slf.state(), stop_when_size as nat),
                bpc_img_end(compressed_data@, bpc_img_initial(), stop_when_size as nat)
                    == bpc_img_end(compressed_data@, slf.state(), stop_when_size as nat),
                stop_when_size % 2 == 0,
            decreases n - slf.pos,
        {
            if slf.pos >= n {
                let remaining = stop_when_size - slf.decompressed_data.len();
                if slf.has_leftover {
                    if remaining == 2 {
                        slf.decompressed_data.push(slf.leftover);
                        slf.decompressed_data.push(0);
                        return Ok((slf.decompressed_data, slf.pos));
                    } else if remaining == 1 {
                        slf.decompressed_data.push(slf.leftover);
                        return Ok((slf.decompressed_data, slf.pos));
                    }
                }
                return Err(exceptions::PyValueError::new_err(
                    "BPC Image Decompressor: End result length unexpected.",
                ));
            }
            let ghost st0 = slf.state();
            if !slf.process(compressed_data) {
                return Err(exceptions::PyValueError::new_err(
                    "BPC Image Decompressor: unexpected end of data.",
                ));
            }
        }
        Ok((slf.decompressed_data, slf.pos))
    }

    /// Runs one command; false when the data ends inside it.
    #[verifier::rlimit(80)]
    #[verifier::spinoff_prover]
    fn process(&mut self, d: &[u8]) -> (r: bool)
        requires
            old(self).pos < d@.len(),
        ensures
            r <==> bpc_img_process(d@, old(self).state()) is Some,
            r ==> bpc_img_process(d@, old(self).state()) == Some(final(self).state()),
            r ==> old(self).pos < final(self).pos <= d@.len(),
    {
        let n = d.len();
        let p0 = self.pos;
        let cmd = d[p0];
        let ghost st = self.state();
        let ghost res = bpc_img_process(d@, st);
        let is_next = cmd == CMD_CP_FROM_POS__NEXT || cmd == CMD_CYCLE_PATTERN_AND_CP__NEXT
            || cmd == CMD_LOAD_BYTE_AS_PATTERN_AND_CP__NEXT || cmd == CMD_USE_LAST_PATTERN_AND_CP__NEXT;
        let count_len: usize = if is_next { 1 } else if cmd == CMD_COPY__NEXT__LE_16 { 2 } else { 0 };
        if n - p0 - 1 < count_len {
            return false;
        }
        let raw: i32 = if is_next {
            d[p0 + 1] as i32
        } else if cmd == CMD_COPY__NEXT__LE_16 {
            read_u16_le(d, p0 + 1) as i32
        } else {
            let mut nb = cmd;
            if cmd >= CMD_CYCLE_PATTERN_AND_CP {
                nb -= CMD_CYCLE_PATTERN_AND_CP
            } else if cmd >= CMD_USE_LAST_PATTERN_AND_CP {
                nb -= CMD_USE_LAST_PATTERN_AND_CP
            } else if cmd >= CMD_LOAD_BYTE_AS_PATTERN_AND_CP {
                nb -= CMD_LOAD_BYTE_AS_PATTERN_AND_CP
            }
            nb as i32
        };
        let nb: i32 = if self.has_leftover { raw - 1 } else { raw };
        let p1 = p0 + 1 + count_len;
        let loading = CMD_LOAD_BYTE_AS_PATTERN_AND_CP <= cmd && cmd < CMD_USE_LAST_PATTERN_AND_CP;
        let cycle = loading || CMD_CYCLE_PATTERN_AND_CP <= cmd;
        if cycle {
            let t = self.pattern;
            self.pattern = self.pattern_buffer;
            self.pattern_buffer = t;
        }
        if loading && p1 >= n {
            return false;
        }
        if loading {
            self.pattern = d[p1];
        }
        let p2 = if loading { p1 + 1 } else { p1 };
        let pop = cmd >= CMD_LOAD_BYTE_AS_PATTERN_AND_CP;
        if self.has_leftover && !pop && p2 >= n {
            return false;
        }
        let mut p3 = p2;
        if self.has_leftover {
            // the leftover byte and the next one make a word
            let hi = if pop {
                self.pattern
            } else {
                p3 = p2 + 1;
                d[p2]
            };
            self.decompressed_data.push(self.leftover);
            self.decompressed_data.push(hi);
            self.has_leftover = false;
        }
        proof {
            let out1_spec = if st.has_leftover {
                st.out + seq![st.leftover, if pop { self.pattern } else { d@[p2 as int] }]
            } else {
                st.out
            };
            assert(self.decompressed_data@ =~= out1_spec);
        }
        if nb < 0 {
            self.pos = p3;
            proof {
                let s2 = res.unwrap();
                assert(s2.pos == self.pos);
                assert(s2.out =~= self.decompressed_data@);
                assert(s2.pattern == self.pattern);
                assert(s2.pattern_buffer == self.pattern_buffer);
                assert(s2.has_leftover == self.has_leftover);
                assert(s2.leftover == self.leftover);
            }
            return true;
        }
        let words = ((nb + 1) / 2) as usize;
        if !pop && (n - p3) / 2 < words {
            return false;
        }
        let ghost out1 = self.decompressed_data@;
        let ghost f_pat = self.pattern;
        let ghost f_pb = self.pattern_buffer;
        let ghost f_hl = self.has_leftover;
        let ghost f_lo = self.leftover;
        let ghost f_pos = self.pos;
        if pop {
            let mut i: usize = 0;
            while i < words
                invariant
                    i <= words,
                    self.pattern == f_pat && self.pattern_buffer == f_pb && self.has_leftover == f_hl
                        && self.leftover == f_lo && self.pos == f_pos,
                    self.decompressed_data@ == out1 + Seq::new((2 * i) as nat, |k: int| self.pattern),
                decreases words - i,
            {
                self.decompressed_data.push(self.pattern);
                self.decompressed_data.push(self.pattern);
                i += 1;
                assert(self.decompressed_data@ =~= out1 + Seq::new((2 * i) as nat, |k: int| self.pattern));
            }
        } else {
            let mut i: usize = 0;
            while i < words
                invariant
                    i <= words,
                    self.pattern == f_pat && self.pattern_buffer == f_pb && self.has_leftover == f_hl
                        && self.leftover == f_lo && self.pos == f_pos,
                    p3 + 2 * words <= n == d@.len(),
                    self.decompressed_data@ == out1 + d@.subrange(p3 as int, p3 + 2 * i),
                decreases words - i,
            {
                self.decompressed_data.push(d[p3 + 2 * i]);
                self.decompressed_data.push(d[p3 + 2 * i + 1]);
                i += 1;
                assert(self.decompressed_data@ =~= out1 + d@.subrange(p3 as int, p3 + 2 * i));
            }
        }
        let p4 = if pop { p3 } else { p3 + 2 * words };
        if nb % 2 == 0 {
            if !pop && p4 >= n {
                return false;
            }
            self.has_leftover = true;
            if pop {
                self.leftover = self.pattern;
                self.pos = p4;
            } else {
                self.leftover = d[p4];
                self.pos = p4 + 1;
            }
        } else {
            self.pos = p4;
        }
        proof {
            let s2 = res.unwrap();
            assert(s2.pos == self.pos);
            assert(s2.out =~= self.decompressed_data@);
            assert(s2.pattern == self.pattern);
            assert(s2.pattern_buffer == self.pattern_buffer);
            assert(s2.has_leftover == self.has_leftover);
            assert(s2.leftover == self.leftover);
        }
        true
    }
}


/// The bytes decompressed so far, the pending leftover byte included.
pub open spec fn bpc_img_flat(st: BpcImgState) -> Seq<u8> {
    if st.has_leftover {
        st.out.push(st.leftover)
    } else {
        st.out
    }
}

/// The number of bytes a command stands for, less one: from the byte after it (0x7E, 0xBF,
/// 0xDF, 0xFF), from the two bytes after it (0x7F), else from the command itself.
pub open spec fn bpc_cmd_count(d: Seq<u8>, p0: int) -> int {
    let cmd = d[p0];
    if cmd == 0x7E || cmd == 0xBF || cmd == 0xDF || cmd == 0xFF {
        d[p0 + 1] as int
    } else if cmd == 0x7F {
        d[p0 + 1] + 256 * d[p0 + 2]
    } else if cmd >= 0xE0 {
        cmd - 0xE0
    } else if cmd >= 0xC0 {
        cmd - 0xC0
    } else if cmd >= 0x80 {
        cmd - 0x80
    } else {
        cmd as int
    }
}

/// Where the bytes of a command that follow its count start: after the command, its count
/// bytes, and the new pattern byte of 0x80 to 0xBF.
pub open spec fn bpc_cmd_body(d: Seq<u8>, p0: int) -> int {
    let cmd = d[p0];
    let cl: int = if cmd == 0x7E || cmd == 0xBF || cmd == 0xDF || cmd == 0xFF { 1 } else if cmd == 0x7F { 2 } else { 0 };
    if 0x80 <= cmd < 0xC0 {
        p0 + 2 + cl
    } else {
        p0 + 1 + cl
    }
}

/// Each command of BPC image data stands for `count + 1` bytes (the count taken from the byte
/// after 0x7E, 0xBF, 0xDF and 0xFF, from the two bytes after 0x7F, else from the command
/// itself): from 0x80 on, that many copies of its pattern (a new byte for 0x80 to 0xBF, the
/// buffered one for 0xE0 on, which swaps the two, else the current one); below 0x80, that many
/// bytes copied from the data after it. The bytes decompressed so far, a pending half word
/// included, grow by exactly these.
pub proof fn lemma_bpc_img_process(d: Seq<u8>, st: BpcImgState)
    requires
        (st.pos as int) < d.len(),
        bpc_cmd_body(d, st.pos as int) <= d.len(),
        d[st.pos as int] < 0x80 ==> bpc_cmd_body(d, st.pos as int) + bpc_cmd_count(d, st.pos as int) + 1 <= d.len(),
    ensures
        ({
            let p0 = st.pos as int;
            let cmd = d[p0];
            let raw = bpc_cmd_count(d, p0);
            let p2 = bpc_cmd_body(d, p0);
            let pat: u8 = if 0x80 <= cmd < 0xC0 { d[p2 - 1] } else if cmd >= 0xE0 { st.pattern_buffer } else { st.pattern };
            let pbuf: u8 = if cmd >= 0xE0 || (0x80 <= cmd < 0xC0) { st.pattern } else { st.pattern_buffer };
            bpc_img_process(d, st) matches Some(st2) && st2.pattern == pat && st2.pattern_buffer == pbuf && st2.pos == (
            if cmd >= 0x80 { p2 } else { p2 + raw + 1 }) && bpc_img_flat(st2) == bpc_img_flat(st) + (if cmd >= 0x80 {
                Seq::new((raw + 1) as nat, |i: int| pat)
            } else {
                d.subrange(p2, p2 + raw + 1)
            })
        }),
{
    let p0 = st.pos as int;
    let cmd = d[p0];
    assert(is_next_cmd(cmd) == (cmd == 0x7E || cmd == 0xBF || cmd == 0xDF || cmd == 0xFF));
    if cmd == 0x7F {
        assert(le16(d, p0 + 1) == d[p0 + 1] + 256 * d[p0 + 2]);
    }
    let raw = bpc_cmd_count(d, p0);
    let p2 = bpc_cmd_body(d, p0);
    let pop = cmd >= 0x80;
    let pat: u8 = if 0x80 <= cmd < 0xC0 { d[p2 - 1] } else if cmd >= 0xE0 { st.pattern_buffer } else { st.pattern };
    let x = if pop { pat } else { d[p2] };
    let r = bpc_img_process(d, st).unwrap();
    let f0 = bpc_img_flat(st);
    let tail = if pop { Seq::new((raw + 1) as nat, |i: int| pat) } else { d.subrange(p2, p2 + raw + 1) };
    if st.has_leftover {
        let nb = raw - 1;
        let p3 = if pop { p2 } else { p2 + 1 };
        let out1 = st.out + seq![st.leftover, x];
        if nb < 0 {
            assert(bpc_img_flat(r) =~= f0 + tail);
        } else {
            let words = (nb + 1) / 2;
            let body = if pop { Seq::new((2 * words) as nat, |i: int| pat) } else { d.subrange(p3, p3 + 2 * words) };
            assert(r.out == out1 + body);
            if nb % 2 == 0 {
                let l2 = if pop { pat } else { d[p3 + 2 * words] };
                assert(2 * words == raw - 1);
                assert(bpc_img_flat(r) =~= f0 + tail);
            } else {
                assert(2 * words == raw);
                assert(bpc_img_flat(r) =~= f0 + tail);
            }
        }
    } else {
        let nb = raw;
        let words = (nb + 1) / 2;
        let body = if pop { Seq::new((2 * words) as nat, |i: int| pat) } else { d.subrange(p2, p2 + 2 * words) };
        assert(r.out == st.out + body);
        if nb % 2 == 0 {
            assert(2 * words == raw);
            assert(bpc_img_flat(r) =~= f0 + tail);
        } else {
            assert(2 * words == raw + 1);
            assert(bpc_img_flat(r) =~= f0 + tail);
        }
    }
}

// ---------------------------------------------------------------------------------------------
// Compression.

/// How many bytes after `pos` repeat the byte at `pos`, counting from `r` and at most 254.
pub open spec fn la_repeats(d: Seq<u8>, pos: int, r: nat) -> nat
    decreases 254 - r,
{
    if r < 254 && pos + 1 + r < d.len() && d[pos + 1 + r] == d[pos] {
        la_repeats(d, pos, r + 1)
    } else {
        r
    }
}

/// The length of the literal run that starts at `pos`, after `n` bytes were taken with `rc`
/// repeats of the last one: it ends before 5 equal bytes in a row, at 65534 bytes, or at the end
/// of the data.
pub open spec fn la_seq(d: Seq<u8>, pos: int, n: nat, rc: nat) -> nat
    decreases 65535 - n,
{
    if n >= 65535 {
        n
    } else {
        let rc2: nat = if n > 0 && d[pos + n] == d[pos + n - 1] { rc + 1 } else { 0 };
        let n2 = n + 1;
        if rc2 > 3 {
            (n2 - 4) as nat
        } else if n2 + 1 >= 65535 || pos + n2 >= d.len() {
            n2
        } else {
            la_seq(d, pos, n2, rc2)
        }
    }
}

/// The compressor's state: read position, output, current and previous pattern byte.
pub struct BpcCompState {
    pub pos: int,
    pub out: Seq<u8>,
    pub pattern: u8,
    pub buffer: u8,
}

/// The bytes of a copy command for `reps + 1` literal bytes (without the bytes).
pub open spec fn copy_cmd(reps: int) -> Seq<u8> {
    if reps <= 125 {
        seq![reps as u8]
    } else if reps <= 255 {
        seq![0x7Eu8, reps as u8]
    } else {
        seq![0x7Fu8] + u16_le_bytes(reps as u16)
    }
}

/// One compression step: a run of at least 4 equal bytes becomes a pattern command (using the
/// current pattern, the previous one, or a new one written after the command); anything else
/// becomes a copy of literal bytes.
pub open spec fn bpc_comp_step(d: Seq<u8>, st: BpcCompState) -> BpcCompState {
    let r = la_repeats(d, st.pos, 0);
    let b = d[st.pos];
    if r >= 3 {
        let current = b == st.pattern;
        let cycle = !current && b == st.buffer;
        let write = !current && !cycle;
        let base: int = if current { 0xC0 } else if cycle { 0xE0 } else { 0x80 };
        let next_cmd: u8 = if current { 0xDF } else if cycle { 0xFF } else { 0xBF };
        let cmd = if r <= 30 || (r <= 62 && write) { seq![(base + r) as u8] } else { seq![next_cmd, r as u8] };
        let out = st.out + cmd + (if write { seq![b] } else { Seq::<u8>::empty() });
        let (p2, b2) = if current { (st.pattern, st.buffer) } else if cycle { (st.buffer, st.pattern) } else { (b, st.pattern) };
        BpcCompState { pos: st.pos + r + 1, out, pattern: p2, buffer: b2 }
    } else {
        let l = la_seq(d, st.pos, 0, 0);
        BpcCompState {
            pos: st.pos + l,
            out: st.out + copy_cmd(l - 1) + d.subrange(st.pos, st.pos + l),
            pattern: st.pattern,
            buffer: st.buffer,
        }
    }
}

/// Compression from state `st` to the end of the data.
pub open spec fn bpc_comp_run(d: Seq<u8>, st: BpcCompState) -> Seq<u8>
    decreases (if st.pos < d.len() { d.len() - st.pos } else { 0 }),
{
    if st.pos >= d.len() || st.pos < 0 {
        st.out
    } else {
        let st2 = bpc_comp_step(d, st);
        if st2.pos <= st.pos {
            st.out
        } else {
            bpc_comp_run(d, st2)
        }
    }
}

/// The compressed form of `d`.
pub open spec fn bpc_image_compress(d: Seq<u8>) -> Seq<u8> {
    bpc_comp_run(d, BpcCompState { pos: 0, out: Seq::empty(), pattern: 0, buffer: 0 })
}

proof fn lemma_la_repeats_bound(d: Seq<u8>, pos: int, r: nat)
    requires
        r <= 254,
        0 <= pos,
        pos + 1 + r <= d.len() || r == 0,
    ensures
        r <= la_repeats(d, pos, r) <= 254,
        pos + 1 + la_repeats(d, pos, r) <= d.len() || la_repeats(d, pos, r) == r,
    decreases 254 - r,
{
    if r < 254 && pos + 1 + r < d.len() && d[pos + 1 + r] == d[pos] {
        lemma_la_repeats_bound(d, pos, r + 1);
    }
}

proof fn lemma_la_seq_bound(d: Seq<u8>, pos: int, n: nat, rc: nat)
    requires
        0 <= pos,
        pos + n < d.len(),
        n <= 65533,
        rc <= 3,
        n > 0 ==> rc < n,
        n == 0 ==> rc == 0,
    ensures
        1 <= la_seq(d, pos, n, rc),
        pos + la_seq(d, pos, n, rc) <= d.len(),
        la_seq(d, pos, n, rc) <= 65534,
    decreases 65535 - n,
{
    let rc2: nat = if n > 0 && d[pos + n] == d[pos + n - 1] { rc + 1 } else { 0 };
    let n2 = n + 1;
    if rc2 > 3 {
    } else if n2 + 1 >= 65535 || pos + n2 >= d.len() {
    } else {
        lemma_la_seq_bound(d, pos, n2, rc2);
    }
}

/// Encoder of BPC image data.
pub struct BpcImageCompressor;

impl BpcImageCompressor {
    fn look_ahead_repeats(d: &[u8], pos: usize) -> (r: (u8, u8))
        requires
            pos < d@.len(),
        ensures
            r.0 == d@[pos as int],
            r.1 == la_repeats(d@, pos as int, 0),
            r.1 <= 254,
    {
        let byte_at_pos = d[pos];
        let mut repeats: u8 = 0;
        let n = d.len();
        proof {
            lemma_la_repeats_bound(d@, pos as int, 0);
        }
        while repeats < 254 && (repeats as usize) < n - pos - 1 && d[pos + 1 + repeats as usize] == byte_at_pos
            invariant
                pos < n,
                n == d@.len(),
                repeats <= 254,
                byte_at_pos == d@[pos as int],
                la_repeats(d@, pos as int, repeats as nat) == la_repeats(d@, pos as int, 0),
            decreases 254 - repeats,
        {
            repeats = repeats + 1;
        }
        (byte_at_pos, repeats)
    }

    fn look_ahead_byte_sequence(d: &[u8], pos: usize) -> (r: usize)
        requires
            pos < d@.len(),
        ensures
            r == la_seq(d@, pos as int, 0, 0),
            1 <= r,
            pos + r <= d@.len(),
            r <= 65534,
    {
        proof {
            lemma_la_seq_bound(d@, pos as int, 0, 0);
        }
        let n_total = d.len();
        let mut n: usize = 0;
        let mut rc: usize = 0;
        loop
            invariant
                pos + n < n_total,
                n_total == d@.len(),
                n <= 65533,
                rc <= 3,
                n > 0 ==> rc < n,
                n == 0 ==> rc == 0,
                la_seq(d@, pos as int, n as nat, rc as nat) == la_seq(d@, pos as int, 0, 0),
            decreases 65535 - n,
        {
            let b = d[pos + n];
            let rc2: usize = if n > 0 && b == d[pos + n - 1] { rc + 1 } else { 0 };
            let n2 = n + 1;
            if rc2 > 3 {
                return n2 - 4;
            }
            if n2 + 1 >= 65535 || pos + n2 >= n_total {
                return n2;
            }
            n = n2;
            rc = rc2;
        }
    }

    /// Compresses `decompressed_data`, which must have an even length.
    pub fn run(decompressed_data: &[u8]) -> (r: PyResult<Vec<u8>>)
        ensures
            decompressed_data@.len() % 2 != 0 ==> r is Err,
            decompressed_data@.len() % 2 == 0 ==> (r matches Ok(v) && v@ == bpc_image_compress(decompressed_data@)),
    {
        if decompressed_data.len() % 2 != 0 {
            return Err(exceptions::PyValueError::new_err(
                "BPC Image compressor can only compress data with an even length.",
            ));
        }
        let d = decompressed_data;
        let n = d.len();
        let mut out: Vec<u8> = Vec::new();
        let mut pos: usize = 0;
        let mut pattern: u8 = 0;
        let mut pattern_buffer: u8 = 0;
        while pos < n
            invariant
                n == d@.len(),
                pos <= n,
                bpc_comp_run(d@, BpcCompState { pos: pos as int, out: out@, pattern, buffer: pattern_buffer })
                    == bpc_image_compress(d@),
            decreases n - pos,
        {
            let ghost st = BpcCompState { pos: pos as int, out: out@, pattern, buffer: pattern_buffer };
            let (repeat_pattern, repeat_count) = Self::look_ahead_repeats(d, pos);
            proof {
                lemma_la_repeats_bound(d@, pos as int, 0);
            }
            if repeat_count >= 3 {
                let current = repeat_pattern == pattern;
                let cycle = !current && repeat_pattern == pattern_buffer;
                let write = !current && !cycle;
                let mut cmd: u8 = if current { 0xC0 } else if cycle { 0xE0 } else { 0x80 };
                if cycle {
                    let t = pattern;
                    pattern = pattern_buffer;
                    pattern_buffer = t;
                } else if write {
                    pattern_buffer = pattern;
                    pattern = repeat_pattern;
                }
                let ghost before = out@;
                if repeat_count <= 30 || (repeat_count <= 62 && write) {
                    cmd = cmd + repeat_count;
                    out.push(cmd);
                } else {
                    let next_cmd: u8 = if current { 0xDF } else if cycle { 0xFF } else { 0xBF };
                    out.push(next_cmd);
                    out.push(repeat_count);
                }
                if write {
                    out.push(repeat_pattern);
                }
                proof {
                    let st2 = bpc_comp_step(d@, st);
                    assert(out@ =~= st2.out);
                }
                pos = pos + repeat_count as usize + 1;
            } else {
                let l = Self::look_ahead_byte_sequence(d, pos);
                let reps: usize = l - 1;
                if reps <= 125 {
                    out.push(reps as u8);
                } else if reps <= 255 {
                    out.push(0x7E);
                    out.push(reps as u8);
                } else {
                    out.push(0x7F);
                    push_u16_le(&mut out, reps as u16);
                }
                let piece = copy_range(d, pos, pos + l);
                push_all(&mut out, piece.as_slice());
                proof {
                    let st2 = bpc_comp_step(d@, st);
                    assert(out@ =~= st2.out);
                }
                pos = pos + l;
            }
        }
        Ok(out)
    }
}

/// A container of compressed BPC image data: the magic `BPCIMG`, the decompressed length,
/// then the compressed data.
pub struct BpcImageCompressionContainer {
    pub compressed_data: Vec<u8>,
    pub length_decompressed: u16,
}

pub open spec fn bpc_image_magic() -> Seq<u8> {
    seq![0x42u8, 0x50, 0x43, 0x49, 0x4D, 0x47]
}

impl BpcImageCompressionContainer {
    pub const DATA_START: usize = 8;

    /// A container of `data` compressed (its length kept in 16 bits).
    pub fn compress(data: &[u8]) -> (r: PyResult<Self>)
        ensures
            data@.len() % 2 != 0 ==> r is Err,
            data@.len() % 2 == 0 ==> (r matches Ok(c) && c.compressed_data@ == bpc_image_compress(data@)
                && c.length_decompressed == data@.len() as u16),
    {
        match BpcImageCompressor::run(data) {
            Ok(compressed_data) => Ok(Self { length_decompressed: data.len() as u16, compressed_data }),
            Err(e) => Err(e),
        }
    }

    /// The number of bytes from `byte_offset` to the end (in 16 bits).
    pub fn cont_size(data: &[u8], byte_offset: usize) -> (r: u16)
        requires
            byte_offset <= data@.len(),
        ensures
            r == (data@.len() - byte_offset) as u16,
    {
        (data.len() - byte_offset) as u16
    }

    /// Reads a container: magic (not checked), decompressed length, compressed data.
    pub fn new(data: &[u8]) -> (r: PyResult<Self>)
        requires
            data@.len() >= 8,
        ensures
            r matches Ok(c) && c.length_decompressed == le16(data@, 6) && c.compressed_data@ == data@.skip(8),
    {
        let length_decompressed = read_u16_le(data, 6);
        let compressed_data = copy_range(data, 8, data.len());
        assert(compressed_data@ =~= data@.skip(8));
        Ok(Self { compressed_data, length_decompressed })
    }

    /// Decompresses the data to the stored length.
    pub fn decompress(&self) -> (r: PyResult<StBytesMut>)
        ensures
            self.length_decompressed % 2 != 0 ==> r is Err,
            self.length_decompressed % 2 == 0 ==> match bpc_image_decompress(self.compressed_data@, self.length_decompressed as nat) {
                Some(o) => r matches Ok(v) && v@ == o,
                None => r is Err,
            },
    {
        match BpcImageDecompressor::run(self.compressed_data.as_slice(), self.length_decompressed as usize) {
            Ok(v) => Ok(StBytesMut(v)),
            Err(e) => Err(e),
        }
    }

    /// Magic, decompressed length, compressed data.
    pub fn to_bytes(&self) -> (r: StBytesMut)
        ensures
            r@ == bpc_image_magic() + u16_le_bytes(self.length_decompressed) + self.compressed_data@,
    {
        let mut res: Vec<u8> = Vec::new();
        res.push(0x42);
        res.push(0x50);
        res.push(0x43);
        res.push(0x49);
        res.push(0x4D);
        res.push(0x47);
        assert(res@ =~= bpc_image_magic());
        push_u16_le(&mut res, self.length_decompressed);
        push_all(&mut res, self.compressed_data.as_slice());
        StBytesMut(res)
    }
}

proof fn lemma_la_repeats_eq(d: Seq<u8>, pos: int, r: nat)
    requires
        0 <= pos,
        forall|j: int| 1 <= j <= r ==> #[trigger] d[pos + j] == d[pos],
    ensures
        forall|j: int| 1 <= j <= la_repeats(d, pos, r) ==> #[trigger] d[pos + j] == d[pos],
    decreases 254 - r,
{
    if r < 254 && pos + 1 + r < d.len() && d[pos + 1 + r] == d[pos] {
        lemma_la_repeats_eq(d, pos, r + 1);
    }
}

proof fn lemma_comp_run_prefix(d: Seq<u8>, st: BpcCompState)
    ensures
        bpc_comp_run(d, st).len() >= st.out.len(),
        bpc_comp_run(d, st).subrange(0, st.out.len() as int) == st.out,
    decreases (if st.pos < d.len() { d.len() - st.pos } else { 0 }),
{
    if st.pos >= d.len() || st.pos < 0 {
        assert(st.out.subrange(0, st.out.len() as int) =~= st.out);
    } else {
        let st2 = bpc_comp_step(d, st);
        if st2.pos <= st.pos {
            assert(st.out.subrange(0, st.out.len() as int) =~= st.out);
        } else {
            lemma_comp_run_prefix(d, st2);
            let c = bpc_comp_run(d, st2);
            assert(st2.out.subrange(0, st.out.len() as int) =~= st.out);
            assert(c.subrange(0, st.out.len() as int) =~= st2.out.subrange(0, st2.out.len() as int).subrange(0, st.out.len() as int));
        }
    }
}

/// Whether decompressor state `ds` matches compressor state `cs` on `d`.
pub open spec fn bpc_states_match(d: Seq<u8>, cs: BpcCompState, ds: BpcImgState) -> bool {
    &&& ds.pos == cs.out.len()
    &&& 0 <= cs.pos <= d.len()
    &&& bpc_img_flat(ds) == d.take(cs.pos)
    &&& ds.pattern == cs.pattern
    &&& ds.pattern_buffer == cs.buffer
}

proof fn lemma_comp_step_advances(d: Seq<u8>, cs: BpcCompState)
    requires
        0 <= cs.pos < d.len(),
    ensures
        bpc_comp_step(d, cs).pos > cs.pos,
{
    lemma_la_repeats_bound(d, cs.pos, 0);
    if la_repeats(d, cs.pos, 0) < 3 {
        lemma_la_seq_bound(d, cs.pos, 0, 0);
    }
}

proof fn lemma_comp_step_decomp(d: Seq<u8>, cs: BpcCompState, ds: BpcImgState, c: Seq<u8>)
    requires
        bpc_states_match(d, cs, ds),
        cs.pos < d.len(),
        c.len() >= bpc_comp_step(d, cs).out.len(),
        c.subrange(0, bpc_comp_step(d, cs).out.len() as int) == bpc_comp_step(d, cs).out,
    ensures
        bpc_img_process(c, ds) matches Some(ds2) && bpc_states_match(d, bpc_comp_step(d, cs), ds2) && ds2.pos > ds.pos,
        bpc_comp_step(d, cs).pos > cs.pos,
{
    let cs2 = bpc_comp_step(d, cs);
    let p0 = ds.pos as int;
    let pos = cs.pos;
    let n0 = cs.out.len() as int;
    let e = cs2.out.subrange(n0, cs2.out.len() as int);
    assert forall|j: int| 0 <= j < e.len() implies c[n0 + j] == #[trigger] e[j] by {
        assert(c.subrange(0, cs2.out.len() as int)[n0 + j] == c[n0 + j]);
    }
    lemma_la_repeats_bound(d, pos, 0);
    let r = la_repeats(d, pos, 0);
    let b = d[pos];
    if r >= 3 {
        lemma_la_repeats_eq(d, pos, 0);
        assert(pos + 1 + r <= d.len());
        assert forall|j: int| 0 <= j <= r implies #[trigger] d[pos + j] == b by {
            if j >= 1 {
                assert(d[pos + j] == d[pos]);
            }
        }
        let current = b == cs.pattern;
        let cycle = !current && b == cs.buffer;
        let write = !current && !cycle;
        let base: int = if current { 0xC0 } else if cycle { 0xE0 } else { 0x80 };
        let next_cmd: u8 = if current { 0xDF } else if cycle { 0xFF } else { 0xBF };
        let cmd = if r <= 30 || (r <= 62 && write) { seq![(base + r) as u8] } else { seq![next_cmd, r as u8] };
        assert(e =~= cmd + (if write { seq![b] } else { Seq::<u8>::empty() }));
        assert(c[p0] == e[0]);
        if cmd.len() == 2 {
            assert(c[p0 + 1] == e[1]);
            if write {
                assert(c[p0 + 2] == e[2]);
            }
        } else if write {
            assert(c[p0 + 1] == e[1]);
        }
        lemma_bpc_img_process(c, ds);
        let ds2 = bpc_img_process(c, ds).unwrap();
        assert forall|i: int| 0 <= i < r + 1 implies #[trigger] d.subrange(pos, pos + r + 1)[i] == b by {
            assert(d[pos + i] == b);
        }
        assert(Seq::new((r + 1) as nat, |i: int| b) =~= d.subrange(pos, pos + r + 1));
        assert(d.take(pos) + d.subrange(pos, pos + r + 1) =~= d.take(pos + r + 1));
    } else {
        lemma_la_seq_bound(d, pos, 0, 0);
        let l = la_seq(d, pos, 0, 0);
        let reps = l - 1;
        assert(e =~= copy_cmd(reps) + d.subrange(pos, pos + l));
        let cc = copy_cmd(reps);
        assert(c[p0] == e[0]);
        if reps <= 125 {
            assert(c[p0] == reps as u8);
        } else if reps <= 255 {
            assert(c[p0 + 1] == e[1]);
        } else {
            assert(reps < 0x10000);
            assert(c[p0 + 1] == e[1]);
            assert(c[p0 + 2] == e[2]);
            assert(u16_le_bytes(reps as u16)[0] + 256 * u16_le_bytes(reps as u16)[1] == reps);
        }
        assert(bpc_cmd_body(c, p0) == p0 + cc.len());
        assert(bpc_cmd_count(c, p0) == reps);
        lemma_bpc_img_process(c, ds);
        let ds2 = bpc_img_process(c, ds).unwrap();
        let p2 = bpc_cmd_body(c, p0);
        assert forall|i: int| 0 <= i < l implies #[trigger] c.subrange(p2, p2 + l)[i] == d.subrange(pos, pos + l)[i] by {
            assert(e[cc.len() + i] == d.subrange(pos, pos + l)[i]);
            assert(c[n0 + (cc.len() + i)] == e[cc.len() + i]);
        }
        assert(c.subrange(p2, p2 + l) =~= d.subrange(pos, pos + l));
        assert(d.take(pos) + d.subrange(pos, pos + l) =~= d.take(pos + l));
    }
}

proof fn lemma_roundtrip_run(d: Seq<u8>, cs: BpcCompState, ds: BpcImgState, c: Seq<u8>)
    requires
        bpc_states_match(d, cs, ds),
        c == bpc_comp_run(d, cs),
    ensures
        bpc_img_run(c, ds, d.len()) == Some(d),
    decreases d.len() - cs.pos,
{
    lemma_comp_run_prefix(d, cs);
    if cs.pos >= d.len() {
        assert(d.take(cs.pos) =~= d);
        assert(c == cs.out);
        if ds.has_leftover {
            assert(ds.out.len() + 1 == d.len());
            assert(ds.out.push(ds.leftover) =~= ds.out + seq![ds.leftover]);
        } else {
            assert(ds.out == d);
        }
    } else {
        let cs2 = bpc_comp_step(d, cs);
        lemma_comp_step_advances(d, cs);
        assert(c == bpc_comp_run(d, cs2));
        lemma_comp_run_prefix(d, cs2);
        lemma_comp_step_decomp(d, cs, ds, c);
        let ds2 = bpc_img_process(c, ds).unwrap();
        assert(bpc_img_flat(ds).len() == cs.pos);
        assert(ds.out.len() < d.len());
        lemma_roundtrip_run(d, cs2, ds2, c);
    }
}

/// Decompressing the BPC image compression of data of even length to that length gives the data
/// back.
pub proof fn lemma_bpc_image_roundtrip(d: Seq<u8>)
    requires
        d.len() % 2 == 0,
    ensures
        bpc_image_decompress(bpc_image_compress(d), d.len()) == Some(d),
{
    let cs = BpcCompState { pos: 0, out: Seq::empty(), pattern: 0, buffer: 0 };
    assert(d.take(0) =~= Seq::<u8>::empty());
    lemma_roundtrip_run(d, cs, bpc_img_initial(), bpc_image_compress(d));
}

} // verus!
