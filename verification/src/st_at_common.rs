//! What all compression containers share, and dispatch on their magic.
use crate::bytes::le16;
use crate::bytes::StBytesMut;
use crate::python::exceptions::PyValueError;
use crate::python::ErrorKind;
use crate::python::PyResult;
use crate::bytes::u16_le_bytes;
use crate::compression::px::px_compress;
use crate::compression::px::PxCompLevel;
use crate::st_at3px::at3px_magic;
use crate::st_at3px::At3px;
use crate::st_at4pn::at4pn_magic;
use crate::st_at4pn::At4pn;
use crate::st_atupx::atupx_magic;
use crate::st_atupx::Atupx;
use vstd::prelude::*;

verus! {

/// The kinds of compression container.
#[derive(PartialEq, Eq, Structural, Clone, Copy, Debug)]
pub enum CommonAtType {
    AT4PN,
    AT3PX,
    AT4PX,
    ATUPX,
    PKDPX,
}

/// "AT4PX"
pub open spec fn at4px_magic() -> Seq<u8> {
    seq![65u8, 84u8, 52u8, 80u8, 88u8]
}

/// "PKDPX"
pub open spec fn pkdpx_magic() -> Seq<u8> {
    seq![80u8, 75u8, 68u8, 80u8, 88u8]
}

/// A container format: its compressed size is the 16-bit value after the 5-byte magic.
pub trait CompressionContainer {
    fn cont_size(data: &[u8], byte_offset: usize) -> (r: u16)
        requires
            byte_offset + 7 <= data@.len(),
        ensures
            r == le16(data@, byte_offset + 5),
    {
        let n = data.len();
        crate::bytes::read_u16_le(data, byte_offset + 5)
    }
}

/// The magic that `data` starts with, where it is one of a container.
pub open spec fn container_magic(data: Seq<u8>) -> Option<CommonAtType> {
    let m = data.subrange(0, 5);
    if m == at4pn_magic() {
        Some(CommonAtType::AT4PN)
    } else if m == at4px_magic() {
        Some(CommonAtType::AT4PX)
    } else if m == at3px_magic() {
        Some(CommonAtType::AT3PX)
    } else if m == pkdpx_magic() {
        Some(CommonAtType::PKDPX)
    } else if m == atupx_magic() {
        Some(CommonAtType::ATUPX)
    } else {
        None
    }
}

/// Operations on any compression container.
pub struct CommonAt {}

impl CommonAt {
    pub(crate) fn magic(data: &[u8]) -> (r: Option<CommonAtType>)
        requires
            data@.len() >= 5,
        ensures
            r == container_magic(data@),
    {
        let m = [data[0], data[1], data[2], data[3], data[4]];
        assert(m@ =~= data@.subrange(0, 5));
        if m[0] == 65 && m[1] == 84 && m[2] == 52 && m[3] == 80 && m[4] == 78 {
            assert(m@ =~= at4pn_magic());
            Some(CommonAtType::AT4PN)
        } else if m[0] == 65 && m[1] == 84 && m[2] == 52 && m[3] == 80 && m[4] == 88 {
            assert(m@ =~= at4px_magic());
            assert(m@ != at4pn_magic());
            Some(CommonAtType::AT4PX)
        } else if m[0] == 65 && m[1] == 84 && m[2] == 51 && m[3] == 80 && m[4] == 88 {
            assert(m@ =~= at3px_magic());
            assert(m@ != at4pn_magic() && m@ != at4px_magic());
            Some(CommonAtType::AT3PX)
        } else if m[0] == 80 && m[1] == 75 && m[2] == 68 && m[3] == 80 && m[4] == 88 {
            assert(m@ =~= pkdpx_magic());
            assert(m@ != at4pn_magic() && m@ != at4px_magic() && m@ != at3px_magic());
            Some(CommonAtType::PKDPX)
        } else if m[0] == 65 && m[1] == 84 && m[2] == 85 && m[3] == 80 && m[4] == 88 {
            assert(m@ =~= atupx_magic());
            assert(m@ != at4pn_magic() && m@ != at4px_magic() && m@ != at3px_magic() && m@ != pkdpx_magic());
            Some(CommonAtType::ATUPX)
        } else {
            assert(m@ != at4pn_magic() && m@ != at4px_magic() && m@ != at3px_magic() && m@ != pkdpx_magic()
                && m@ != atupx_magic()) by {
                if m@ == at4pn_magic() { assert(m@[4] == 78); }
                if m@ == at4px_magic() { assert(m@[2] == 52); }
                if m@ == at3px_magic() { assert(m@[2] == 51); }
                if m@ == pkdpx_magic() { assert(m@[0] == 80); }
                if m@ == atupx_magic() { assert(m@[2] == 85); }
            }
            None
        }
    }

    /// The compressed size of the container at `byte_offset`, or `None` where no container
    /// starts there.
    pub fn cont_size(data: &[u8], byte_offset: usize) -> (r: Option<u16>)
        requires
            byte_offset + 5 <= data@.len(),
            container_magic(data@.subrange(byte_offset as int, data@.len() as int)) is Some ==> byte_offset + 7
                <= data@.len(),
        ensures
            container_magic(data@.subrange(byte_offset as int, data@.len() as int)) is None ==> r is None,
            container_magic(data@.subrange(byte_offset as int, data@.len() as int)) is Some ==> r == Some(
                le16(data@, byte_offset + 5) as u16,
            ),
    {
        let rest = vstd::slice::slice_subrange(data, byte_offset, data.len());
        match Self::magic(rest) {
            Some(_) => {
                let v = At4pn::cont_size(rest, 0);
                Some(v)
            },
            None => None,
        }
    }

    /// Decompresses an AT4PN, AT3PX or ATUPX container. AT4PX and PKDPX containers are
    /// refused, as is data that is no container.
    pub fn decompress(compressed_data: &[u8]) -> (r: PyResult<StBytesMut>)
        requires
            compressed_data@.len() >= 5,
            container_magic(compressed_data@) == Some(CommonAtType::AT4PN) ==> compressed_data@.len() >= 7,
            container_magic(compressed_data@) == Some(CommonAtType::AT3PX) ==> compressed_data@.len() >= 16
                && At3px::decompress_ok(At3px::parse(compressed_data@)),
            container_magic(compressed_data@) == Some(CommonAtType::ATUPX) ==> compressed_data@.len() >= 11
                && Atupx::decompress_ok(Atupx::parse(compressed_data@)),
        ensures
            container_magic(compressed_data@) == Some(CommonAtType::AT4PN) ==> (r is Ok <==> le16(
                compressed_data@,
                5,
            ) == ((compressed_data@.len() - 7) as u16)) && (r matches Ok(v) ==> v@ == compressed_data@.subrange(
                7,
                compressed_data@.len() as int,
            )),
            container_magic(compressed_data@) == Some(CommonAtType::AT3PX) ==> At3px::decompress_result(
                At3px::parse(compressed_data@),
                r,
            ),
            container_magic(compressed_data@) == Some(CommonAtType::ATUPX) ==> (r matches Ok(v) && v@
                == Atupx::decompressed(Atupx::parse(compressed_data@))),
            container_magic(compressed_data@) is None ==> r is Err,
            container_magic(compressed_data@) == Some(CommonAtType::AT4PX) ==> r is Err,
            container_magic(compressed_data@) == Some(CommonAtType::PKDPX) ==> r is Err,
    {
        match Self::magic(compressed_data) {
            Some(CommonAtType::AT4PN) => {
                let c = At4pn::new(compressed_data, false)?;
                c.decompress()
            },
            Some(CommonAtType::AT3PX) => {
                let c = At3px::new(compressed_data)?;
                c.decompress()
            },
            Some(CommonAtType::ATUPX) => {
                let c = Atupx::new(compressed_data)?;
                let v = c.decompress()?;
                Ok(StBytesMut(v.0))
            },
            Some(_) => Err(PyValueError::new_err("Unsupported compression container")),
            None => Err(PyValueError::new_err("Unknown compression container")),
        }
    }
}

/// The container that compressing `data` into format `t` gives, where that format can be
/// used: AT4PN always, AT3PX where PX compression succeeds. AT4PX, PKDPX and (with callers
/// that do not allow it) ATUPX give none.
pub open spec fn at_candidate(data: Seq<u8>, t: CommonAtType) -> Option<Seq<u8>> {
    match t {
        CommonAtType::AT4PN => Some(at4pn_magic() + u16_le_bytes(data.len() as u16) + data),
        CommonAtType::AT3PX => if data.len() > u32::MAX {
            None
        } else {
            let (o, f) = px_compress(data, PxCompLevel::Level3, true);
            if o.len() > 65535 {
                None
            } else {
                Some(at3px_magic() + u16_le_bytes((o.len() + 16) as u16) + f + o)
            }
        },
        _ => None,
    }
}

/// The smallest container among the formats `ts[0..k]` (the first one where sizes are equal).
pub open spec fn at_best(data: Seq<u8>, ts: Seq<CommonAtType>, k: nat) -> Option<Seq<u8>>
    decreases k,
{
    if k == 0 {
        None
    } else {
        let prev = at_best(data, ts, (k - 1) as nat);
        match at_candidate(data, ts[k - 1]) {
            Some(c) => if prev is None || c.len() < prev->0.len() { Some(c) } else { prev },
            None => prev,
        }
    }
}

impl CommonAt {
    /// Compresses as `compress` does, where that can be done: gives `None` where ATUPX is both
    /// allowed and asked for, or where AT3PX is asked for and its compressed data is 65520 to
    /// 65535 bytes long (its container length would not fit in 16 bits).
    pub fn compress_checked(uncompressed_data: &[u8], compression_type: &[CommonAtType], allow_atupx: bool) -> (r: Option<PyResult<StBytesMut>>)
        requires
            uncompressed_data@.len() < 0x7FFF_FFF0,
        ensures
            ({
                let n = px_compress(uncompressed_data@, PxCompLevel::Level3, true).0.len();
                let refused = (allow_atupx && compression_type@.contains(CommonAtType::ATUPX))
                    || (compression_type@.contains(CommonAtType::AT3PX) && 65519 < n <= 65535);
                &&& (r is None <==> refused)
                &&& (r matches Some(x) ==> match at_best(uncompressed_data@, compression_type@, compression_type@.len()) {
                    Some(b) => x matches Ok(v) && v@ == b,
                    None => x matches Err(e) && e.kind == ErrorKind::ValueError,
                })
            }),
    {
        let mut has_atupx = false;
        let mut has_at3px = false;
        let mut i: usize = 0;
        while i < compression_type.len()
            invariant
                i <= compression_type@.len(),
                has_atupx <==> exists|q: int| 0 <= q < i && #[trigger] compression_type@[q] == CommonAtType::ATUPX,
                has_at3px <==> exists|q: int| 0 <= q < i && #[trigger] compression_type@[q] == CommonAtType::AT3PX,
            decreases compression_type@.len() - i,
        {
            let t = compression_type[i];
            match t {
                CommonAtType::ATUPX => {
                    has_atupx = true;
                },
                CommonAtType::AT3PX => {
                    has_at3px = true;
                },
                _ => {},
            }
            i = i + 1;
        }
        proof {
            if compression_type@.contains(CommonAtType::ATUPX) {
                let q = choose|q: int| 0 <= q < compression_type@.len() && compression_type@[q] == CommonAtType::ATUPX;
                assert(compression_type@[q] == CommonAtType::ATUPX);
            }
            if compression_type@.contains(CommonAtType::AT3PX) {
                let q = choose|q: int| 0 <= q < compression_type@.len() && compression_type@[q] == CommonAtType::AT3PX;
                assert(compression_type@[q] == CommonAtType::AT3PX);
            }
        }
        if allow_atupx && has_atupx {
            return None;
        }
        if has_at3px {
            match crate::compression::px::PxCompressor::run(uncompressed_data, PxCompLevel::Level3, true) {
                Ok((c, _)) => {
                    if c.0.len() > 65519 {
                        return None;
                    }
                },
                Err(_) => {},
            }
        }
        Some(Self::compress(uncompressed_data, compression_type, allow_atupx))
    }

    /// Compresses `uncompressed_data` into each of the formats in `compression_type` that can
    /// be used and returns the smallest container; fails where none can. ATUPX is only tried
    /// where `allow_atupx` (which callers take from the environment); writing such a container
    /// cannot succeed, so it is not passed together with ATUPX.
    pub fn compress(uncompressed_data: &[u8], compression_type: &[CommonAtType], allow_atupx: bool) -> (r: PyResult<StBytesMut>)
        requires
            uncompressed_data@.len() < 0x7FFF_FFF0,
            allow_atupx ==> !compression_type@.contains(CommonAtType::ATUPX),
            compression_type@.contains(CommonAtType::AT3PX) ==> (px_compress(uncompressed_data@, PxCompLevel::Level3, true).0.len() <= 65519
                || px_compress(uncompressed_data@, PxCompLevel::Level3, true).0.len() > 65535),
        ensures
            match at_best(uncompressed_data@, compression_type@, compression_type@.len()) {
                Some(b) => r matches Ok(v) && v@ == b,
                None => r matches Err(e) && e.kind == ErrorKind::ValueError,
            },
    {
        let mut best: Option<StBytesMut> = None;
        let mut i: usize = 0;
        while i < compression_type.len()
            invariant
                i <= compression_type@.len(),
                uncompressed_data@.len() < 0x7FFF_FFF0,
                compression_type@.contains(CommonAtType::AT3PX) ==> (px_compress(uncompressed_data@, PxCompLevel::Level3, true).0.len() <= 65519
                    || px_compress(uncompressed_data@, PxCompLevel::Level3, true).0.len() > 65535),
                match at_best(uncompressed_data@, compression_type@, i as nat) {
                    Some(b) => best matches Some(v) && v@ == b,
                    None => best is None,
                },
            decreases compression_type@.len() - i,
        {
            let t = compression_type[i];
            let cand: Option<StBytesMut> = match t {
                CommonAtType::AT4PN => {
                    match At4pn::compress(uncompressed_data) {
                        Ok(c) => Some(c.to_bytes()),
                        Err(_) => None,
                    }
                },
                CommonAtType::AT3PX => {
                    assert(compression_type@[i as int] == CommonAtType::AT3PX);
                    match At3px::compress(uncompressed_data) {
                        Ok(c) => Some(c.to_bytes()),
                        Err(_) => None,
                    }
                },
                _ => None,
            };
            assert(match at_candidate(uncompressed_data@, t) {
                Some(c) => cand matches Some(v) && v@ == c,
                None => cand is None,
            });
            match cand {
                Some(c) => {
                    let replace = match &best {
                        None => true,
                        Some(b) => c.0.len() < b.0.len(),
                    };
                    if replace {
                        best = Some(c);
                    }
                },
                None => {},
            }
            i = i + 1;
        }
        match best {
            Some(b) => Ok(b),
            None => Err(PyValueError::new_err("No usable compression algorithm.")),
        }
    }
}


/// Decompressing the AT4PN container that compressing `data` gives returns `data`: the
/// container is recognized, its length field matches, and it holds `data`.
pub proof fn lemma_at4pn_roundtrip(data: Seq<u8>)
    ensures
        ({
            let c = at4pn_magic() + u16_le_bytes(data.len() as u16) + data;
            &&& at_candidate(data, CommonAtType::AT4PN) == Some(c)
            &&& c.len() >= 7
            &&& container_magic(c) == Some(CommonAtType::AT4PN)
            &&& le16(c, 5) == ((c.len() - 7) as u16)
            &&& c.subrange(7, c.len() as int) == data
        }),
{
    let c = at4pn_magic() + u16_le_bytes(data.len() as u16) + data;
    assert(c.subrange(0, 5) =~= at4pn_magic());
    assert(c.subrange(5, 7) =~= u16_le_bytes(data.len() as u16));
    crate::bytes::lemma_le16_at(c, 5, data.len() as u16);
    assert(c.subrange(7, c.len() as int) =~= data);
}

} // verus!
