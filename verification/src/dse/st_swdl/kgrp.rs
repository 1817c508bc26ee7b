//! The key group chunk of a SWDL file.
use crate::bytes::le16;
use crate::bytes::le32;
use crate::bytes::u16_le_bytes;
use crate::bytes::u32_le_bytes;
use crate::bytes::StBytes;
use crate::dse::st_smdl::eoc::magic_at;
use crate::python::exceptions::PyAssertionError;
use crate::python::ErrorKind;
use crate::python::PyResult;
use vstd::prelude::*;

verus! {

/// "kgrp"
pub open spec fn kgrp_magic() -> Seq<u8> {
    seq![107u8, 103u8, 114u8, 112u8]
}

/// The 12 bytes after a SWDL chunk's magic: the fixed bytes and the chunk data length.
pub open spec fn chunk_head(len: u32) -> Seq<u8> {
    seq![0u8, 0, 0x15, 0x04, 0x10, 0, 0, 0] + u32_le_bytes(len)
}

/// One key group (8 bytes).
#[derive(Clone, Copy, Debug, PartialEq, Eq, Structural)]
pub struct SwdlKeygroup {
    pub id: u16,
    pub poly: i8,
    pub priority: u8,
    pub vclow: u8,
    pub vchigh: u8,
    pub unk50: u8,
    pub unk51: u8,
}

/// The key group stored at `p`.
pub open spec fn keygroup_at(s: Seq<u8>, p: int) -> SwdlKeygroup {
    SwdlKeygroup {
        id: le16(s, p) as u16,
        poly: s[p + 2] as i8,
        priority: s[p + 3],
        vclow: s[p + 4],
        vchigh: s[p + 5],
        unk50: s[p + 6],
        unk51: s[p + 7],
    }
}

/// The 8 bytes of a key group.
pub open spec fn keygroup_bytes(k: SwdlKeygroup) -> Seq<u8> {
    u16_le_bytes(k.id) + seq![k.poly as u8, k.priority, k.vclow, k.vchigh, k.unk50, k.unk51]
}

impl SwdlKeygroup {
    /// Reads the key group at `pos`; fails where fewer than 8 bytes remain.
    pub fn from_bytes(source: &[u8], pos: usize) -> (r: PyResult<Self>)
        requires
            pos <= source@.len(),
        ensures
            source@.len() - pos < 8 ==> (r matches Err(e) && e.kind == ErrorKind::AssertionError),
            source@.len() - pos >= 8 ==> r == Ok::<SwdlKeygroup, crate::python::PyErr>(keygroup_at(source@, pos as int)),
    {
        if source.len() - pos < 8 {
            return Err(PyAssertionError::new_err("SWDL file too short (Keygroup EOF)."));
        }
        Ok(SwdlKeygroup {
            id: crate::bytes::read_u16_le(source, pos),
            poly: source[pos + 2] as i8,
            priority: source[pos + 3],
            vclow: source[pos + 4],
            vchigh: source[pos + 5],
            unk50: source[pos + 6],
            unk51: source[pos + 7],
        })
    }

    /// The 8 bytes of this key group.
    pub fn to_bytes(&self) -> (r: StBytes)
        ensures
            r@ == keygroup_bytes(*self),
    {
        let mut b: Vec<u8> = Vec::new();
        crate::bytes::push_u16_le(&mut b, self.id);
        b.push(self.poly as u8);
        b.push(self.priority);
        b.push(self.vclow);
        b.push(self.vchigh);
        b.push(self.unk50);
        b.push(self.unk51);
        StBytes(b)
    }
}

/// The key group chunk.
pub struct SwdlKgrp {
    pub keygroups: Vec<SwdlKeygroup>,
}

/// The key groups of a chunk with `len` bytes of data at `p`: one per whole 8 bytes.
pub open spec fn keygroups_at(s: Seq<u8>, p: int, len: nat) -> Seq<SwdlKeygroup> {
    Seq::new(len / 8, |i: int| keygroup_at(s, p + 8 * i))
}

/// The data of the first `k` key groups.
pub open spec fn keygroups_bytes(g: Seq<SwdlKeygroup>, k: nat) -> Seq<u8>
    decreases k,
{
    if k == 0 {
        Seq::empty()
    } else {
        keygroups_bytes(g, (k - 1) as nat) + keygroup_bytes(g[k - 1])
    }
}

/// The bytes of a key group chunk; where the data is no multiple of 16 bytes, 8 fixed bytes
/// follow it.
pub open spec fn kgrp_bytes(g: Seq<SwdlKeygroup>) -> Seq<u8> {
    let content = keygroups_bytes(g, g.len());
    kgrp_magic() + chunk_head(content.len() as u32) + content + (if content.len() % 16 != 0 {
        seq![0xc7u8, 0xc8, 0x40, 0x00, 0xd0, 0x11, 0xa0, 0x04]
    } else {
        Seq::empty()
    })
}

proof fn lemma_keygroups_bytes_len(g: Seq<SwdlKeygroup>, k: nat)
    ensures
        keygroups_bytes(g, k).len() == 8 * k,
    decreases k,
{
    if k > 0 {
        lemma_keygroups_bytes_len(g, (k - 1) as nat);
    }
}

impl SwdlKgrp {
    /// Reads the chunk at `pos`: the magic, the data length, then that many bytes of key groups.
    /// Returns the chunk and the position after its data.
    pub fn from_bytes(source: &[u8], pos: usize) -> (r: PyResult<(Self, usize)>)
        requires
            pos <= source@.len(),
        ensures
            ({
                let s = source@;
                if s.len() - pos < 16 || s.subrange(pos as int, pos + 4) != kgrp_magic()
                    || s.len() - pos - 16 < le32(s, pos + 12) {
                    r matches Err(e) && e.kind == ErrorKind::AssertionError
                } else {
                    r matches Ok((k, end)) && k.keygroups@ == keygroups_at(s, pos + 16, le32(s, pos + 12) as nat)
                        && end == pos + 16 + 8 * (le32(s, pos + 12) / 8)
                }
            }),
    {
        if source.len() - pos < 16 {
            return Err(PyAssertionError::new_err("SWDL file too short (Kgrp EOF)."));
        }
        if !magic_at(source, pos, 107, 103, 114, 112) {
            return Err(PyAssertionError::new_err("Invalid SWDL/Kgrp header."));
        }
        let len = crate::bytes::read_u32_le(source, pos + 12) as usize;
        if source.len() - pos - 16 < len {
            return Err(PyAssertionError::new_err("SWDL file too short (Kgrp EOF)."));
        }
        let n = len / 8;
        let ghost goal = keygroups_at(source@, pos + 16, len as nat);
        let mut keygroups: Vec<SwdlKeygroup> = Vec::new();
        let mut i: usize = 0;
        let slen = source.len();
        while i < n
            invariant
                slen == source@.len(),
                n == len / 8,
                pos + 16 + len <= source@.len(),
                goal == keygroups_at(source@, pos + 16, len as nat),
                i <= n,
                keygroups@ == goal.take(i as int),
            decreases n - i,
        {
            assert(8 * i + 8 <= len) by (nonlinear_arith)
                requires
                    i < n,
                    n == len / 8,
            ;
            let k = SwdlKeygroup::from_bytes(source, pos + 16 + 8 * i)?;
            proof {
                assert(goal.take(i + 1) =~= goal.take(i as int).push(k));
            }
            keygroups.push(k);
            i = i + 1;
        }
        assert(goal.take(n as int) =~= goal);
        assert(8 * n <= len) by (nonlinear_arith)
            requires
                n == len / 8,
        ;
        Ok((SwdlKgrp { keygroups }, pos + 16 + 8 * n))
    }

    /// The bytes of this chunk (see `kgrp_bytes`).
    pub fn to_bytes(&self) -> (r: StBytes)
        requires
            8 * self.keygroups@.len() <= u32::MAX,
        ensures
            r@ == kgrp_bytes(self.keygroups@),
    {
        let g = &self.keygroups;
        let mut content: Vec<u8> = Vec::new();
        let mut i: usize = 0;
        while i < g.len()
            invariant
                i <= g@.len(),
                content@ == keygroups_bytes(g@, i as nat),
            decreases g@.len() - i,
        {
            let b = g[i].to_bytes();
            crate::bytes::push_all(&mut content, b.as_slice());
            i = i + 1;
        }
        proof {
            lemma_keygroups_bytes_len(g@, g@.len());
        }
        let len_content = content.len();
        let mut data: Vec<u8> = Vec::new();
        crate::bytes::push_all(&mut data, &[107u8, 103, 114, 112, 0, 0, 0x15, 0x04, 0x10, 0, 0, 0]);
        crate::bytes::push_u32_le(&mut data, len_content as u32);
        crate::bytes::push_all(&mut data, content.as_slice());
        if len_content % 16 != 0 {
            crate::bytes::push_all(&mut data, &[0xc7u8, 0xc8, 0x40, 0x00, 0xd0, 0x11, 0xa0, 0x04]);
        }
        proof {
            assert(data@ =~= kgrp_bytes(g@));
        }
        StBytes(data)
    }
}


/// Reading back the bytes of a key group gives the key group.
pub proof fn lemma_keygroup_roundtrip(k: SwdlKeygroup)
    ensures
        keygroup_at(keygroup_bytes(k), 0) == k,
{
    let b = keygroup_bytes(k);
    assert(b.subrange(0, 2) =~= u16_le_bytes(k.id));
    crate::bytes::lemma_le16_at(b, 0, k.id);
    crate::bytes::lemma_i8_roundtrip(k.poly);
}


proof fn lemma_keygroups_bytes_at(g: Seq<SwdlKeygroup>, n: nat)
    requires
        n <= g.len(),
    ensures
        keygroups_bytes(g, n).len() == 8 * n,
        forall|i: int| 0 <= i < n ==> #[trigger] keygroups_bytes(g, n).subrange(8 * i, 8 * i + 8) == keygroup_bytes(g[i]),
    decreases n,
{
    if n > 0 {
        lemma_keygroups_bytes_at(g, (n - 1) as nat);
        let b = keygroups_bytes(g, n);
        let p = keygroups_bytes(g, (n - 1) as nat);
        assert forall|i: int| 0 <= i < n implies #[trigger] b.subrange(8 * i, 8 * i + 8) == keygroup_bytes(g[i]) by {
            if i < n - 1 {
                assert(b.subrange(8 * i, 8 * i + 8) =~= p.subrange(8 * i, 8 * i + 8));
            } else {
                assert(b.subrange(8 * i, 8 * i + 8) =~= keygroup_bytes(g[i]));
            }
        }
    }
}

/// Reading back the key group chunk that writing `g` gives returns `g`.
pub proof fn lemma_kgrp_roundtrip(g: Seq<SwdlKeygroup>)
    requires
        8 * g.len() <= u32::MAX,
    ensures
        ({
            let s = kgrp_bytes(g);
            &&& !(s.len() < 16 || s.subrange(0, 4) != kgrp_magic() || s.len() - 16 < le32(s, 12))
            &&& keygroups_at(s, 16, le32(s, 12) as nat) == g
        }),
{
    let s = kgrp_bytes(g);
    let c = keygroups_bytes(g, g.len());
    lemma_keygroups_bytes_at(g, g.len());
    assert(s.subrange(0, 4) =~= kgrp_magic());
    assert(s.subrange(12, 16) =~= u32_le_bytes(c.len() as u32));
    crate::bytes::lemma_le32_at(s, 12, c.len() as u32);
    assert(le32(s, 12) == 8 * g.len());
    assert forall|i: int| 0 <= i < g.len() implies #[trigger] keygroups_at(s, 16, le32(s, 12) as nat)[i] == g[i] by {
        let kb = s.subrange(16 + 8 * i, 16 + 8 * i + 8);
        assert(kb =~= c.subrange(8 * i, 8 * i + 8));
        lemma_keygroup_roundtrip(g[i]);
        assert(keygroup_at(s, 16 + 8 * i) == keygroup_at(kb, 0)) by {
            assert(s[16 + 8 * i] == kb[0] && s[16 + 8 * i + 1] == kb[1]);
        }
    }
    assert(keygroups_at(s, 16, le32(s, 12) as nat) =~= g);
}

} // verus!
