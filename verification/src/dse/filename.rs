//! File names stored in DSE headers: ASCII, NUL-terminated, in a 16-byte field.
use crate::bytes::StBytes;
use vstd::prelude::*;

verus! {

/// `s` up to its first NUL byte.
pub open spec fn until_nul(s: Seq<u8>) -> Seq<u8>
    decreases s.len(),
{
    if s.len() == 0 || s[0] == 0 {
        Seq::<u8>::empty()
    } else {
        seq![s[0]] + until_nul(s.drop_first())
    }
}

/// The ASCII bytes of `s` (others are dropped).
pub open spec fn ascii_only(s: Seq<u8>) -> Seq<u8>
    decreases s.len(),
{
    if s.len() == 0 {
        Seq::<u8>::empty()
    } else {
        (if s[0] < 128 { seq![s[0]] } else { Seq::<u8>::empty() }) + ascii_only(s.drop_first())
    }
}

/// The characters of ASCII bytes.
pub open spec fn ascii_chars(s: Seq<u8>) -> Seq<char> {
    Seq::new(s.len(), |i: int| s[i] as char)
}

/// The 16-byte field of a name of ASCII characters: up to 15 characters and a NUL ("?" for an
/// empty name), filled with 0xFF.
pub open spec fn dse_filename_field(name: Seq<char>) -> Seq<u8> {
    let kept = if name.len() > 15 { name.take(15) } else { name };
    let bytes = Seq::new(kept.len(), |i: int| kept[i] as u8);
    let body = if bytes.len() == 0 { seq![63u8, 0u8] } else { bytes.push(0) };
    body + Seq::new((16 - body.len()) as nat, |i: int| 0xFFu8)
}

/// A `String` of the given ASCII bytes, through `String::from_utf8` (ASCII is valid UTF-8, with
/// one character per byte).
#[verifier::external_body]
pub(crate) fn string_from_ascii(bytes: Vec<u8>) -> (r: String)
    requires
        forall|i: int| 0 <= i < bytes@.len() ==> bytes@[i] < 128,
    ensures
        r@ == ascii_chars(bytes@),
{
    match String::from_utf8(bytes) {
        Ok(s) => s,
        Err(_) => String::new(),
    }
}

pub proof fn lemma_until_nul_push(s: Seq<u8>, k: int)
    requires
        0 <= k < s.len(),
        forall|j: int| 0 <= j < k ==> s[j] != 0,
    ensures
        s[k] != 0 ==> until_nul(s.take(k + 1)) == until_nul(s.take(k)).push(s[k]),
        s[k] == 0 ==> until_nul(s) == until_nul(s.take(k)),
        until_nul(s.take(k)) == s.take(k),
    decreases k,
{
    if k > 0 {
        assert(s.drop_first().take(k) == s.take(k + 1).drop_first());
        assert(s.drop_first().take(k - 1) == s.take(k).drop_first());
        lemma_until_nul_push(s.drop_first(), k - 1);
    } else {
        assert(s.take(0) == Seq::<u8>::empty());
        if s[0] != 0 {
            assert(s.take(1).drop_first() == Seq::<u8>::empty());
        }
    }
}

proof fn lemma_ascii_only_push(s: Seq<u8>, b: u8)
    ensures
        ascii_only(s.push(b)) == ascii_only(s) + (if b < 128 { seq![b] } else { Seq::<u8>::empty() }),
    decreases s.len(),
{
    if s.len() == 0 {
        assert(s.push(b).drop_first() == Seq::<u8>::empty());
        assert(ascii_only(s.push(b)) == (if b < 128 { seq![b] } else { Seq::<u8>::empty() }) + ascii_only(Seq::<u8>::empty()));
    } else {
        assert(s.push(b).drop_first() == s.drop_first().push(b));
        lemma_ascii_only_push(s.drop_first(), b);
        assert(s.push(b)[0] == s[0]);
    }
}

proof fn lemma_ascii_only_bound(s: Seq<u8>)
    ensures
        forall|i: int| 0 <= i < ascii_only(s).len() ==> #[trigger] ascii_only(s)[i] < 128,
    decreases s.len(),
{
    if s.len() > 0 {
        lemma_ascii_only_bound(s.drop_first());
        let h = if s[0] < 128 { seq![s[0]] } else { Seq::<u8>::empty() };
        assert(ascii_only(s) == h + ascii_only(s.drop_first()));
        assert forall|i: int| 0 <= i < ascii_only(s).len() implies #[trigger] ascii_only(s)[i] < 128 by {
            if i >= h.len() {
                assert(ascii_only(s)[i] == ascii_only(s.drop_first())[i - h.len()]);
            }
        }
    }
}

/// A name of a DSE file.
#[derive(Debug)]
pub struct DseFilename(pub String);

impl DseFilename {
    /// The name in the `len` bytes at `pos`: up to the first NUL, keeping only ASCII bytes.
    pub fn from_bytes_fixed(source: &[u8], pos: usize, len: usize) -> (r: Self)
        requires
            pos + len <= source@.len(),
        ensures
            r.0@ == ascii_chars(ascii_only(until_nul(source@.subrange(pos as int, pos + len)))),
    {
        let ghost s = source@.subrange(pos as int, pos + len);
        let sl = source.len();
        let mut kept: Vec<u8> = Vec::new();
        let mut raw: Vec<u8> = Vec::new();
        let mut k: usize = 0;
        let mut done = false;
        while k < len && !done
            invariant
                sl == source@.len(),
                pos + len <= source@.len(),
                s == source@.subrange(pos as int, pos + len),
                k <= len,
                forall|j: int| 0 <= j < k ==> s[j] != 0,
                !done ==> raw@ == s.take(k as int),
                done ==> raw@ == until_nul(s),
                !done ==> until_nul(s.take(k as int)) == s.take(k as int),
                kept@ == ascii_only(raw@),
            decreases len - k, if done { 0int } else { 1int },
        {
            let b = source[pos + k];
            proof {
                lemma_until_nul_push(s, k as int);
            }
            if b == 0 {
                done = true;
            } else {
                proof {
                    lemma_ascii_only_push(raw@, b);
                    assert(s.take(k as int + 1) == s.take(k as int).push(b));
                }
                raw.push(b);
                if b < 128 {
                    kept.push(b);
                }
                k = k + 1;
            }
        }
        proof {
            if !done {
                assert(s.take(len as int) == s);
            }
            lemma_ascii_only_bound(raw@);
        }
        DseFilename(string_from_ascii(kept))
    }

    /// The name stored from `pos` on, up to the first NUL (or the end).
    pub fn from_c_string(source: &[u8], pos: usize) -> (r: Self)
        requires
            pos <= source@.len(),
        ensures
            r.0@ == ascii_chars(ascii_only(until_nul(source@.subrange(pos as int, source@.len() as int)))),
    {
        Self::from_bytes_fixed(source, pos, source.len() - pos)
    }

    /// The 16-byte field of this name (which must be ASCII).
    pub fn to_bytes(&self) -> (r: StBytes)
        requires
            vstd::utf8::is_ascii_chars(self.0@),
        ensures
            r@ == dse_filename_field(self.0@),
    {
        let st = self.0.as_str();
        let bytes = st.as_bytes();
        let ghost name = self.0@;
        proof {
            vstd::string::is_ascii_spec_bytes(st);
            assert(bytes@ == Seq::new(name.len(), |i: int| name[i] as u8));
        }
        let n: usize = if bytes.len() > 15 { 15 } else { bytes.len() };
        let ghost kept = if name.len() > 15 { name.take(15) } else { name };
        let mut target: Vec<u8> = Vec::new();
        let mut i: usize = 0;
        while i < n
            invariant
                i <= n <= bytes@.len(),
                bytes@ == Seq::new(name.len(), |j: int| name[j] as u8),
                n == kept.len(),
                kept == (if name.len() > 15 { name.take(15) } else { name }),
                target@ == Seq::new(i as nat, |j: int| kept[j] as u8),
            decreases n - i,
        {
            target.push(bytes[i]);
            i = i + 1;
        }
        if target.len() == 0 {
            target.push(63);
        }
        target.push(0);
        let ghost body = target@;
        assert(body == (if n == 0 { seq![63u8, 0u8] } else { Seq::new(kept.len(), |j: int| kept[j] as u8).push(0) }));
        while target.len() < 16
            invariant
                body.len() <= target@.len() <= 16,
                target@ == body + Seq::new((target@.len() - body.len()) as nat, |j: int| 0xFFu8),
            decreases 16 - target@.len(),
        {
            target.push(0xFF);
            assert(target@ =~= body + Seq::new((target@.len() - body.len()) as nat, |j: int| 0xFFu8));
        }
        StBytes(target)
    }
}

} // verus!
