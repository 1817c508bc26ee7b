//! The text encoding of the game: ASCII, Windows-1252, and a two-byte Shift-JIS subset.
use vstd::prelude::*;
use vstd::string::*;
use vstd::utf8::encode_utf8;
use vstd::utf8::encode_scalar;

verus! {

/// The character of code point `code` (0x80 to 0xFF) in the two-byte table (after 0x81), or 0.
pub open spec fn pmdsj_forward(code: u8) -> u16 {
    match code {
        128 => 0u16,
        129 => 65309u16,
        130 => 8800u16,
        131 => 65308u16,
        132 => 65310u16,
        133 => 8806u16,
        134 => 8807u16,
        135 => 8734u16,
        136 => 8756u16,
        137 => 0u16,
        138 => 0u16,
        139 => 0u16,
        140 => 8242u16,
        141 => 8243u16,
        142 => 8451u16,
        143 => 65509u16,
        144 => 65284u16,
        145 => 0u16,
        146 => 0u16,
        147 => 65285u16,
        148 => 65283u16,
        149 => 65286u16,
        150 => 65290u16,
        151 => 65312u16,
        152 => 0u16,
        153 => 9734u16,
        154 => 9733u16,
        155 => 9675u16,
        156 => 9679u16,
        157 => 9678u16,
        158 => 9671u16,
        159 => 9670u16,
        160 => 9633u16,
        161 => 9632u16,
        162 => 9651u16,
        163 => 9650u16,
        164 => 9661u16,
        165 => 9660u16,
        166 => 8251u16,
        167 => 12306u16,
        168 => 8594u16,
        169 => 8592u16,
        170 => 8593u16,
        171 => 8595u16,
        172 => 12307u16,
        173 => 0u16,
        174 => 0u16,
        175 => 0u16,
        176 => 0u16,
        177 => 0u16,
        178 => 0u16,
        179 => 0u16,
        180 => 0u16,
        181 => 0u16,
        182 => 0u16,
        183 => 0u16,
        184 => 8712u16,
        185 => 8715u16,
        186 => 8838u16,
        187 => 8839u16,
        188 => 8834u16,
        189 => 8835u16,
        190 => 8746u16,
        191 => 8745u16,
        192 => 12288u16,
        193 => 12289u16,
        194 => 12290u16,
        195 => 65292u16,
        196 => 65294u16,
        197 => 12539u16,
        198 => 65306u16,
        199 => 65307u16,
        200 => 8743u16,
        201 => 8744u16,
        202 => 12443u16,
        203 => 8658u16,
        204 => 8660u16,
        205 => 8704u16,
        206 => 8707u16,
        207 => 65342u16,
        208 => 65507u16,
        209 => 65343u16,
        210 => 12541u16,
        211 => 12542u16,
        212 => 12445u16,
        213 => 12446u16,
        214 => 12291u16,
        215 => 20189u16,
        216 => 12293u16,
        217 => 12294u16,
        218 => 8736u16,
        219 => 8869u16,
        220 => 8978u16,
        221 => 8706u16,
        222 => 8711u16,
        223 => 8801u16,
        224 => 8786u16,
        225 => 8810u16,
        226 => 8811u16,
        227 => 8730u16,
        228 => 8765u16,
        229 => 8733u16,
        230 => 8757u16,
        231 => 8747u16,
        232 => 8748u16,
        233 => 65288u16,
        234 => 65289u16,
        235 => 12308u16,
        236 => 12309u16,
        237 => 65339u16,
        238 => 65341u16,
        239 => 65371u16,
        240 => 8491u16,
        241 => 12296u16,
        242 => 9839u16,
        243 => 9837u16,
        244 => 9834u16,
        245 => 12300u16,
        246 => 12301u16,
        247 => 12302u16,
        248 => 12303u16,
        249 => 12304u16,
        250 => 12305u16,
        251 => 65291u16,
        252 => 9711u16,
        253 => 0u16,
        254 => 0u16,
        255 => 0u16,
        _ => 0u16,
    }
}

/// The second byte of the two-byte form of code point `code`, or 0 where it has none.
pub open spec fn pmdsj_backward(code: u32) -> u8 {
    match code {
        8208 => 93u8,
        8213 => 92u8,
        8214 => 97u8,
        8229 => 100u8,
        8242 => 140u8,
        8243 => 141u8,
        8251 => 166u8,
        8451 => 142u8,
        8491 => 240u8,
        8592 => 169u8,
        8593 => 170u8,
        8594 => 168u8,
        8595 => 171u8,
        8658 => 203u8,
        8660 => 204u8,
        8704 => 205u8,
        8706 => 221u8,
        8707 => 206u8,
        8711 => 222u8,
        8712 => 184u8,
        8715 => 185u8,
        8722 => 124u8,
        8730 => 227u8,
        8733 => 229u8,
        8734 => 135u8,
        8736 => 218u8,
        8743 => 200u8,
        8744 => 201u8,
        8745 => 191u8,
        8746 => 190u8,
        8747 => 231u8,
        8748 => 232u8,
        8756 => 136u8,
        8757 => 230u8,
        8765 => 228u8,
        8786 => 224u8,
        8800 => 130u8,
        8801 => 223u8,
        8806 => 133u8,
        8807 => 134u8,
        8810 => 225u8,
        8811 => 226u8,
        8834 => 188u8,
        8835 => 189u8,
        8838 => 186u8,
        8839 => 187u8,
        8869 => 219u8,
        8978 => 220u8,
        9632 => 161u8,
        9633 => 160u8,
        9650 => 163u8,
        9651 => 162u8,
        9660 => 165u8,
        9661 => 164u8,
        9670 => 159u8,
        9671 => 158u8,
        9675 => 155u8,
        9678 => 157u8,
        9679 => 156u8,
        9711 => 252u8,
        9733 => 154u8,
        9734 => 153u8,
        9834 => 244u8,
        9837 => 243u8,
        9839 => 242u8,
        12288 => 64u8,
        12289 => 65u8,
        12290 => 66u8,
        12291 => 86u8,
        12293 => 88u8,
        12294 => 89u8,
        12295 => 90u8,
        12296 => 113u8,
        12297 => 114u8,
        12298 => 115u8,
        12299 => 116u8,
        12300 => 117u8,
        12301 => 118u8,
        12302 => 119u8,
        12303 => 120u8,
        12304 => 121u8,
        12305 => 122u8,
        12306 => 167u8,
        12307 => 172u8,
        12308 => 107u8,
        12309 => 108u8,
        12316 => 96u8,
        12443 => 74u8,
        12444 => 75u8,
        12445 => 84u8,
        12446 => 85u8,
        12539 => 69u8,
        12540 => 91u8,
        12541 => 82u8,
        12542 => 83u8,
        20189 => 87u8,
        65281 => 73u8,
        65283 => 148u8,
        65284 => 144u8,
        65285 => 147u8,
        65286 => 149u8,
        65288 => 105u8,
        65289 => 106u8,
        65290 => 150u8,
        65291 => 123u8,
        65292 => 67u8,
        65294 => 68u8,
        65295 => 94u8,
        65306 => 70u8,
        65307 => 71u8,
        65308 => 131u8,
        65309 => 129u8,
        65310 => 132u8,
        65311 => 72u8,
        65312 => 151u8,
        65339 => 109u8,
        65341 => 110u8,
        65342 => 79u8,
        65343 => 81u8,
        65344 => 77u8,
        65371 => 111u8,
        65372 => 98u8,
        65373 => 112u8,
        65507 => 80u8,
        65509 => 143u8,
        _ => 0u8,
    }
}

/// The character of second byte `code` of the two-byte form.
pub fn forward(code: u8) -> (r: u16)
    requires
        code >= 0x80,
    ensures
        r == pmdsj_forward(code),
{
    match code {
        128 => 0,
        129 => 65309,
        130 => 8800,
        131 => 65308,
        132 => 65310,
        133 => 8806,
        134 => 8807,
        135 => 8734,
        136 => 8756,
        137 => 0,
        138 => 0,
        139 => 0,
        140 => 8242,
        141 => 8243,
        142 => 8451,
        143 => 65509,
        144 => 65284,
        145 => 0,
        146 => 0,
        147 => 65285,
        148 => 65283,
        149 => 65286,
        150 => 65290,
        151 => 65312,
        152 => 0,
        153 => 9734,
        154 => 9733,
        155 => 9675,
        156 => 9679,
        157 => 9678,
        158 => 9671,
        159 => 9670,
        160 => 9633,
        161 => 9632,
        162 => 9651,
        163 => 9650,
        164 => 9661,
        165 => 9660,
        166 => 8251,
        167 => 12306,
        168 => 8594,
        169 => 8592,
        170 => 8593,
        171 => 8595,
        172 => 12307,
        173 => 0,
        174 => 0,
        175 => 0,
        176 => 0,
        177 => 0,
        178 => 0,
        179 => 0,
        180 => 0,
        181 => 0,
        182 => 0,
        183 => 0,
        184 => 8712,
        185 => 8715,
        186 => 8838,
        187 => 8839,
        188 => 8834,
        189 => 8835,
        190 => 8746,
        191 => 8745,
        192 => 12288,
        193 => 12289,
        194 => 12290,
        195 => 65292,
        196 => 65294,
        197 => 12539,
        198 => 65306,
        199 => 65307,
        200 => 8743,
        201 => 8744,
        202 => 12443,
        203 => 8658,
        204 => 8660,
        205 => 8704,
        206 => 8707,
        207 => 65342,
        208 => 65507,
        209 => 65343,
        210 => 12541,
        211 => 12542,
        212 => 12445,
        213 => 12446,
        214 => 12291,
        215 => 20189,
        216 => 12293,
        217 => 12294,
        218 => 8736,
        219 => 8869,
        220 => 8978,
        221 => 8706,
        222 => 8711,
        223 => 8801,
        224 => 8786,
        225 => 8810,
        226 => 8811,
        227 => 8730,
        228 => 8765,
        229 => 8733,
        230 => 8757,
        231 => 8747,
        232 => 8748,
        233 => 65288,
        234 => 65289,
        235 => 12308,
        236 => 12309,
        237 => 65339,
        238 => 65341,
        239 => 65371,
        240 => 8491,
        241 => 12296,
        242 => 9839,
        243 => 9837,
        244 => 9834,
        245 => 12300,
        246 => 12301,
        247 => 12302,
        248 => 12303,
        249 => 12304,
        250 => 12305,
        251 => 65291,
        252 => 9711,
        253 => 0,
        254 => 0,
        255 => 0,
        _ => 0,
    }
}

/// The second byte of the two-byte form of code point `code`, or 0 where it has none.
pub fn backward(code: u32) -> (r: u8)
    ensures
        r == pmdsj_backward(code),
{
    match code {
        8208 => 93,
        8213 => 92,
        8214 => 97,
        8229 => 100,
        8242 => 140,
        8243 => 141,
        8251 => 166,
        8451 => 142,
        8491 => 240,
        8592 => 169,
        8593 => 170,
        8594 => 168,
        8595 => 171,
        8658 => 203,
        8660 => 204,
        8704 => 205,
        8706 => 221,
        8707 => 206,
        8711 => 222,
        8712 => 184,
        8715 => 185,
        8722 => 124,
        8730 => 227,
        8733 => 229,
        8734 => 135,
        8736 => 218,
        8743 => 200,
        8744 => 201,
        8745 => 191,
        8746 => 190,
        8747 => 231,
        8748 => 232,
        8756 => 136,
        8757 => 230,
        8765 => 228,
        8786 => 224,
        8800 => 130,
        8801 => 223,
        8806 => 133,
        8807 => 134,
        8810 => 225,
        8811 => 226,
        8834 => 188,
        8835 => 189,
        8838 => 186,
        8839 => 187,
        8869 => 219,
        8978 => 220,
        9632 => 161,
        9633 => 160,
        9650 => 163,
        9651 => 162,
        9660 => 165,
        9661 => 164,
        9670 => 159,
        9671 => 158,
        9675 => 155,
        9678 => 157,
        9679 => 156,
        9711 => 252,
        9733 => 154,
        9734 => 153,
        9834 => 244,
        9837 => 243,
        9839 => 242,
        12288 => 64,
        12289 => 65,
        12290 => 66,
        12291 => 86,
        12293 => 88,
        12294 => 89,
        12295 => 90,
        12296 => 113,
        12297 => 114,
        12298 => 115,
        12299 => 116,
        12300 => 117,
        12301 => 118,
        12302 => 119,
        12303 => 120,
        12304 => 121,
        12305 => 122,
        12306 => 167,
        12307 => 172,
        12308 => 107,
        12309 => 108,
        12316 => 96,
        12443 => 74,
        12444 => 75,
        12445 => 84,
        12446 => 85,
        12539 => 69,
        12540 => 91,
        12541 => 82,
        12542 => 83,
        20189 => 87,
        65281 => 73,
        65283 => 148,
        65284 => 144,
        65285 => 147,
        65286 => 149,
        65288 => 105,
        65289 => 106,
        65290 => 150,
        65291 => 123,
        65292 => 67,
        65294 => 68,
        65295 => 94,
        65306 => 70,
        65307 => 71,
        65308 => 131,
        65309 => 129,
        65310 => 132,
        65311 => 72,
        65312 => 151,
        65339 => 109,
        65341 => 110,
        65342 => 79,
        65343 => 81,
        65344 => 77,
        65371 => 111,
        65372 => 98,
        65373 => 112,
        65507 => 80,
        65509 => 143,
        _ => 0,
    }
}

/// Where the second byte for a code point is at least 0x80, the table reads it back as that
/// code point.
pub proof fn lemma_pmdsj_roundtrip(code: u32)
    requires
        pmdsj_backward(code) >= 0x80,
    ensures
        pmdsj_forward(pmdsj_backward(code)) == code,
{
}


/// The byte of code point `code` in Windows-1252 (0 where it has none), as the
/// `encoding_index_singlebyte` crate's table gives it.
pub uninterp spec fn windows_1252_backward(code: u32) -> u8;

/// `encoding_index_singlebyte::windows_1252::backward`: a lookup in the crate's Windows-1252 table;
/// total. What it returns for a given code point is left to the name `windows_1252_backward`.
#[verifier::external_body]
fn win1252_backward(code: u32) -> (r: u8)
    ensures
        r == windows_1252_backward(code),
{
    encoding_index_singlebyte::windows_1252::backward(code)
}

/// The bytes of one character: ASCII (and 0x80) as it is, the gender signs as 0xBD and 0xBE,
/// then Windows-1252, then the two-byte form after 0x81; `None` where none applies.
pub open spec fn pmd2_encode_char(c: char) -> Option<Seq<u8>> {
    let u = c as u32;
    if u <= 0x80 {
        Some(seq![u as u8])
    } else if u == 0x2642 {
        Some(seq![0xBDu8])
    } else if u == 0x2640 {
        Some(seq![0xBEu8])
    } else if windows_1252_backward(u) != 0 {
        Some(seq![windows_1252_backward(u)])
    } else if pmdsj_backward(u) != 0 {
        Some(seq![0x81u8, pmdsj_backward(u)])
    } else {
        None
    }
}

/// The bytes of the first `k` characters, or the index of the first one that has none.
pub open spec fn pmd2_encode(s: Seq<char>, k: nat) -> Result<Seq<u8>, nat>
    decreases k,
{
    if k == 0 {
        Ok(Seq::<u8>::empty())
    } else {
        match pmd2_encode(s, (k - 1) as nat) {
            Err(i) => Err(i),
            Ok(b) => match pmd2_encode_char(s[k - 1]) {
                Some(c) => Ok(b + c),
                None => Err((k - 1) as nat),
            },
        }
    }
}

/// The encoding's name.
pub struct Pmd2Encoding;

impl Pmd2Encoding {
    pub fn name(&self) -> (r: &'static str)
        ensures
            r@ == "pmd2str"@,
    {
        "pmd2str"
    }
}

/// Why encoding stopped: the end of the character that has no bytes, and a message.
pub struct CodecError {
    pub upto: isize,
    pub cause: String,
}

/// The encoder.
#[derive(Clone, Copy)]
pub struct Pmd2Encoder;

impl Pmd2Encoder {
    pub fn new() -> (r: Box<Self>) {
        Box::new(Pmd2Encoder)
    }

    pub fn is_ascii_compatible(&self) -> (r: bool)
        ensures
            r,
    {
        true
    }

    fn encode_char(c: char, output: &mut Vec<u8>) -> (r: bool)
        ensures
            match pmd2_encode_char(c) {
                Some(b) => r && final(output)@ == old(output)@ + b,
                None => !r && final(output)@ == old(output)@,
            },
    {
        let u = c as u32;
        if u <= 0x80 {
            output.push(u as u8);
            true
        } else if u == 0x2642 {
            output.push(0xBD);
            true
        } else if u == 0x2640 {
            output.push(0xBE);
            true
        } else {
            let index = win1252_backward(u);
            if index != 0 {
                output.push(index);
                true
            } else {
                let sjindex = backward(u);
                if sjindex == 0 {
                    false
                } else {
                    output.push(0x81);
                    output.push(sjindex);
                    true
                }
            }
        }
    }

    /// Encodes `input`: the bytes, the number of bytes of `input`'s UTF-8 text taken, and where
    /// a character has no bytes, an error whose end is the UTF-8 offset after that character
    /// (its bytes and those after it are not written).
    pub fn raw_feed(&mut self, input: &[char]) -> (r: (Vec<u8>, usize, Option<CodecError>))
        requires
            encode_utf8(input@).len() <= isize::MAX,
        ensures
            match pmd2_encode(input@, input@.len()) {
                Ok(b) => r.0@ == b && r.1 == encode_utf8(input@).len() && r.2 is None,
                Err(i) => pmd2_encode(input@, i) == Ok::<Seq<u8>, nat>(r.0@)
                    && r.1 == encode_utf8(input@.take(i as int)).len()
                    && (r.2 matches Some(e) && e.upto == encode_utf8(input@.take(i + 1int)).len()
                        && e.cause@ == "unrepresentable character ("@ + seq![input@[i as int]] + ")"@),
            },
    {
        let mut out: Vec<u8> = Vec::new();
        let mut i: usize = 0;
        let mut off: usize = 0;
        proof {
            assert(input@.take(0) =~= Seq::<char>::empty());
        }
        while i < input.len()
            invariant
                i <= input@.len(),
                encode_utf8(input@).len() <= isize::MAX,
                pmd2_encode(input@, i as nat) == Ok::<Seq<u8>, nat>(out@),
                off == encode_utf8(input@.take(i as int)).len(),
            decreases input@.len() - i,
        {
            let c = input[i];
            let u = c as u32;
            let w: usize = if u < 0x80 {
                1
            } else if u < 0x800 {
                2
            } else if u < 0x10000 {
                3
            } else {
                4
            };
            proof {
                lemma_utf8_take_step(input@, i as nat);
                lemma_utf8_take_bound(input@, (i + 1) as nat);
                vstd::utf8::char_is_scalar(c);
            }
            let ok = Self::encode_char(c, &mut out);
            if !ok {
                proof {
                    lemma_encode_err_extends(input@, (i + 1) as nat, input@.len(), i as nat);
                }
                let mut cause = String::from_str("unrepresentable character (");
                string_push(&mut cause, c);
                cause.append(")");
                return (out, off, Some(CodecError { upto: (off + w) as isize, cause }));
            }
            off = off + w;
            i = i + 1;
        }
        proof {
            assert(input@.take(input@.len() as int) =~= input@);
        }
        (out, off, None)
    }
}

/// Appends `c` to `s` (std's `String::push`, documented as appending the given char to the
/// end of the string).
#[verifier::external_body]
fn string_push(s: &mut String, c: char)
    ensures
        final(s)@ == old(s)@.push(c),
{
    s.push(c)
}

proof fn lemma_utf8_concat(a: Seq<char>, b: Seq<char>)
    ensures
        encode_utf8(a + b) == encode_utf8(a) + encode_utf8(b),
    decreases a.len(),
{
    if a.len() == 0 {
        assert(a + b =~= b);
    } else {
        assert((a + b).drop_first() =~= a.drop_first() + b);
        lemma_utf8_concat(a.drop_first(), b);
    }
}

proof fn lemma_utf8_take_step(s: Seq<char>, i: nat)
    requires
        i < s.len(),
    ensures
        encode_utf8(s.take(i + 1int)) == encode_utf8(s.take(i as int)) + encode_scalar(s[i as int] as u32),
        encode_scalar(s[i as int] as u32).len() == (if (s[i as int] as u32) < 0x80 {
            1int
        } else if (s[i as int] as u32) < 0x800 {
            2
        } else if (s[i as int] as u32) < 0x10000 {
            3
        } else {
            4
        }),
{
    assert(s.take(i + 1int) =~= s.take(i as int) + seq![s[i as int]]);
    lemma_utf8_concat(s.take(i as int), seq![s[i as int]]);
    let one = seq![s[i as int]];
    assert(one.drop_first() =~= Seq::<char>::empty());
    assert(encode_utf8(one.drop_first()) == Seq::<u8>::empty());
    assert(encode_utf8(one) == encode_scalar(one[0] as u32) + encode_utf8(one.drop_first()));
    assert(encode_utf8(one) =~= encode_scalar(s[i as int] as u32));
    vstd::utf8::char_is_scalar(s[i as int]);
}

proof fn lemma_utf8_take_bound(s: Seq<char>, i: nat)
    requires
        i <= s.len(),
    ensures
        encode_utf8(s.take(i as int)).len() <= encode_utf8(s).len(),
{
    assert(s =~= s.take(i as int) + s.skip(i as int));
    lemma_utf8_concat(s.take(i as int), s.skip(i as int));
}

proof fn lemma_encode_err_extends(s: Seq<char>, a: nat, b: nat, i: nat)
    requires
        a <= b,
        pmd2_encode(s, a) == Err::<Seq<u8>, nat>(i),
    ensures
        pmd2_encode(s, b) == Err::<Seq<u8>, nat>(i),
    decreases b - a,
{
    if a < b {
        lemma_encode_err_extends(s, a, (b - 1) as nat, i);
    }
}
proof fn lemma_pmd2_encode_prefix(s: Seq<char>, k: nat, i: nat)
    requires
        i <= k,
        pmd2_encode(s, k) is Ok,
    ensures
        pmd2_encode(s, i) is Ok,
        pmd2_encode(s, i + 1) is Ok || i == k,
        ({
            let p = pmd2_encode(s, i)->Ok_0;
            let b = pmd2_encode(s, k)->Ok_0;
            p.len() <= b.len() && b.subrange(0, p.len() as int) == p
        }),
        i < k ==> ({
            let p = pmd2_encode(s, i)->Ok_0;
            let q = pmd2_encode(s, i + 1)->Ok_0;
            let b = pmd2_encode(s, k)->Ok_0;
            q.len() <= b.len() && b.subrange(0, q.len() as int) == q
        }),
    decreases k - i,
{
    if i < k {
        lemma_pmd2_encode_prefix(s, k, i + 1);
        if i + 1 < k {
        }
        let q = pmd2_encode(s, i + 1)->Ok_0;
        let p = pmd2_encode(s, i)->Ok_0;
        let b = pmd2_encode(s, k)->Ok_0;
        assert(pmd2_encode(s, i) is Ok);
        let c = pmd2_encode_char(s[i as int])->Some_0;
        assert(q == p + c);
        assert(b.subrange(0, p.len() as int) =~= q.subrange(0, p.len() as int));
        assert(q.subrange(0, p.len() as int) =~= p);
    } else {
        let b = pmd2_encode(s, k)->Ok_0;
        assert(b.subrange(0, b.len() as int) =~= b);
    }
}

/// In the bytes of a text, at the place where the bytes of the characters before it end, a
/// female sign (U+2640) is the byte 0xBE, a male sign (U+2642) the byte 0xBD, and a character up
/// to U+0080 its own code.
pub proof fn lemma_pmd2_encode_signs(s: Seq<char>, i: int)
    requires
        0 <= i < s.len(),
        pmd2_encode(s, s.len()) is Ok,
    ensures
        pmd2_encode(s, i as nat) is Ok,
        ({
            let p = pmd2_encode(s, i as nat)->Ok_0;
            let b = pmd2_encode(s, s.len())->Ok_0;
            &&& p.len() < b.len()
            &&& s[i] == '\u{2640}' ==> b[p.len() as int] == 0xBEu8
            &&& s[i] == '\u{2642}' ==> b[p.len() as int] == 0xBDu8
            &&& (s[i] as u32) <= 0x80 ==> b[p.len() as int] == (s[i] as u32) as u8
        }),
{
    lemma_pmd2_encode_prefix(s, s.len(), i as nat);
    let p = pmd2_encode(s, i as nat)->Ok_0;
    let q = pmd2_encode(s, (i + 1) as nat)->Ok_0;
    let b = pmd2_encode(s, s.len())->Ok_0;
    let c = pmd2_encode_char(s[i])->Some_0;
    assert(q == p + c);
    assert(c.len() >= 1);
    assert(b[p.len() as int] == b.subrange(0, q.len() as int)[p.len() as int]);
    assert(q[p.len() as int] == c[0]);
}

} // verus!
