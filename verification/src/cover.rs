use vstd::prelude::*;

use base64::Engine;

use crate::media::CoverArt;
use crate::text::push_char;

verus! {

/// The character of a six-bit value in the standard base64 alphabet.
pub open spec fn sextet_char(v: int) -> char {
    if v < 26 {
        (65 + v) as char
    } else if v < 52 {
        (97 + (v - 26)) as char
    } else if v < 62 {
        (48 + (v - 52)) as char
    } else if v == 62 {
        '+'
    } else {
        '/'
    }
}

/// The standard base64 text of bytes (RFC 4648, standard alphabet): each
/// three bytes become four characters, a short last group padded with '='.
pub open spec fn base64_text(data: Seq<u8>) -> Seq<char>
    decreases data.len(),
{
    if data.len() == 0 {
        Seq::empty()
    } else {
        let b0 = data[0] as int;
        let b1 = if data.len() > 1 { data[1] as int } else { 0 };
        let b2 = if data.len() > 2 { data[2] as int } else { 0 };
        let quad = seq![
            sextet_char(b0 / 4),
            sextet_char((b0 % 4) * 16 + b1 / 16),
            if data.len() > 1 { sextet_char((b1 % 16) * 4 + b2 / 64) } else { '=' },
            if data.len() > 2 { sextet_char(b2 % 64) } else { '=' },
        ];
        if data.len() > 3 {
            quad + base64_text(data.skip(3))
        } else {
            quad
        }
    }
}

/// Every three bytes, or fewer at the end, take four characters.
pub proof fn law_base64_length(data: Seq<u8>)
    ensures
        base64_text(data).len() == 4 * ((data.len() + 2) / 3),
    decreases data.len(),
{
    if data.len() >= 3 {
        law_base64_length(data.skip(3));
    }
}

fn sextet(v: u32) -> (c: char)
    requires
        v < 64,
    ensures
        c == sextet_char(v as int),
{
    if v < 26 {
        let b: u8 = 65 + v as u8;
        b as char
    } else if v < 52 {
        let b: u8 = 97 + (v - 26) as u8;
        b as char
    } else if v < 62 {
        let b: u8 = 48 + (v - 52) as u8;
        b as char
    } else if v == 62 {
        '+'
    } else {
        '/'
    }
}

/// The standard base64 text of the bytes, with padding.
pub fn base64_encode(data: &[u8]) -> (s: String)
    ensures
        s@ == base64_text(data@),
{
    let mut out = String::new();
    let len = data.len();
    let mut i: usize = 0;
    assert(data@.skip(0) =~= data@);
    while i < len
        invariant
            len == data@.len(),
            0 <= i <= len,
            base64_text(data@) == out@ + base64_text(data@.skip(i as int)),
        decreases len - i,
    {
        let rest = len - i;
        let b0 = data[i] as u32;
        let b1 = if rest > 1 {
            data[i + 1] as u32
        } else {
            0
        };
        let b2 = if rest > 2 {
            data[i + 2] as u32
        } else {
            0
        };
        let n: u32 = (b0 << 16) | (b1 << 8) | b2;
        assert((n >> 18) & 0x3f == b0 / 4 && (n >> 12) & 0x3f == (b0 % 4) * 16 + b1 / 16 && (n >> 6) & 0x3f == (b1
            % 16) * 4 + b2 / 64 && n & 0x3f == b2 % 64) by (bit_vector)
            requires
                b0 < 256,
                b1 < 256,
                b2 < 256,
                n == (b0 << 16) | (b1 << 8) | b2,
        ;
        let ghost before = out@;
        let ghost tail = data@.skip(i as int);
        push_char(&mut out, sextet((n >> 18) & 0x3f));
        push_char(&mut out, sextet((n >> 12) & 0x3f));
        push_char(
            &mut out,
            if rest > 1 {
                sextet((n >> 6) & 0x3f)
            } else {
                '='
            },
        );
        push_char(
            &mut out,
            if rest > 2 {
                sextet(n & 0x3f)
            } else {
                '='
            },
        );
        proof {
            assert(tail[0] == data@[i as int]);
            if rest > 1 {
                assert(tail[1] == data@[i + 1]);
            }
            if rest > 2 {
                assert(tail[2] == data@[i + 2]);
                assert(tail.skip(3) =~= data@.skip(i + 3));
            }
        }
        if rest >= 3 {
            i += 3;
            assert(base64_text(data@) == out@ + base64_text(data@.skip(i as int)));
        } else {
            i = len;
            assert(data@.skip(i as int) =~= Seq::<u8>::empty());
            assert(out@ =~= before + base64_text(tail));
            assert(base64_text(data@) == out@ + base64_text(data@.skip(i as int)));
        }
    }
    assert(out@ + base64_text(data@.skip(len as int)) =~= out@);
    out
}

/// A `data:` URI of a JPEG picture.
pub fn data_uri(bytes: &[u8]) -> (uri: String)
    ensures
        uri@ == "data:image/jpeg;base64,"@ + base64_text(bytes@),
{
    let mut uri = String::from_str("data:image/jpeg;base64,");
    uri.append(base64_encode(bytes).as_str());
    uri
}

/// Calls `base64::engine::general_purpose::STANDARD.encode`, which the crate
/// documents as base64 with the standard alphabet and padding; the contract
/// claims its result is `base64_text` of the bytes. The crate panics where
/// the encoded length does not fit a `usize`; `requires` leaves that out.
#[verifier::external_body]
fn standard_encode(data: &[u8]) -> (s: String)
    requires
        4 * ((data@.len() + 2) / 3) <= usize::MAX,
    ensures
        s@ == base64_text(data@),
{
    base64::engine::general_purpose::STANDARD.encode(data)
}

/// A `data:` URI of a cover, with its media type, encoded by the base64
/// crate.
pub fn cover_uri(cover: &CoverArt) -> (uri: String)
    requires
        4 * ((cover.data@.len() + 2) / 3) <= usize::MAX,
    ensures
        uri@ == "data:"@ + cover.mime_type@ + ";base64,"@ + base64_text(cover.data@),
{
    let mut uri = String::from_str("data:");
    uri.append(cover.mime_type.as_str());
    uri.append(";base64,");
    uri.append(standard_encode(cover.data.as_slice()).as_str());
    uri
}

} // verus!
