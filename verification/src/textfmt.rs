//! Verified text assembly.
//!
//! Decimal rendering, the filename component of a path, the
//! `content-disposition` header value, the processed-asset path, and the
//! provenance manifest claim.  Every function's result is pinned to a spec
//! concatenation of its inputs.

use vstd::prelude::*;
use vstd::string::*;
use crate::fingerprint::{fingerprint, fingerprint_spec};
use crate::hexcodec::hex_digit;

verus! {

/// The decimal digit character for one value below ten.
pub open spec fn digit_char(n: int) -> char {
    if n == 0 { '0' } else if n == 1 { '1' } else if n == 2 { '2' }
    else if n == 3 { '3' } else if n == 4 { '4' } else if n == 5 { '5' }
    else if n == 6 { '6' } else if n == 7 { '7' } else if n == 8 { '8' }
    else { '9' }
}

/// The decimal rendering of a nonnegative number, most significant digit
/// first, without leading zeros (a lone zero for 0).
pub open spec fn dec_digits(n: int) -> Seq<char>
    decreases n,
{
    if n < 10 {
        seq![digit_char(n)]
    } else {
        dec_digits(n / 10).push(digit_char(n % 10))
    }
}

/// One decimal digit as a string slice.
fn digit_str(d: u64) -> (r: &'static str)
    requires
        d < 10,
    ensures
        r@ == seq![digit_char(d as int)],
{
    match d {
        0 => { proof { reveal_strlit("0"); } "0" },
        1 => { proof { reveal_strlit("1"); } "1" },
        2 => { proof { reveal_strlit("2"); } "2" },
        3 => { proof { reveal_strlit("3"); } "3" },
        4 => { proof { reveal_strlit("4"); } "4" },
        5 => { proof { reveal_strlit("5"); } "5" },
        6 => { proof { reveal_strlit("6"); } "6" },
        7 => { proof { reveal_strlit("7"); } "7" },
        8 => { proof { reveal_strlit("8"); } "8" },
        _ => { proof { reveal_strlit("9"); } "9" },
    }
}

/// Renders a number in decimal.
pub fn dec_string(n: u64) -> (r: String)
    ensures
        r@ == dec_digits(n as int),
    decreases n,
{
    if n < 10 {
        String::from_str(digit_str(n))
    } else {
        proof {
            assert(n / 10 < n) by (nonlinear_arith)
                requires n >= 10;
        }
        let mut s = dec_string(n / 10);
        s.append(digit_str(n % 10));
        proof {
            assert(s@ =~= dec_digits(n as int));
        }
        s
    }
}

/// The part of a path after its last `/`: the whole path when it has no
/// `/`, and empty when it ends with one.
pub open spec fn filename_of(s: Seq<char>) -> Seq<char>
    decreases s.len(),
{
    if s.len() == 0 {
        s
    } else if s.last() == '/' {
        Seq::<char>::empty()
    } else {
        filename_of(s.drop_last()).push(s.last())
    }
}

/// A suffix holding no `/` and cut just after a `/` (or at the start) is
/// the filename component.
proof fn lemma_filename_suffix(s: Seq<char>, cut: int)
    requires
        0 <= cut <= s.len(),
        forall|j: int| cut <= j < s.len() ==> s[j] != '/',
        cut > 0 ==> s[cut - 1] == '/',
    ensures
        filename_of(s) == s.subrange(cut, s.len() as int),
    decreases s.len(),
{
    if cut == s.len() {
        if s.len() == 0 {
            assert(filename_of(s) =~= s.subrange(0, 0));
        } else {
            assert(s.last() == '/');
            assert(filename_of(s) =~= s.subrange(cut, s.len() as int));
        }
    } else {
        assert(s.last() != '/');
        let d = s.drop_last();
        assert forall|j: int| cut <= j < d.len() implies d[j] != '/' by {
            assert(d[j] == s[j]);
        }
        if cut > 0 {
            assert(d[cut - 1] == s[cut - 1]);
        }
        lemma_filename_suffix(d, cut);
        assert(filename_of(s) == filename_of(d).push(s.last()));
        assert(d.subrange(cut, d.len() as int).push(s.last())
            =~= s.subrange(cut, s.len() as int));
    }
}

/// The filename component of a path: everything after the last `/`.
pub fn filename_component(path: &str) -> (r: String)
    ensures
        r@ == filename_of(path@),
{
    let n = path.unicode_len();
    let mut cut: usize = n;
    while cut > 0 && path.get_char(cut - 1) != '/'
        invariant
            cut <= n,
            n == path@.len(),
            forall|j: int| cut <= j < path@.len() ==> path@[j] != '/',
        decreases cut,
    {
        cut -= 1;
    }
    proof {
        lemma_filename_suffix(path@, cut as int);
    }
    let r = path.substring_char(cut, n);
    String::from_str(r)
}

/// The `content-disposition` value that names a download attachment.
pub fn content_disposition(filename: &str) -> (r: String)
    ensures
        r@ == "attachment; filename=\""@ + filename@ + "\""@,
{
    let mut s = String::from_str("attachment; filename=\"");
    s.append(filename);
    s.append("\"");
    proof {
        assert(s@ =~= "attachment; filename=\""@ + filename@ + "\""@);
    }
    s
}

/// Where the signed asset of a session is persisted.
pub fn processed_video_path(session_id: &str) -> (r: String)
    ensures
        r@ == "./data/processed/"@ + session_id@ + ".mp4"@,
{
    let mut s = String::from_str("./data/processed/");
    s.append(session_id);
    s.append(".mp4");
    proof {
        assert(s@ =~= "./data/processed/"@ + session_id@ + ".mp4"@);
    }
    s
}


/// The escaped form of one character inside a JSON string: quote and
/// backslash get a leading backslash, control characters a `\u00..`
/// escape, and every other character stands as itself.
pub open spec fn escaped_char(c: char) -> Seq<char> {
    if c == '"' {
        seq!['\\', '"']
    } else if c == '\\' {
        seq!['\\', '\\']
    } else if (c as int) < 32 {
        seq!['\\', 'u', '0', '0', hex_digit(c as int / 16), hex_digit(c as int % 16)]
    } else {
        seq![c]
    }
}

/// A string escaped for splicing between JSON quotes.
pub open spec fn json_escape(s: Seq<char>) -> Seq<char>
    decreases s.len(),
{
    if s.len() == 0 {
        Seq::<char>::empty()
    } else {
        json_escape(s.drop_last()) + escaped_char(s.last())
    }
}

/// Relies on `String::push`: appends exactly one character.
#[verifier::external_body]
fn push_char(s: &mut String, c: char)
    ensures
        final(s)@ == old(s)@.push(c),
{
    s.push(c);
}

/// The hex digit character for one nibble.
fn nibble_char(n: u8) -> (r: char)
    requires
        n < 16,
    ensures
        r == hex_digit(n as int),
{
    if n == 0 { '0' } else if n == 1 { '1' } else if n == 2 { '2' }
    else if n == 3 { '3' } else if n == 4 { '4' } else if n == 5 { '5' }
    else if n == 6 { '6' } else if n == 7 { '7' } else if n == 8 { '8' }
    else if n == 9 { '9' } else if n == 10 { 'a' } else if n == 11 { 'b' }
    else if n == 12 { 'c' } else if n == 13 { 'd' } else if n == 14 { 'e' }
    else { 'f' }
}

/// Escapes a string for splicing between JSON quotes.
pub fn json_escape_str(s: &str) -> (r: String)
    ensures
        r@ == json_escape(s@),
{
    let n = s.unicode_len();
    let mut out = String::new();
    let mut i: usize = 0;
    while i < n
        invariant
            i <= n,
            n == s@.len(),
            out@ == json_escape(s@.subrange(0, i as int)),
        decreases n - i,
    {
        let c = s.get_char(i);
        proof {
            let pre = s@.subrange(0, i as int);
            let cur = s@.subrange(0, i + 1);
            assert(cur.drop_last() =~= pre);
            assert(cur.last() == s@[i as int]);
        }
        let ghost prev = out@;
        if c == '"' {
            push_char(&mut out, '\\');
            push_char(&mut out, '"');
        } else if c == '\\' {
            push_char(&mut out, '\\');
            push_char(&mut out, '\\');
        } else if (c as u32) < 32 {
            push_char(&mut out, '\\');
            push_char(&mut out, 'u');
            push_char(&mut out, '0');
            push_char(&mut out, '0');
            push_char(&mut out, nibble_char((c as u32 / 16) as u8));
            push_char(&mut out, nibble_char((c as u32 % 16) as u8));
        } else {
            push_char(&mut out, c);
        }
        proof {
            assert(out@ =~= prev + escaped_char(s@[i as int]));
            assert(out@ =~= json_escape(s@.subrange(0, i + 1)));
        }
        i += 1;
    }
    proof {
        assert(s@.subrange(0, s@.len() as int) =~= s@);
    }
    out
}

/// The provenance manifest claim for an asset: its title and format, the
/// watermark assertion carrying the fingerprint hex and original bit count,
/// and the fixed software-agent identity.
pub open spec fn manifest_json_spec(title: Seq<char>, format: Seq<char>, bits: Seq<u32>) -> Seq<char> {
    "{\"title\":\""@ + json_escape(title)
    + "\",\"format\":\""@ + json_escape(format)
    + "\",\"claim_generator_info\":[{\"name\":\"C2PA Watermarking Service\",\"version\":\"1.0\"}],\"assertions\":[{\"label\":\"c2pa.watermark\",\"data\":{\"message_bits_hex\":\""@
    + fingerprint_spec(bits)
    + "\",\"message_bits_len\":"@ + dec_digits(bits.len() as int)
    + ",\"action\":\"c2pa.watermarked\",\"softwareAgent\":{\"name\":\"C2PA Watermarking Service\",\"version\":\"1.0\"}}}]}"@
}

/// Builds the provenance manifest claim.  The title and format are escaped
/// as JSON string contents, so the claim is well-formed JSON whatever they
/// hold.
pub fn manifest_definition(title: &str, format: &str, bits: &Vec<u32>) -> (r: String)
    requires
        bits@.len() < usize::MAX / 8,
    ensures
        r@ == manifest_json_spec(title@, format@, bits@),
{
    let hex = fingerprint(bits);
    let count = dec_string(bits.len() as u64);
    let escaped_title = json_escape_str(title);
    let escaped_format = json_escape_str(format);
    let mut s = String::from_str("{\"title\":\"");
    s.append(escaped_title.as_str());
    s.append("\",\"format\":\"");
    s.append(escaped_format.as_str());
    s.append("\",\"claim_generator_info\":[{\"name\":\"C2PA Watermarking Service\",\"version\":\"1.0\"}],\"assertions\":[{\"label\":\"c2pa.watermark\",\"data\":{\"message_bits_hex\":\"");
    s.append(hex.as_str());
    s.append("\",\"message_bits_len\":");
    s.append(count.as_str());
    s.append(",\"action\":\"c2pa.watermarked\",\"softwareAgent\":{\"name\":\"C2PA Watermarking Service\",\"version\":\"1.0\"}}}]}");
    proof {
        assert(s@ =~= manifest_json_spec(title@, format@, bits@));
    }
    s
}

} // verus!
