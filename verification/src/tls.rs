//! Trust in the certificate of a gateway. Gateways are commonly self-signed, so
//! any certificate passes the TLS layer, and its fingerprint is pinned on first
//! use.
use vstd::prelude::*;
use vstd::string::*;

use crate::error::{ErrorView, GatewayError};
use crate::text;

verus! {

/// The SHA-256 digest of some bytes.
pub uninterp spec fn sha256(bytes: Seq<u8>) -> Seq<u8>;

/// `Sha256::digest` of the `sha2` crate, whose result is named [`sha256`]: it
/// depends on the bytes alone and is 32 bytes long.
#[verifier::external_body]
fn digest(bytes: &[u8]) -> (r: Vec<u8>)
    ensures
        r@ == sha256(bytes@),
        r@.len() == 32,
{
    <sha2::Sha256 as sha2::Digest>::digest(bytes).to_vec()
}

/// The upper case of a character outside ASCII, which can be several characters.
pub uninterp spec fn unicode_upper(c: char) -> Seq<char>;

/// `char::to_uppercase`: an ASCII letter gives its upper case and any other ASCII
/// character gives itself; outside ASCII the result is named [`unicode_upper`].
#[verifier::external_body]
fn to_uppercase(c: char) -> (r: Vec<char>)
    ensures
        c as u32 >= 128 ==> r@ == unicode_upper(c),
        c as u32 <= 127 ==> r@ == seq![ascii_upper(c)],
{
    c.to_uppercase().collect()
}

/// The upper case of an ASCII letter; any other character is left alone.
pub open spec fn ascii_upper(c: char) -> char {
    if 'a' <= c <= 'z' {
        (c as u32 - 32) as char
    } else {
        c
    }
}

/// The upper case of a character.
pub open spec fn upper(c: char) -> Seq<char> {
    if c as u32 <= 127 {
        seq![ascii_upper(c)]
    } else {
        unicode_upper(c)
    }
}

/// Two lower-case hexadecimal digits for each byte, the high one first.
pub open spec fn hex_of(bytes: Seq<u8>) -> Seq<char>
    decreases bytes.len(),
{
    if bytes.len() == 0 {
        Seq::empty()
    } else {
        hex_of(bytes.drop_last()).push(text::digit(bytes.last() as nat / 16)).push(
            text::digit(bytes.last() as nat % 16),
        )
    }
}

/// The characters of `s` in upper case, with a colon in front of every second one
/// but the first.
pub open spec fn grouped(s: Seq<char>) -> Seq<char>
    decreases s.len(),
{
    if s.len() == 0 {
        Seq::empty()
    } else {
        let i = s.len() - 1;
        let front = grouped(s.drop_last());
        (if i != 0 && i % 2 == 0 {
            front.push(':')
        } else {
            front
        }) + upper(s.last())
    }
}

/// The certificate a gateway presented, as far as trust on first use needs it.
#[derive(Debug)]
pub struct CertInfo {
    /// The gateway host this certificate was presented for.
    pub host: String,
    /// Lower-hex SHA-256 of the certificate DER (no separators).
    pub sha256_hex: String,
}

impl Clone for CertInfo {
    fn clone(&self) -> (c: Self)
        ensures
            c.host@ == self.host@,
            c.sha256_hex@ == self.sha256_hex@,
    {
        CertInfo { host: self.host.clone(), sha256_hex: self.sha256_hex.clone() }
    }
}

impl CertInfo {
    /// The certificate that `host` presented, given its canonical DER or the reason
    /// it could not be encoded.
    pub fn from_der(host: &str, der: Result<Vec<u8>, String>) -> (r: Result<Self, GatewayError>)
        ensures
            match der {
                Ok(der) => r matches Ok(cert) && cert.host@ == host@ && cert.sha256_hex@ == hex_of(
                    sha256(der@),
                ),
                Err(reason) => r matches Err(e) && e@ == ErrorView::Tls(
                    "certificate re-encode: "@ + reason@,
                ),
            },
    {
        match der {
            Ok(der) => Ok(CertInfo::from_digest(host, digest(der.as_slice()).as_slice())),
            Err(reason) => Err(
                GatewayError::Tls("certificate re-encode: ".to_owned().concat(reason.as_str())),
            ),
        }
    }

    /// The certificate that `host` presented, given the SHA-256 digest of its DER.
    pub fn from_digest(host: &str, digest: &[u8]) -> (cert: Self)
        ensures
            cert.host@ == host@,
            cert.sha256_hex@ == hex_of(digest@),
    {
        CertInfo { host: host.to_owned(), sha256_hex: to_hex(digest) }
    }

    /// Colon-grouped uppercase fingerprint, e.g. `AB:CD:...`, for display and
    /// pinning.
    pub fn fingerprint(&self) -> (out: String)
        ensures
            out@ == grouped(self.sha256_hex@),
    {
        let chars = text::chars_of(self.sha256_hex.as_str());
        let ghost s = self.sha256_hex@;
        let mut out = String::new();
        let mut i: usize = 0;
        assert(s.take(0) =~= Seq::empty());
        while i < chars.len()
            invariant
                i <= chars@.len(),
                chars@ == s,
                out@ == grouped(s.take(i as int)),
            decreases chars@.len() - i,
        {
            assert(s.take(i + 1).drop_last() =~= s.take(i as int));
            if i != 0 && i % 2 == 0 {
                out.push(':');
            }
            let up = uppercase(chars[i]);
            push_all(&mut out, up.as_slice());
            i = i + 1;
        }
        assert(s.take(i as int) =~= s);
        out
    }
}

fn uppercase(c: char) -> (r: Vec<char>)
    ensures
        r@ == upper(c),
{
    to_uppercase(c)
}

fn push_all(out: &mut String, chars: &[char])
    ensures
        final(out)@ == old(out)@ + chars@,
{
    let mut i: usize = 0;
    while i < chars.len()
        invariant
            i <= chars@.len(),
            out@ == old(out)@ + chars@.take(i as int),
        decreases chars@.len() - i,
    {
        out.push(chars[i]);
        i = i + 1;
    }
    assert(chars@.take(i as int) =~= chars@);
}

/// The caller's decision on a certificate, taken before any credential is sent.
#[derive(Debug, Clone, Copy, PartialEq, Eq, Structural)]
pub enum TofuDecision {
    /// Trust this certificate and proceed.
    Pin,
    /// Reject it and abort the connection.
    Abort,
}

/// Lower-case hexadecimal.
pub fn to_hex(bytes: &[u8]) -> (s: String)
    ensures
        s@ == hex_of(bytes@),
{
    let mut s = String::new();
    let mut i: usize = 0;
    assert(bytes@.take(0) =~= Seq::empty());
    while i < bytes.len()
        invariant
            i <= bytes@.len(),
            s@ == hex_of(bytes@.take(i as int)),
        decreases bytes@.len() - i,
    {
        assert(bytes@.take(i + 1).drop_last() =~= bytes@.take(i as int));
        s.push(text::digit_char(bytes[i] / 16));
        s.push(text::digit_char(bytes[i] % 16));
        i = i + 1;
    }
    assert(bytes@.take(i as int) =~= bytes@);
    s
}

/// A fingerprint of `n` bytes takes two digits for each and a colon between any
/// two.
pub proof fn fingerprint_length(bytes: Seq<u8>)
    ensures
        hex_of(bytes).len() == 2 * bytes.len(),
        grouped(hex_of(bytes)).len() == if bytes.len() == 0 {
            0
        } else {
            3 * bytes.len() - 1
        },
    decreases bytes.len(),
{
    if bytes.len() > 0 {
        fingerprint_length(bytes.drop_last());
        lemma_last_group(bytes);
    }
}

/// The two characters that stand for one byte in a fingerprint.
pub open spec fn pair(b: u8) -> Seq<char> {
    seq![
        ascii_upper(text::digit(b as nat / 16)),
        ascii_upper(text::digit(b as nat % 16)),
    ]
}

proof fn lemma_last_group(bytes: Seq<u8>)
    requires
        bytes.len() > 0,
    ensures
        hex_of(bytes.drop_last()).len() == 2 * (bytes.len() - 1),
        grouped(hex_of(bytes)) == (if bytes.len() == 1 {
            Seq::empty()
        } else {
            grouped(hex_of(bytes.drop_last())).push(':')
        }) + pair(bytes.last()),
    decreases bytes.len(),
{
    let front = hex_of(bytes.drop_last());
    let b = bytes.last();
    if bytes.len() > 1 {
        lemma_last_group(bytes.drop_last());
    } else {
        assert(bytes.drop_last() =~= Seq::empty());
    }
    let high = text::digit(b as nat / 16);
    let low = text::digit(b as nat % 16);
    let s = hex_of(bytes);
    assert(s =~= front.push(high).push(low));
    assert(s.drop_last() =~= front.push(high));
    assert(front.push(high).drop_last() =~= front);
    assert(upper(high) == seq![ascii_upper(high)]);
    assert(upper(low) == seq![ascii_upper(low)]);
    let opened = if bytes.len() == 1 {
        grouped(front)
    } else {
        grouped(front).push(':')
    };
    assert(grouped(front.push(high)) =~= opened + seq![ascii_upper(high)]);
    assert(grouped(s) =~= opened + seq![ascii_upper(high)] + seq![ascii_upper(low)]);
    if bytes.len() == 1 {
        assert(grouped(front) =~= Seq::empty());
    }
    assert(grouped(s) =~= opened + pair(b));
}

/// Different bytes have different fingerprints.
pub proof fn fingerprints_tell_bytes_apart(a: Seq<u8>, b: Seq<u8>)
    requires
        grouped(hex_of(a)) == grouped(hex_of(b)),
    ensures
        a == b,
    decreases a.len(),
{
    fingerprint_length(a);
    fingerprint_length(b);
    assert(a.len() == b.len());
    if a.len() > 0 {
        lemma_last_group(a);
        lemma_last_group(b);
        let n = grouped(hex_of(a)).len() as int;
        let fa = grouped(hex_of(a.drop_last()));
        let fb = grouped(hex_of(b.drop_last()));
        assert(grouped(hex_of(a)).subrange(n - 2, n) =~= pair(a.last()));
        assert(grouped(hex_of(b)).subrange(n - 2, n) =~= pair(b.last()));
        assert(pair(a.last())[0] == pair(b.last())[0]);
        assert(pair(a.last())[1] == pair(b.last())[1]);
        assert(a.last() == b.last());
        if a.len() > 1 {
            assert(grouped(hex_of(a)).take(n - 3) =~= fa);
            assert(grouped(hex_of(b)).take(n - 3) =~= fb);
        } else {
            assert(a.drop_last() =~= b.drop_last());
        }
        fingerprints_tell_bytes_apart(a.drop_last(), b.drop_last());
        assert(a =~= a.drop_last().push(a.last()));
        assert(b =~= b.drop_last().push(b.last()));
    } else {
        assert(a =~= b);
    }
}

/// The character that stands for four bits in a fingerprint.
pub open spec fn shown_digit(n: int) -> char {
    "0123456789ABCDEF"@[n]
}

proof fn lemma_shown_digit(n: nat)
    requires
        n < 16,
    ensures
        ascii_upper(text::digit(n)) == shown_digit(n as int),
{
    reveal_strlit("0123456789ABCDEF");
}

/// A fingerprint shows the bytes in order: each by its high and its low digit, in upper
/// case, with a colon between any two bytes.
pub proof fn fingerprint_shows_each_byte(bytes: Seq<u8>, i: int)
    requires
        0 <= i < bytes.len(),
    ensures
        ({
            let shown = grouped(hex_of(bytes));
            &&& shown[3 * i] == shown_digit(bytes[i] as int / 16)
            &&& shown[3 * i + 1] == shown_digit(bytes[i] as int % 16)
            &&& i + 1 < bytes.len() ==> shown[3 * i + 2] == ':'
        }),
    decreases bytes.len(),
{
    let front = bytes.drop_last();
    let shown = grouped(hex_of(bytes));
    lemma_last_group(bytes);
    fingerprint_length(front);
    fingerprint_length(bytes);
    if i < front.len() {
        fingerprint_shows_each_byte(front, i);
        assert(front[i] == bytes[i]);
        assert(shown[3 * i] == grouped(hex_of(front))[3 * i]);
        assert(shown[3 * i + 1] == grouped(hex_of(front))[3 * i + 1]);
    } else {
        lemma_shown_digit(bytes[i] as nat / 16);
        lemma_shown_digit(bytes[i] as nat % 16);
        assert(shown[3 * i] == pair(bytes[i])[0]);
        assert(shown[3 * i + 1] == pair(bytes[i])[1]);
    }
}

/// Hexadecimal shows the bytes in order: each by its high and its low digit, in lower case.
pub proof fn hex_shows_each_byte(bytes: Seq<u8>, i: int)
    requires
        0 <= i < bytes.len(),
    ensures
        hex_of(bytes).len() == 2 * bytes.len(),
        hex_of(bytes)[2 * i] == "0123456789abcdef"@[bytes[i] as int / 16],
        hex_of(bytes)[2 * i + 1] == "0123456789abcdef"@[bytes[i] as int % 16],
    decreases bytes.len(),
{
    reveal_strlit("0123456789abcdef");
    fingerprint_length(bytes);
    fingerprint_length(bytes.drop_last());
    if i < bytes.len() - 1 {
        hex_shows_each_byte(bytes.drop_last(), i);
        assert(bytes.drop_last()[i] == bytes[i]);
    }
}

} // verus!
