//! Byte-level codecs used on the wire: lowercase hex, unpadded base64url,
//! minimal big-endian integer bytes, and JSON string escaping.
//!
//! The key-exchange documents carry RSA public-key material as the minimal
//! big-endian byte string of an unsigned integer, base64url-encoded without
//! padding.  Decoding the encoded form reproduces the integer exactly; see
//! `client_session::lemma_key_round_trip`.

use vstd::prelude::*;

verus! {

/// The UTF-8 bytes of a character string.  For a `String` or `&str` value
/// `s`, `bytes_of(s@)` is what `s.as_bytes()` yields.
pub open spec fn bytes_of(s: Seq<char>) -> Seq<u8> {
    vstd::utf8::encode_utf8(s)
}

/// Relies on String::from_utf8: it succeeds exactly on valid UTF-8 input,
/// and the resulting string's UTF-8 bytes are the input bytes.
#[verifier::external_body]
pub(crate) fn utf8_to_string(b: Vec<u8>) -> (r: Option<String>)
    ensures
        match r {
            Some(s) => bytes_of(s@) == b@,
            None => !vstd::utf8::valid_utf8(b@),
        },
        vstd::utf8::valid_utf8(b@) ==> r is Some,
{
    match String::from_utf8(b) {
        Ok(s) => Some(s),
        Err(_) => None,
    }
}

/// A string of ASCII bytes is valid UTF-8.
pub proof fn lemma_ascii_valid_utf8(b: Seq<u8>)
    requires
        forall|i: int| 0 <= i < b.len() ==> b[i] < 128,
    ensures
        vstd::utf8::valid_utf8(b),
{
    assert(b.subrange(0, 0) =~= Seq::<u8>::empty());
    assert(vstd::utf8::valid_utf8(b.subrange(0, 0)));
    assert(vstd::utf8::partial_valid_utf8(b, 0));
    assert forall|i: int| 0 <= 0 <= i < b.len() <= b.len() implies
        vstd::utf8::is_leading_byte_width_1(b[i]) by {
        assert(b[i] < 128);
    }
    vstd::utf8::partial_valid_utf8_extend_ascii_block(b, 0, b.len() as int);
    assert(b.subrange(0, b.len() as int) =~= b);
}

// ---------------------------------------------------------------------------
// Lowercase hex
// ---------------------------------------------------------------------------

/// The lowercase hex digit for a value below 16.
pub open spec fn hex_digit(v: u8) -> u8
    recommends
        v < 16,
{
    if v < 10 {
        (48 + v) as u8
    } else {
        (87 + v) as u8
    }
}

/// Lowercase hex encoding of a byte string, two digits per byte.
pub open spec fn hex_of(b: Seq<u8>) -> Seq<u8> {
    Seq::new(
        b.len() * 2,
        |i: int|
            if i % 2 == 0 {
                hex_digit((b[i / 2] / 16) as u8)
            } else {
                hex_digit((b[i / 2] % 16) as u8)
            },
    )
}

fn hex_digit_e(v: u8) -> (r: u8)
    requires
        v < 16,
    ensures
        r == hex_digit(v),
{
    if v < 10 {
        48 + v
    } else {
        87 + v
    }
}

/// Encode bytes as lowercase hex.
pub fn hex_encode(b: &[u8]) -> (r: Vec<u8>)
    ensures
        r@ == hex_of(b@),
{
    let mut out: Vec<u8> = Vec::new();
    let mut i: usize = 0;
    while i < b.len()
        invariant
            i <= b.len(),
            out@.len() == 2 * i,
            forall|j: int| 0 <= j < out@.len() ==> out@[j] == hex_of(b@)[j],
        decreases b.len() - i,
    {
        let x = b[i];
        out.push(hex_digit_e(x / 16));
        out.push(hex_digit_e(x % 16));
        i += 1;
    }
    proof {
        assert(out@ =~= hex_of(b@));
    }
    out
}

// ---------------------------------------------------------------------------
// Unpadded base64url
// ---------------------------------------------------------------------------

/// The base64url alphabet character for a 6-bit value.
pub open spec fn b64_char(v: u8) -> u8
    recommends
        v < 64,
{
    if v < 26 {
        (65 + v) as u8  // 'A'..'Z'
    } else if v < 52 {
        (71 + v) as u8  // 'a'..'z'
    } else if v < 62 {
        (v - 4) as u8  // '0'..'9'
    } else if v == 62 {
        45u8  // '-'
    } else {
        95u8  // '_'
    }
}

/// The 6-bit value of a base64url character, or -1 if the byte is not in
/// the alphabet.
pub open spec fn b64_val(c: u8) -> int {
    if 65 <= c && c <= 90 {
        c - 65
    } else if 97 <= c && c <= 122 {
        c - 71
    } else if 48 <= c && c <= 57 {
        c + 4
    } else if c == 45 {
        62
    } else if c == 95 {
        63
    } else {
        -1
    }
}

/// The alphabet map and its inverse cancel.
pub proof fn lemma_b64_char_val(v: u8)
    requires
        v < 64,
    ensures
        b64_val(b64_char(v)) == v,
        b64_char(v) < 128,
{
}

/// Length of the unpadded base64url encoding of `n` bytes.
pub open spec fn b64_len(n: nat) -> nat {
    4 * (n / 3) + (if n % 3 == 0 {
        0nat
    } else {
        (n % 3 + 1) as nat
    })
}

/// The `j`-th 6-bit group of a byte string, bytes beyond the end taken as 0.
pub open spec fn sextet(b: Seq<u8>, j: int) -> u8
    recommends
        0 <= j < b64_len(b.len()),
{
    let g = j / 4;
    let x0 = b[3 * g];
    let x1: u8 = if 3 * g + 1 < b.len() {
        b[3 * g + 1]
    } else {
        0
    };
    let x2: u8 = if 3 * g + 2 < b.len() {
        b[3 * g + 2]
    } else {
        0
    };
    if j % 4 == 0 {
        x0 >> 2u8
    } else if j % 4 == 1 {
        (((x0 & 3) << 4u8) | (x1 >> 4u8)) as u8
    } else if j % 4 == 2 {
        (((x1 & 15) << 2u8) | (x2 >> 6u8)) as u8
    } else {
        (x2 & 63) as u8
    }
}

/// Unpadded base64url encoding of a byte string.
pub open spec fn b64url_of(b: Seq<u8>) -> Seq<u8> {
    Seq::new(b64_len(b.len()), |j: int| b64_char(sextet(b, j)))
}

/// Number of bytes encoded by `n` base64url characters.
pub open spec fn b64_dec_len(n: nat) -> nat {
    3 * (n / 4) + (if n % 4 <= 1 {
        0nat
    } else {
        (n % 4 - 1) as nat
    })
}

/// The `k`-th byte reassembled from base64url characters, characters beyond
/// the end taken as value 0.
pub open spec fn b64_byte(s: Seq<u8>, k: int) -> u8
    recommends
        0 <= k < b64_dec_len(s.len()),
{
    let g = k / 3;
    let v0 = b64_val(s[4 * g]) as u8;
    let v1: u8 = if 4 * g + 1 < s.len() {
        b64_val(s[4 * g + 1]) as u8
    } else {
        0
    };
    let v2: u8 = if 4 * g + 2 < s.len() {
        b64_val(s[4 * g + 2]) as u8
    } else {
        0
    };
    let v3: u8 = if 4 * g + 3 < s.len() {
        b64_val(s[4 * g + 3]) as u8
    } else {
        0
    };
    if k % 3 == 0 {
        ((v0 << 2u8) | (v1 >> 4u8)) as u8
    } else if k % 3 == 1 {
        (((v1 & 15) << 4u8) | (v2 >> 2u8)) as u8
    } else {
        (((v2 & 3) << 6u8) | v3) as u8
    }
}

/// A byte string is acceptable unpadded base64url if its length is not
/// 1 mod 4 and every byte is an alphabet character.
pub open spec fn b64_valid(s: Seq<u8>) -> bool {
    s.len() % 4 != 1 && forall|i: int| 0 <= i < s.len() ==> b64_val(s[i]) >= 0
}

/// Decode unpadded base64url; `None` if the input is not acceptable.
pub open spec fn b64url_parse(s: Seq<u8>) -> Option<Seq<u8>> {
    if b64_valid(s) {
        Some(Seq::new(b64_dec_len(s.len()), |k: int| b64_byte(s, k)))
    } else {
        None
    }
}

proof fn lemma_bv_sextets(x0: u8, x1: u8, x2: u8)
    ensures
        (((x0 >> 2u8) << 2u8) | ((((x0 & 3) << 4u8) | (x1 >> 4u8)) >> 4u8)) == x0,
        (((((x0 & 3) << 4u8) | (x1 >> 4u8)) & 15) << 4u8) | ((((x1 & 15) << 2u8) | (x2 >> 6u8))
            >> 2u8) == x1,
        (((((x1 & 15) << 2u8) | (x2 >> 6u8)) & 3) << 6u8) | (x2 & 63) == x2,
        x0 >> 2u8 < 64,
        (((x0 & 3) << 4u8) | (x1 >> 4u8)) < 64,
        (((x1 & 15) << 2u8) | (x2 >> 6u8)) < 64,
        (x2 & 63) < 64,
{
    assert((((x0 >> 2u8) << 2u8) | ((((x0 & 3) << 4u8) | (x1 >> 4u8)) >> 4u8)) == x0)
        by (bit_vector);
    assert((((((x0 & 3) << 4u8) | (x1 >> 4u8)) & 15) << 4u8) | ((((x1 & 15) << 2u8) | (x2 >> 6u8))
        >> 2u8) == x1) by (bit_vector);
    assert((((((x1 & 15) << 2u8) | (x2 >> 6u8)) & 3) << 6u8) | (x2 & 63) == x2) by (bit_vector);
    assert(x0 >> 2u8 < 64) by (bit_vector);
    assert((((x0 & 3) << 4u8) | (x1 >> 4u8)) < 64) by (bit_vector);
    assert((((x1 & 15) << 2u8) | (x2 >> 6u8)) < 64) by (bit_vector);
    assert((x2 & 63) < 64) by (bit_vector);
}

/// Every 6-bit group of an encoding is below 64.
pub proof fn lemma_sextet_bound(b: Seq<u8>, j: int)
    requires
        0 <= j < b64_len(b.len()),
    ensures
        sextet(b, j) < 64,
{
    let g = j / 4;
    assert(0 <= 3 * g < b.len()) by {
        lemma_group_in_range(b.len() as int, j);
    }
    let x0 = b[3 * g];
    let x1: u8 = if 3 * g + 1 < b.len() {
        b[3 * g + 1]
    } else {
        0
    };
    let x2: u8 = if 3 * g + 2 < b.len() {
        b[3 * g + 2]
    } else {
        0
    };
    lemma_bv_sextets(x0, x1, x2);
}

/// For an index `j` below the encoded length, the first byte of its group
/// lies inside the input.
proof fn lemma_group_in_range(n: int, j: int)
    requires
        n >= 0,
        0 <= j < b64_len(n as nat),
    ensures
        0 <= 3 * (j / 4) < n,
        j % 4 == 1 ==> 3 * (j / 4) + 1 <= n,
        j % 4 == 2 ==> 3 * (j / 4) + 2 <= n,
        j % 4 == 3 ==> 3 * (j / 4) + 3 <= n,
{
    let q = n / 3;
    let r = n % 3;
    assert(n == 3 * q + r && 0 <= r < 3);
    let f: int = if r == 0 {
        0
    } else {
        r + 1
    };
    assert(b64_len(n as nat) == 4 * q + f);
    let gj = j / 4;
    let pj = j % 4;
    assert(j == 4 * gj + pj && 0 <= pj < 4);
    assert(gj <= q);
    if gj == q {
        assert(pj < f);
    }
    assert(3 * gj < n);
    assert(3 * gj >= 0);
    assert(gj < q ==> 3 * gj + 3 <= n);
    if gj == q {
        assert(pj < f);
        assert(r != 0);
        if pj == 1 {
            assert(3 * gj + 1 <= n);
        }
        if pj == 2 {
            assert(r == 2);
            assert(3 * gj + 2 <= n);
        }
        assert(pj != 3);
    }
}

/// Decoding an encoding yields the original bytes.
pub proof fn lemma_b64_round_trip(b: Seq<u8>)
    ensures
        b64url_parse(b64url_of(b)) == Some(b),
{
    let e = b64url_of(b);
    let n = b.len() as int;
    let q = n / 3;
    let r = n % 3;
    assert(n == 3 * q + r && 0 <= r < 3);
    let f: int = if r == 0 {
        0
    } else {
        r + 1
    };
    assert(e.len() == 4 * q + f);
    // validity of every character
    assert forall|i: int| 0 <= i < e.len() implies b64_val(e[i]) >= 0 by {
        lemma_sextet_bound(b, i);
        lemma_b64_char_val(sextet(b, i));
    }
    assert((4 * q + f) % 4 == f && (4 * q + f) / 4 == q);
    assert(e.len() % 4 != 1);
    assert(b64_valid(e));
    // decoded length
    assert(b64_dec_len(e.len()) == n);
    let d = b64url_parse(e).unwrap();
    assert forall|k: int| 0 <= k < n implies d[k] == b[k] by {
        let g = k / 3;
        let p = k % 3;
        assert(k == 3 * g + p && 0 <= p < 3 && g >= 0);
        assert(g < q || (g == q && p < r));
        // the four characters of group g exist as needed
        assert((4 * g) / 4 == g && (4 * g) % 4 == 0);
        assert((4 * g + 1) / 4 == g && (4 * g + 1) % 4 == 1);
        assert((4 * g + 2) / 4 == g && (4 * g + 2) % 4 == 2);
        assert((4 * g + 3) / 4 == g && (4 * g + 3) % 4 == 3);
        let x0 = b[3 * g];
        let x1: u8 = if 3 * g + 1 < n {
            b[3 * g + 1]
        } else {
            0
        };
        let x2: u8 = if 3 * g + 2 < n {
            b[3 * g + 2]
        } else {
            0
        };
        assert(4 * g < e.len() && 4 * g + 1 < e.len());
        lemma_sextet_bound(b, 4 * g);
        lemma_sextet_bound(b, 4 * g + 1);
        lemma_b64_char_val(sextet(b, 4 * g));
        lemma_b64_char_val(sextet(b, 4 * g + 1));
        let s0 = sextet(b, 4 * g);
        let s1 = sextet(b, 4 * g + 1);
        assert(s0 == x0 >> 2u8);
        assert(s1 == (((x0 & 3) << 4u8) | (x1 >> 4u8)));
        lemma_bv_sextets(x0, x1, x2);
        if p == 0 {
            assert(b64_byte(e, k) == ((s0 << 2u8) | (s1 >> 4u8)) as u8);
            assert(d[k] == b[k]);
        } else {
            assert(4 * g + 2 < e.len());
            lemma_sextet_bound(b, 4 * g + 2);
            lemma_b64_char_val(sextet(b, 4 * g + 2));
            let s2 = sextet(b, 4 * g + 2);
            assert(s2 == (((x1 & 15) << 2u8) | (x2 >> 6u8)));
            if p == 1 {
                assert(b64_byte(e, k) == (((s1 & 15) << 4u8) | (s2 >> 2u8)) as u8);
                assert(d[k] == b[k]);
            } else {
                assert(4 * g + 3 < e.len());
                lemma_sextet_bound(b, 4 * g + 3);
                lemma_b64_char_val(sextet(b, 4 * g + 3));
                let s3 = sextet(b, 4 * g + 3);
                assert(s3 == (x2 & 63));
                assert(b64_byte(e, k) == (((s2 & 3) << 6u8) | s3) as u8);
                assert(d[k] == b[k]);
            }
        }
    }
    assert(d =~= b);
}

fn b64_char_e(v: u8) -> (r: u8)
    requires
        v < 64,
    ensures
        r == b64_char(v),
{
    if v < 26 {
        65 + v
    } else if v < 52 {
        71 + v
    } else if v < 62 {
        v - 4
    } else if v == 62 {
        45
    } else {
        95
    }
}

/// Encode bytes as unpadded base64url.
pub fn b64url_encode(b: &[u8]) -> (r: Vec<u8>)
    ensures
        r@ == b64url_of(b@),
{
    let mut out: Vec<u8> = Vec::new();
    let mut i: usize = 0;
    let ghost n = b@.len() as int;
    while i < b.len()
        invariant
            0 <= i <= b.len(),
            i % 3 == 0 ==> out@.len() == 4 * ((i as int) / 3) && 4 * ((i as int) / 3) <= b64_len(
                b@.len(),
            ),
            i % 3 != 0 ==> i == b.len() && out@.len() == b64_len(b@.len()),
            forall|j: int| 0 <= j < out@.len() ==> out@[j] == b64url_of(b@)[j],
        decreases b.len() - i,
    {
        proof {
            assert(i % 3 == 0);
        }
        let ghost g = (i as int) / 3;
        proof {
            assert(3 * g == i);
            assert((4 * g) / 4 == g && (4 * g) % 4 == 0);
            assert((4 * g + 1) / 4 == g && (4 * g + 1) % 4 == 1);
            assert((4 * g + 2) / 4 == g && (4 * g + 2) % 4 == 2);
            assert((4 * g + 3) / 4 == g && (4 * g + 3) % 4 == 3);
        }
        let x0 = b[i];
        let x1: u8 = if i + 1 < b.len() {
            b[i + 1]
        } else {
            0
        };
        let x2: u8 = if i + 2 < b.len() {
            b[i + 2]
        } else {
            0
        };
        proof {
            lemma_bv_sextets(x0, x1, x2);
            lemma_len_step(b@.len() as int, i as int);
        }
        out.push(b64_char_e(x0 >> 2u8));
        out.push(b64_char_e(((x0 & 3) << 4u8) | (x1 >> 4u8)));
        if i + 1 < b.len() {
            out.push(b64_char_e(((x1 & 15) << 2u8) | (x2 >> 6u8)));
        }
        if i + 2 < b.len() {
            out.push(b64_char_e(x2 & 63));
        }
        if b.len() - i >= 3 {
            i += 3;
        } else {
            i = b.len();
        }
    }
    proof {
        if i % 3 == 0 {
            assert(b@.len() % 3 == 0);
        }
        assert(out@.len() == b64_len(b@.len()));
        assert(out@ =~= b64url_of(b@));
    }
    out
}

/// How the encoded length grows over the group starting at `i`.
proof fn lemma_len_step(n: int, i: int)
    requires
        0 <= i < n,
        i % 3 == 0,
    ensures
        i + 3 <= n ==> b64_len(n as nat) >= 4 * (i / 3) + 4 && (i + 3 == n ==> b64_len(n as nat)
            == 4 * (i / 3) + 4) && (i + 3) / 3 == i / 3 + 1 && (i + 3) % 3 == 0,
        i + 1 == n ==> b64_len(n as nat) == 4 * (i / 3) + 2,
        i + 2 == n ==> b64_len(n as nat) == 4 * (i / 3) + 3,
{
    let g = i / 3;
    assert(i == 3 * g);
    if i + 3 <= n {
        assert((i + 3) / 3 == g + 1 && (i + 3) % 3 == 0);
        assert(n / 3 >= g + 1);
        assert(b64_len(n as nat) >= 4 * (n / 3));
        assert(4 * (n / 3) >= 4 * (g + 1));
        if i + 3 == n {
            assert(n / 3 == g + 1 && n % 3 == 0);
        }
    }
    if i + 1 == n {
        assert(n / 3 == g && n % 3 == 1);
    }
    if i + 2 == n {
        assert(n / 3 == g && n % 3 == 2);
    }
}

fn b64_val_e(c: u8) -> (r: i16)
    ensures
        r as int == b64_val(c),
{
    if 65 <= c && c <= 90 {
        c as i16 - 65
    } else if 97 <= c && c <= 122 {
        c as i16 - 71
    } else if 48 <= c && c <= 57 {
        c as i16 + 4
    } else if c == 45 {
        62
    } else if c == 95 {
        63
    } else {
        -1
    }
}

/// Decode unpadded base64url bytes.
pub fn b64url_decode(s: &[u8]) -> (r: Option<Vec<u8>>)
    ensures
        match r {
            Some(v) => b64url_parse(s@) == Some(v@),
            None => b64url_parse(s@) is None,
        },
{
    if s.len() % 4 == 1 {
        return None;
    }
    let mut out: Vec<u8> = Vec::new();
    let mut i: usize = 0;
    while i < s.len()
        invariant
            0 <= i <= s.len(),
            s@.len() % 4 != 1,
            i % 4 == 0 ==> out@.len() == 3 * ((i as int) / 4) && 3 * ((i as int) / 4)
                <= b64_dec_len(s@.len()),
            i % 4 != 0 ==> i == s.len() && out@.len() == b64_dec_len(s@.len()),
            forall|j: int| 0 <= j < i ==> b64_val(s@[j]) >= 0,
            forall|k: int| 0 <= k < out@.len() ==> out@[k] == b64_byte(s@, k),
        decreases s.len() - i,
    {
        proof {
            assert(i % 4 == 0);
        }
        let ghost g = (i as int) / 4;
        proof {
            assert(4 * g == i);
            assert((3 * g) / 3 == g && (3 * g) % 3 == 0);
            assert((3 * g + 1) / 3 == g && (3 * g + 1) % 3 == 1);
            assert((3 * g + 2) / 3 == g && (3 * g + 2) % 3 == 2);
        }
        let w0 = b64_val_e(s[i]);
        let w1: i16 = if i + 1 < s.len() {
            b64_val_e(s[i + 1])
        } else {
            0
        };
        let w2: i16 = if i + 2 < s.len() {
            b64_val_e(s[i + 2])
        } else {
            0
        };
        let w3: i16 = if i + 3 < s.len() {
            b64_val_e(s[i + 3])
        } else {
            0
        };
        if w0 < 0 || w1 < 0 || w2 < 0 || w3 < 0 {
            return None;
        }
        // a lone trailing character would leave length 1 mod 4, already refused
        let v0 = w0 as u8;
        let v1 = w1 as u8;
        let v2 = w2 as u8;
        let v3 = w3 as u8;
        proof {
            lemma_dec_len_step(s@.len() as int, i as int);
        }
        out.push((v0 << 2u8) | (v1 >> 4u8));
        if i + 2 < s.len() {
            out.push(((v1 & 15) << 4u8) | (v2 >> 2u8));
        }
        if i + 3 < s.len() {
            out.push(((v2 & 3) << 6u8) | v3);
        }
        if s.len() - i >= 4 {
            i += 4;
        } else {
            i = s.len();
        }
    }
    proof {
        assert(b64_valid(s@));
        if i % 4 == 0 {
            assert(s@.len() % 4 == 0);
        }
        assert(out@.len() == b64_dec_len(s@.len()));
        assert(out@ =~= b64url_parse(s@).unwrap());
    }
    Some(out)
}

/// How the decoded length grows over the group starting at `i`.
proof fn lemma_dec_len_step(n: int, i: int)
    requires
        0 <= i < n,
        i % 4 == 0,
        n % 4 != 1,
    ensures
        i + 4 <= n ==> b64_dec_len(n as nat) >= 3 * (i / 4) + 3 && (i + 4 == n ==> b64_dec_len(
            n as nat,
        ) == 3 * (i / 4) + 3) && (i + 4) / 4 == i / 4 + 1 && (i + 4) % 4 == 0,
        i + 2 == n ==> b64_dec_len(n as nat) == 3 * (i / 4) + 1,
        i + 3 == n ==> b64_dec_len(n as nat) == 3 * (i / 4) + 2,
        i + 1 != n,
{
    let g = i / 4;
    assert(i == 4 * g);
    if i + 1 == n {
        assert(n % 4 == 1);
    }
    if i + 4 <= n {
        assert((i + 4) / 4 == g + 1 && (i + 4) % 4 == 0);
        assert(n / 4 >= g + 1);
        assert(3 * (n / 4) >= 3 * (g + 1));
        if i + 4 == n {
            assert(n / 4 == g + 1 && n % 4 == 0);
        }
    }
    if i + 2 == n {
        assert(n / 4 == g && n % 4 == 2);
    }
    if i + 3 == n {
        assert(n / 4 == g && n % 4 == 3);
    }
}

// ---------------------------------------------------------------------------
// Minimal big-endian unsigned integers
// ---------------------------------------------------------------------------

/// The unsigned integer denoted by big-endian bytes.
pub open spec fn be_val(b: Seq<u8>) -> nat
    decreases b.len(),
{
    if b.len() == 0 {
        0
    } else {
        (be_val(b.drop_last()) * 256 + b.last()) as nat
    }
}

/// The minimal big-endian form: leading zeros stripped, a single zero byte
/// for the value zero.
pub open spec fn min_be(b: Seq<u8>) -> Seq<u8>
    decreases b.len(),
{
    if b.len() == 0 {
        seq![0u8]
    } else if b[0] == 0 {
        min_be(b.skip(1))
    } else {
        b
    }
}

/// Dropping a leading zero byte keeps the value.
proof fn lemma_be_val_skip_zero(b: Seq<u8>)
    requires
        b.len() > 0,
        b[0] == 0,
    ensures
        be_val(b) == be_val(b.skip(1)),
    decreases b.len(),
{
    if b.len() == 1 {
        assert(b.drop_last().len() == 0);
        assert(be_val(b.drop_last()) == 0);
        assert(b.last() == b[0]);
        assert(b.skip(1).len() == 0);
        assert(be_val(b.skip(1)) == 0);
        assert(be_val(b) == 0);
    } else {
        let d = b.drop_last();
        assert(d[0] == 0);
        lemma_be_val_skip_zero(d);
        assert(d.skip(1) =~= b.skip(1).drop_last());
        assert(b.skip(1).last() == b.last());
    }
}

/// The minimal form keeps the value, is nonempty, and has no leading zero
/// unless it denotes zero.
pub proof fn lemma_min_be_val(b: Seq<u8>)
    ensures
        be_val(min_be(b)) == be_val(b),
        min_be(b).len() >= 1,
        min_be(b).len() > 1 ==> min_be(b)[0] != 0,
    decreases b.len(),
{
    if b.len() == 0 {
        let z = seq![0u8];
        assert(z.drop_last().len() == 0);
        assert(be_val(z.drop_last()) == 0);
        assert(z.last() == 0);
        assert(be_val(z) == 0);
        assert(be_val(b) == 0);
    } else if b[0] == 0 {
        lemma_be_val_skip_zero(b);
        lemma_min_be_val(b.skip(1));
    } else {
    }
}

/// `min_be` explicitly, given the position of the first nonzero byte.
pub proof fn lemma_min_be_from(b: Seq<u8>, idx: int)
    requires
        0 <= idx <= b.len(),
        forall|i: int| 0 <= i < idx ==> b[i] == 0,
        idx < b.len() ==> b[idx] != 0,
    ensures
        idx == b.len() ==> min_be(b) == seq![0u8],
        idx < b.len() ==> min_be(b) == b.skip(idx),
    decreases idx,
{
    if idx == 0 {
        if b.len() > 0 {
            assert(b.skip(0) =~= b);
        }
    } else {
        assert(b[0] == 0);
        lemma_min_be_from(b.skip(1), idx - 1);
        assert(b.skip(1).skip(idx - 1) =~= b.skip(idx));
        if idx == b.len() {
        }
    }
}

/// Strip to minimal big-endian form.
pub fn min_be_bytes(b: &[u8]) -> (r: Vec<u8>)
    ensures
        r@ == min_be(b@),
{
    let mut idx: usize = 0;
    while idx < b.len() && b[idx] == 0
        invariant
            0 <= idx <= b.len(),
            forall|i: int| 0 <= i < idx ==> b@[i] == 0,
        decreases b.len() - idx,
    {
        idx += 1;
    }
    proof {
        lemma_min_be_from(b@, idx as int);
    }
    let mut out: Vec<u8> = Vec::new();
    if idx == b.len() {
        out.push(0);
        proof {
            assert(out@ =~= seq![0u8]);
        }
    } else {
        let mut i: usize = idx;
        while i < b.len()
            invariant
                idx <= i <= b.len(),
                out@.len() == i - idx,
                forall|j: int| 0 <= j < out@.len() ==> out@[j] == b@[idx + j],
            decreases b.len() - i,
        {
            out.push(b[i]);
            i += 1;
        }
        proof {
            assert(out@ =~= b@.skip(idx as int));
        }
    }
    out
}

// ---------------------------------------------------------------------------
// JSON string escaping
// ---------------------------------------------------------------------------

/// The escape sequence a byte contributes inside a JSON string: quote and
/// backslash get a two-byte escape, control bytes a `\u00XX` escape, and
/// every other byte stands for itself.
pub open spec fn esc_byte(c: u8) -> Seq<u8> {
    if c == 34 {
        seq![92u8, 34u8]
    } else if c == 92 {
        seq![92u8, 92u8]
    } else if c < 32 {
        seq![92u8, 117u8, 48u8, 48u8, hex_digit((c / 16) as u8), hex_digit((c % 16) as u8)]
    } else {
        seq![c]
    }
}

/// JSON string escaping of a byte string.
pub open spec fn json_escaped(s: Seq<u8>) -> Seq<u8>
    decreases s.len(),
{
    if s.len() == 0 {
        Seq::empty()
    } else {
        esc_byte(s[0]) + json_escaped(s.skip(1))
    }
}

/// Escaping distributes over appending one byte.
pub proof fn lemma_json_escaped_push(s: Seq<u8>, x: u8)
    ensures
        json_escaped(s.push(x)) == json_escaped(s) + esc_byte(x),
    decreases s.len(),
{
    if s.len() == 0 {
        assert(s.push(x)[0] == x);
        assert(s.push(x).skip(1) =~= Seq::<u8>::empty());
        assert(json_escaped(s.push(x)) == esc_byte(x) + json_escaped(Seq::<u8>::empty()));
        assert(json_escaped(Seq::<u8>::empty()) == Seq::<u8>::empty());
        assert(esc_byte(x) + Seq::<u8>::empty() =~= esc_byte(x));
        assert(json_escaped(s) + esc_byte(x) =~= esc_byte(x));
    } else {
        assert(s.push(x)[0] == s[0]);
        assert(s.push(x).skip(1) =~= s.skip(1).push(x));
        lemma_json_escaped_push(s.skip(1), x);
        assert(json_escaped(s.push(x)) == esc_byte(s[0]) + (json_escaped(s.skip(1)) + esc_byte(x)));
        assert(esc_byte(s[0]) + (json_escaped(s.skip(1)) + esc_byte(x)) =~= (esc_byte(s[0])
            + json_escaped(s.skip(1))) + esc_byte(x));
    }
}

/// Escape a byte string for inclusion inside a JSON string literal.
pub fn escape_json(b: &[u8]) -> (r: Vec<u8>)
    ensures
        r@ == json_escaped(b@),
{
    let mut out: Vec<u8> = Vec::new();
    let mut i: usize = 0;
    while i < b.len()
        invariant
            0 <= i <= b.len(),
            out@ == json_escaped(b@.take(i as int)),
        decreases b.len() - i,
    {
        let c = b[i];
        proof {
            lemma_json_escaped_push(b@.take(i as int), c);
            assert(b@.take(i as int).push(c) =~= b@.take(i + 1 as int));
        }
        if c == 34 {
            out.push(92);
            out.push(34);
        } else if c == 92 {
            out.push(92);
            out.push(92);
        } else if c < 32 {
            out.push(92);
            out.push(117);
            out.push(48);
            out.push(48);
            out.push(hex_digit_e(c / 16));
            out.push(hex_digit_e(c % 16));
        } else {
            out.push(c);
        }
        proof {
            assert(out@ =~= json_escaped(b@.take(i as int)) + esc_byte(c));
        }
        i += 1;
    }
    proof {
        assert(b@.take(b@.len() as int) =~= b@);
    }
    out
}

} // verus!
