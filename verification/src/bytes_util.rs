use vstd::prelude::*;
use vstd::utf8::*;

use vstd::string::StrSliceExecFns;

use byteorder::{LittleEndian, ReadBytesExt, WriteBytesExt};
use rand::distributions::Alphanumeric;
use rand::{thread_rng, Rng};
use std::io::Cursor;

verus! {

/// `n` zero bytes.
pub open spec fn zeros(n: nat) -> Seq<u8> {
    Seq::new(n, |i: int| 0u8)
}

/// `bytes` followed by as many zero bytes as it takes to reach length `cap`.
pub open spec fn padded(bytes: Seq<u8>, cap: nat) -> Seq<u8>
    recommends
        bytes.len() <= cap,
{
    bytes + zeros((cap - bytes.len()) as nat)
}

/// The four little-endian bytes of `n`, least significant first.
pub open spec fn u32_le_bytes(n: u32) -> Seq<u8> {
    seq![
        (n % 256) as u8,
        ((n / 256) % 256) as u8,
        ((n / 65536) % 256) as u8,
        (n / 16777216) as u8,
    ]
}

/// The number whose little-endian encoding is the first four bytes of `b`.
pub open spec fn le_u32_value(b: Seq<u8>) -> int
    recommends
        b.len() >= 4,
{
    b[0] + 256 * b[1] + 65536 * b[2] + 16777216 * b[3]
}

/// Writes `n` into a four-byte buffer with byteorder's
/// `WriteBytesExt::write_u32::<LittleEndian>` and returns the buffer.
/// Claimed: the buffer holds the little-endian bytes of `n`, which is what byteorder's
/// `LittleEndian::write_u32` (`n.to_le_bytes()`) writes. Writing four bytes into a
/// four-byte slice does not fail.
#[verifier::external_body]
pub(crate) fn write_u32_le(n: u32) -> (bytes: Vec<u8>)
    ensures
        bytes@ == u32_le_bytes(n),
{
    let mut buf = [0u8; 4];
    buf.as_mut().write_u32::<LittleEndian>(n).expect("Unable to write usize as bytes");
    buf.to_vec()
}

/// Reads a `u32` from the start of `buffer` with byteorder's
/// `ReadBytesExt::read_u32::<LittleEndian>` on a `std::io::Cursor`.
/// Claimed: the result is the little-endian value of the first four bytes
/// (`u32::from_le_bytes`); with at least four bytes the read does not fail.
#[verifier::external_body]
fn read_u32_le(buffer: Vec<u8>) -> (n: u32)
    requires
        buffer.len() >= 4,
    ensures
        n == le_u32_value(buffer@),
{
    ReadBytesExt::read_u32::<LittleEndian>(&mut Cursor::new(buffer)).unwrap()
}

/// Pads input byte vector until the given capacity size and returns it
pub fn pad_until_len(bytes: Vec<u8>, cap: usize) -> (res: Vec<u8>)
    requires
        bytes.len() <= cap,
    ensures
        res@ == padded(bytes@, cap as nat),
        res.len() == cap,
{
    let mut bytes = bytes;
    let ghost orig = bytes@;
    let to_pad: usize = cap - bytes.len();
    let mut i: usize = 0;
    while i < to_pad
        invariant
            i <= to_pad,
            to_pad == cap - orig.len(),
            bytes@ == orig + zeros(i as nat),
        decreases to_pad - i,
    {
        bytes.push(0u8);
        i = i + 1;
        assert(bytes@ =~= orig + zeros(i as nat));
    }
    bytes
}

/// Encodes a usize as a byte vector using little endian scheme
/// (the value is truncated to its low 32 bits, as the wire format holds a `u32`)
pub fn encode_usize_as_vec(usize_var: usize) -> (res: Vec<u8>)
    ensures
        res@ == u32_le_bytes(usize_var as u32),
        res.len() == 4,
{
    write_u32_le(usize_var as u32)
}

/// Decodes a byte vector as a unsigned integer 32bits using a little endian scheme
pub fn decode_buffer_to_u32(buffer: Vec<u8>) -> (res: u32)
    requires
        buffer.len() >= 4,
    ensures
        res == le_u32_value(buffer@),
{
    read_u32_le(buffer)
}

/// Given a byte vector buffer, decode it and return the usize content
pub fn decode_buffer_to_usize(buffer: Vec<u8>) -> (res: usize)
    requires
        buffer.len() >= 4,
    ensures
        res == le_u32_value(buffer@),
{
    read_u32_le(buffer) as usize
}

/// Decoding the little-endian bytes of a `u32` gives the number back.
pub proof fn law_u32_le_roundtrip(n: u32)
    ensures
        u32_le_bytes(n).len() == 4,
        le_u32_value(u32_le_bytes(n)) == n,
{
    let b = u32_le_bytes(n);
    assert(b[0] == n % 256);
    assert(b[1] == (n / 256) % 256);
    assert(b[2] == (n / 65536) % 256);
    assert(b[3] == n / 16777216);
    assert(n % 256 + 256 * ((n / 256) % 256) + 65536 * ((n / 65536) % 256) + 16777216 * (n
        / 16777216) == n) by (nonlinear_arith);
}

/// A count that fits in 32 bits, sent with `encode_usize_as_vec` and read back with
/// `decode_buffer_to_usize`, arrives unchanged.
pub proof fn law_count_roundtrip(n: usize)
    requires
        n <= u32::MAX,
    ensures
        le_u32_value(u32_le_bytes(n as u32)) == n,
{
    law_u32_le_roundtrip(n as u32);
}

/// Given a capacity and total size of file to send, returns the number of chunks: the
/// size divided by the capacity, rounded up.
pub fn chunk_count(len: u64, capacity: usize) -> (res: usize)
    requires
        capacity > 0,
        (len + capacity - 1) / (capacity as int) <= usize::MAX,
    ensures
        res == (len + capacity - 1) / (capacity as int),
{
    let cap: u64 = capacity as u64;
    let q: u64 = len / cap;
    let r: u64 = len % cap;
    proof {
        lemma_ceil_div(len as int, cap as int);
    }
    let n: u64 = if r == 0 {
        q
    } else {
        q + 1
    };
    n as usize
}

/// Rounding a division up adds one exactly when there is a remainder.
proof fn lemma_ceil_div(len: int, cap: int)
    requires
        len >= 0,
        cap > 0,
    ensures
        (len + cap - 1) / cap == len / cap + (if len % cap == 0 {
            0int
        } else {
            1int
        }),
{
    let q = len / cap;
    let r = len % cap;
    assert(len == q * cap + r && 0 <= r < cap) by (nonlinear_arith)
        requires
            cap > 0,
            q == len / cap,
            r == len % cap,
    ;
    let extra: int = if r == 0 {
        0int
    } else {
        1int
    };
    let r2: int = if r == 0 {
        cap - 1
    } else {
        r - 1
    };
    assert(len + cap - 1 == (q + extra) * cap + r2 && 0 <= r2 < cap) by (nonlinear_arith)
        requires
            len == q * cap + r,
            0 <= r < cap,
            extra == (if r == 0 { 0int } else { 1int }),
            r2 == (if r == 0 { cap - 1 } else { r - 1 }),
    ;
    assert((len + cap - 1) / cap == q + extra) by (nonlinear_arith)
        requires
            len + cap - 1 == (q + extra) * cap + r2,
            0 <= r2 < cap,
            cap > 0,
    ;
}

/// Number of characters in a transfer code.
pub const CODE_LEN: usize = 5;

/// `s` without its trailing NUL characters (`str::trim_end_matches('\0')`).
pub open spec fn trim_trailing_nul(s: Seq<char>) -> Seq<char>
    decreases s.len(),
{
    if s.len() > 0 && s.last() == '\0' {
        trim_trailing_nul(s.drop_last())
    } else {
        s
    }
}

/// A character that a transfer code may hold: an ASCII letter or digit.
pub open spec fn is_code_char(c: char) -> bool {
    ||| ('0' <= c && c <= '9')
    ||| ('A' <= c && c <= 'Z')
    ||| ('a' <= c && c <= 'z')
}

/// A byte that encodes an ASCII letter or digit.
pub open spec fn is_alphanumeric_byte(b: u8) -> bool {
    ||| (0x30 <= b && b <= 0x39)
    ||| (0x41 <= b && b <= 0x5A)
    ||| (0x61 <= b && b <= 0x7A)
}

/// The code spelled by a sequence of drawn bytes: one character per byte.
pub open spec fn code_of(draws: Seq<u8>) -> Seq<char> {
    Seq::new(draws.len(), |i: int| draws[i] as char)
}

/// `std::str::from_utf8`, with the error turned into `None`.
/// Claimed (std documentation): the call succeeds exactly when the bytes are valid UTF-8,
/// and the string slice then holds the characters those bytes encode; both are stated with
/// vstd's UTF-8 model (`valid_utf8`, `decode_utf8`).
#[verifier::external_body]
fn str_from_utf8(bytes: &[u8]) -> (res: Option<&str>)
    ensures
        res is Some <==> valid_utf8(bytes@),
        res matches Some(s) ==> s@ == decode_utf8(bytes@),
{
    std::str::from_utf8(bytes).ok()
}

/// Draws one byte from rand's `Alphanumeric` distribution with the thread-local generator
/// (`rand::thread_rng()` and `Rng::sample`).
/// Claimed: the byte is an ASCII letter or digit (rand samples from
/// `A-Z`, `a-z`, `0-9`); which one comes out is left open.
#[verifier::external_body]
fn sample_alphanumeric() -> (b: u8)
    ensures
        is_alphanumeric_byte(b),
{
    thread_rng().sample(Alphanumeric)
}

/// Turns five drawn letters and digits into the transfer code, one character per draw,
/// in the order drawn.
pub fn code_from_draws(draws: Vec<u8>) -> (code: String)
    requires
        draws.len() == CODE_LEN,
        forall|i: int| 0 <= i < draws.len() ==> is_alphanumeric_byte(#[trigger] draws@[i]),
    ensures
        code@ == code_of(draws@),
{
    let ghost chars: Seq<char> = code_of(draws@);
    proof {
        assert(is_ascii_chars(chars));
        is_ascii_chars_encode_utf8(chars);
        assert(encode_utf8(chars) =~= draws@);
        encode_utf8_valid_utf8(chars);
        encode_utf8_decode_utf8(chars);
    }
    match str_from_utf8(draws.as_slice()) {
        Some(text) => text.to_owned(),
        None => String::new(),
    }
}

/// Randomly generates a 5 character code
/// should have 62^5 combinations, which is plenty enough
/// since this utility will only be used through local networks
pub fn generate_code() -> (code: String)
    ensures
        code@.len() == CODE_LEN,
        forall|i: int| 0 <= i < code@.len() ==> is_code_char(#[trigger] code@[i]),
{
    let mut draws: Vec<u8> = Vec::new();
    for i in 0..CODE_LEN
        invariant
            draws.len() == i,
            forall|k: int| 0 <= k < i ==> is_alphanumeric_byte(#[trigger] draws@[k]),
    {
        let b: u8 = sample_alphanumeric();
        draws.push(b);
    }
    let code = code_from_draws(draws);
    proof {
        law_code_chars(draws@);
    }
    code
}

/// Every draw of letters and digits spells a code of letters and digits, one per draw.
pub proof fn law_code_chars(draws: Seq<u8>)
    requires
        forall|i: int| 0 <= i < draws.len() ==> is_alphanumeric_byte(#[trigger] draws[i]),
    ensures
        code_of(draws).len() == draws.len(),
        forall|i: int| 0 <= i < draws.len() ==> is_code_char(#[trigger] code_of(draws)[i]),
{
    assert forall|i: int| 0 <= i < draws.len() implies is_code_char(#[trigger] code_of(draws)[i]) by {
        assert(is_alphanumeric_byte(draws[i]));
    }
}

/// Different draws spell different codes: each of the 62^5 sequences of five letters and
/// digits gives its own code.
pub proof fn law_distinct_draws_distinct_codes(d1: Seq<u8>, d2: Seq<u8>)
    requires
        d1.len() == CODE_LEN,
        d2.len() == CODE_LEN,
        forall|i: int| 0 <= i < d1.len() ==> is_alphanumeric_byte(#[trigger] d1[i]),
        forall|i: int| 0 <= i < d2.len() ==> is_alphanumeric_byte(#[trigger] d2[i]),
        d1 != d2,
    ensures
        code_of(d1) != code_of(d2),
{
    if code_of(d1) == code_of(d2) {
        assert forall|i: int| 0 <= i < CODE_LEN implies d1[i] == d2[i] by {
            assert(code_of(d1)[i] == code_of(d2)[i]);
            assert(is_alphanumeric_byte(d1[i]));
            assert(is_alphanumeric_byte(d2[i]));
        }
        assert(d1 =~= d2);
    }
}

/// Every code of five letters and digits is spelled by some draw of the sampler: the draws
/// that give it are its own bytes, so all 62^5 codes can come out of `generate_code`.
pub proof fn law_every_code_can_be_drawn(code: Seq<char>)
    requires
        code.len() == CODE_LEN,
        forall|i: int| 0 <= i < code.len() ==> is_code_char(#[trigger] code[i]),
    ensures
        ({
            let draws = Seq::new(CODE_LEN as nat, |i: int| code[i] as u8);
            &&& forall|i: int| 0 <= i < draws.len() ==> is_alphanumeric_byte(#[trigger] draws[i])
            &&& code_of(draws) == code
        }),
{
    let draws = Seq::new(CODE_LEN as nat, |i: int| code[i] as u8);
    assert forall|i: int| 0 <= i < draws.len() implies is_alphanumeric_byte(#[trigger] draws[i])
        && code_of(draws)[i] == code[i] by {
        assert(is_code_char(code[i]));
    }
    assert(code_of(draws) =~= code);
}

/// Decodes a byte vector to string and trims the trailing 0 bytes
pub fn decode_bytes_to_string(filename_buf: Vec<u8>) -> (res: String)
    requires
        valid_utf8(filename_buf@),
    ensures
        res@ == trim_trailing_nul(decode_utf8(filename_buf@)),
{
    let text: &str = match str_from_utf8(filename_buf.as_slice()) {
        Some(t) => t,
        None => {
            return String::new();
        },
    };
    let ghost s = text@;
    let n: usize = text.unicode_len();
    let mut end: usize = n;
    assert(s.subrange(0, n as int) =~= s);
    while end > 0 && text.get_char(end - 1) == '\0'
        invariant
            end <= n,
            n == s.len(),
            s == text@,
            trim_trailing_nul(s) == trim_trailing_nul(s.subrange(0, end as int)),
        decreases end,
    {
        assert(s.subrange(0, end as int).drop_last() =~= s.subrange(0, end - 1));
        end = end - 1;
    }
    text.substring_char(0, end).to_owned()
}

/// `n` NUL characters.
pub open spec fn nuls(n: nat) -> Seq<char> {
    Seq::new(n, |i: int| '\0')
}

/// The last character of `s`, if any, is not NUL.
pub open spec fn has_no_trailing_nul(s: Seq<char>) -> bool {
    s.len() > 0 ==> s.last() != '\0'
}

/// UTF-8 encoding distributes over concatenation.
pub proof fn lemma_encode_utf8_concat(a: Seq<char>, b: Seq<char>)
    ensures
        encode_utf8(a + b) == encode_utf8(a) + encode_utf8(b),
    decreases a.len(),
{
    if a.len() == 0 {
        assert(a + b =~= b);
        assert(encode_utf8(a) + encode_utf8(b) =~= encode_utf8(b));
    } else {
        assert((a + b).drop_first() =~= a.drop_first() + b);
        lemma_encode_utf8_concat(a.drop_first(), b);
        assert(encode_utf8(a + b) =~= encode_utf8(a) + encode_utf8(b));
    }
}

/// NUL characters encode as zero bytes.
pub proof fn lemma_encode_nuls(n: nat)
    ensures
        encode_utf8(nuls(n)) == zeros(n),
    decreases n,
{
    if n > 0 {
        assert(nuls(n).drop_first() =~= nuls((n - 1) as nat));
        lemma_encode_nuls((n - 1) as nat);
        assert(encode_scalar('\0' as u32) =~= seq![0u8]) by {
            assert(leading_byte_width_1(0u32) == 0u8) by (bit_vector);
        }
        assert(encode_utf8(nuls(n)) =~= zeros(n));
    }
}

/// Trailing NULs appended to a string that does not end in NUL are exactly what
/// `trim_trailing_nul` removes.
pub proof fn lemma_trim_trailing_nuls(s: Seq<char>, n: nat)
    requires
        has_no_trailing_nul(s),
    ensures
        trim_trailing_nul(s + nuls(n)) == s,
    decreases n,
{
    if n > 0 {
        assert((s + nuls(n)).drop_last() =~= s + nuls((n - 1) as nat));
        lemma_trim_trailing_nuls(s, (n - 1) as nat);
    } else {
        assert(s + nuls(n) =~= s);
    }
}

/// A name or code that does not end in NUL, encoded with `encode_string_as_bytes`,
/// padded to `cap` bytes with `pad_until_len` and read back with
/// `decode_bytes_to_string`, is the name that was sent; the padded bytes are valid UTF-8,
/// so the decoding does not fail.
pub proof fn law_padded_name_roundtrip(s: Seq<char>, cap: nat)
    requires
        has_no_trailing_nul(s),
        encode_utf8(s).len() <= cap,
    ensures
        valid_utf8(padded(encode_utf8(s), cap)),
        trim_trailing_nul(decode_utf8(padded(encode_utf8(s), cap))) == s,
{
    let k: nat = (cap - encode_utf8(s).len()) as nat;
    lemma_encode_nuls(k);
    lemma_encode_utf8_concat(s, nuls(k));
    assert(padded(encode_utf8(s), cap) == encode_utf8(s + nuls(k)));
    encode_utf8_valid_utf8(s + nuls(k));
    encode_utf8_decode_utf8(s + nuls(k));
    lemma_trim_trailing_nuls(s, k);
}

/// A generated transfer code does not end in NUL and takes five bytes on the wire.
pub proof fn law_code_is_short_ascii(code: Seq<char>)
    requires
        code.len() == CODE_LEN,
        forall|i: int| 0 <= i < code.len() ==> is_code_char(#[trigger] code[i]),
    ensures
        has_no_trailing_nul(code),
        encode_utf8(code).len() == CODE_LEN,
{
    assert(is_code_char(code[CODE_LEN - 1]));
    assert(is_ascii_chars(code)) by {
        assert forall|i: int| 0 <= i < code.len() implies '\0' <= #[trigger] code[i] <= '\u{7f}' by {
            assert(is_code_char(code[i]));
        }
    }
    is_ascii_chars_encode_utf8(code);
}

/// Encodes a string to a byte vector (its UTF-8 bytes)
pub fn encode_string_as_bytes(filename: String) -> (res: Vec<u8>)
    ensures
        res@ == encode_utf8(filename@),
{
    vstd::slice::slice_to_vec(filename.as_str().as_bytes())
}

} // verus!
