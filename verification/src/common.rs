//! Digest computation: a streaming SHA-256 hasher and the canonical
//! hex-encoded digest string derived from it.

use vstd::prelude::*;

verus! {

/// The longest byte sequence the SHA-256 implementation accepts; a longer
/// input would overflow its 64-bit bit counter.
pub const MAX_HASH_INPUT: u64 = 0x1fff_ffff_ffff_ffff;

/// The SHA-256 digest (32 bytes) of a byte sequence. The function itself is
/// left unspecified; the library relies on `ring` to compute it.
pub uninterp spec fn sha256_of(bytes: Seq<u8>) -> Seq<u8>;

/// The lowercase hex digit for a value below 16.
pub open spec fn hex_digit(n: u8) -> char {
    if n == 0 {
        '0'
    } else if n == 1 {
        '1'
    } else if n == 2 {
        '2'
    } else if n == 3 {
        '3'
    } else if n == 4 {
        '4'
    } else if n == 5 {
        '5'
    } else if n == 6 {
        '6'
    } else if n == 7 {
        '7'
    } else if n == 8 {
        '8'
    } else if n == 9 {
        '9'
    } else if n == 10 {
        'a'
    } else if n == 11 {
        'b'
    } else if n == 12 {
        'c'
    } else if n == 13 {
        'd'
    } else if n == 14 {
        'e'
    } else {
        'f'
    }
}

/// Lowercase hex encoding: each byte becomes two digits, high nibble first.
pub open spec fn hex_of(bytes: Seq<u8>) -> Seq<char>
    decreases bytes.len(),
{
    if bytes.len() == 0 {
        Seq::empty()
    } else {
        hex_of(bytes.drop_last()) + seq![
            hex_digit(bytes.last() / 16),
            hex_digit(bytes.last() % 16),
        ]
    }
}

/// The canonical digest string of a byte sequence: hex-encoded SHA-256.
pub open spec fn sha256_hex(bytes: Seq<u8>) -> Seq<char> {
    hex_of(sha256_of(bytes))
}

#[verifier::external_type_specification]
#[verifier::external_body]
pub struct ExDigestContext(ring::digest::Context);

/// The byte sequence a `ring` digest context has been fed so far.
pub uninterp spec fn context_bytes(c: ring::digest::Context) -> Seq<u8>;

/// Relies on `ring::digest::Context::new` with the SHA-256 algorithm: a
/// fresh context over the empty input.
#[verifier::external_body]
fn context_new() -> (r: ring::digest::Context)
    ensures
        context_bytes(r) == Seq::<u8>::empty(),
{
    ring::digest::Context::new(&ring::digest::SHA256)
}

/// Relies on `ring::digest::Context::update`: appends `data` to the hashed
/// input; it never fails (the length counter saturates, and any overflow is
/// reported when the digest is read).
#[verifier::external_body]
fn context_update(c: &mut ring::digest::Context, data: &[u8])
    ensures
        context_bytes(*final(c)) == context_bytes(*old(c)) + data@,
{
    c.update(data);
}

/// Relies on `ring::digest::Context::finish` (on a clone, so the stream
/// stays usable) and `ring::digest::Digest::as_ref`: the SHA-256 value of
/// all bytes fed so far, 32 bytes long. `finish` panics once the input
/// reaches 2^61 bytes, which the precondition rules out.
#[verifier::external_body]
fn context_digest(c: &ring::digest::Context) -> (r: Vec<u8>)
    requires
        context_bytes(*c).len() <= MAX_HASH_INPUT,
    ensures
        r@ == sha256_of(context_bytes(*c)),
        r@.len() == 32,
{
    c.clone().finish().as_ref().to_vec()
}

/// A streaming SHA-256 computation. Its abstract value is the byte sequence
/// fed so far; the digest of that sequence can be read out at any point.
pub struct DigestComputer {
    inner: ring::digest::Context,
}

impl View for DigestComputer {
    type V = Seq<u8>;

    closed spec fn view(&self) -> Seq<u8> {
        context_bytes(self.inner)
    }
}

impl DigestComputer {
    /// A fresh computation over the empty byte sequence.
    pub fn new() -> (r: Self)
        ensures
            r@ == Seq::<u8>::empty(),
    {
        DigestComputer { inner: context_new() }
    }

    /// Feeds `data` into the computation.
    pub fn update(&mut self, data: &[u8])
        ensures
            final(self)@ == old(self)@ + data@,
    {
        context_update(&mut self.inner, data);
    }

    /// The SHA-256 value (32 bytes) of everything fed so far.
    pub fn digest_bytes(&self) -> (r: Vec<u8>)
        requires
            self@.len() <= MAX_HASH_INPUT,
        ensures
            r@ == sha256_of(self@),
            r@.len() == 32,
    {
        context_digest(&self.inner)
    }

    /// The canonical digest string of the bytes fed so far.
    pub fn digest_hex(&self) -> (r: String)
        requires
            self@.len() <= MAX_HASH_INPUT,
        ensures
            r@ == sha256_hex(self@),
    {
        let bytes = self.digest_bytes();
        bytes_to_hex(&bytes)
    }
}

/// Relies on `hex::encode`: lowercase hex, two digits per byte, high nibble
/// first.
#[verifier::external_body]
fn bytes_to_hex(b: &Vec<u8>) -> (r: String)
    ensures
        r@ == hex_of(b@),
{
    hex::encode(b)
}

/// A calendar timestamp with second precision, as the store's fixed
/// `YYYY-MM-DD HH:MM:SS` text format (UTC) carries it.
#[derive(Clone, Copy, Debug, PartialEq, Eq, Structural)]
pub struct Timestamp {
    pub year: u32,
    pub month: u32,
    pub day: u32,
    pub hour: u32,
    pub minute: u32,
    pub second: u32,
}

pub open spec fn is_leap_year(y: int) -> bool {
    (y % 4 == 0 && y % 100 != 0) || y % 400 == 0
}

/// How many days month `m` of year `y` has.
pub open spec fn days_in_month(y: int, m: int) -> int {
    if m == 4 || m == 6 || m == 9 || m == 11 {
        30
    } else if m == 2 {
        if is_leap_year(y) {
            29
        } else {
            28
        }
    } else {
        31
    }
}

/// The timestamp names a real calendar time.
pub open spec fn timestamp_wf(t: Timestamp) -> bool {
    &&& 1 <= t.month <= 12
    &&& 1 <= t.day && t.day as int <= days_in_month(t.year as int, t.month as int)
    &&& t.hour < 24
    &&& t.minute < 60
    &&& t.second < 60
}

pub open spec fn is_digit(c: char) -> bool {
    48 <= c as int <= 57
}

pub open spec fn digit_val(c: char) -> int {
    c as int - 48
}

pub open spec fn two_digits(s: Seq<char>, i: int) -> int {
    digit_val(s[i]) * 10 + digit_val(s[i + 1])
}

/// The shape of the fixed timestamp text: `YYYY-MM-DD HH:MM:SS`, 19
/// characters, digits and separators in exactly these places.
pub open spec fn timestamp_format(s: Seq<char>) -> bool {
    &&& s.len() == 19
    &&& is_digit(s[0]) && is_digit(s[1]) && is_digit(s[2]) && is_digit(s[3])
    &&& s[4] == '-' && is_digit(s[5]) && is_digit(s[6])
    &&& s[7] == '-' && is_digit(s[8]) && is_digit(s[9])
    &&& s[10] == ' ' && is_digit(s[11]) && is_digit(s[12])
    &&& s[13] == ':' && is_digit(s[14]) && is_digit(s[15])
    &&& s[16] == ':' && is_digit(s[17]) && is_digit(s[18])
}

/// The field values the fixed-format text carries.
pub open spec fn parsed_timestamp(s: Seq<char>) -> Timestamp {
    Timestamp {
        year: (digit_val(s[0]) * 1000 + digit_val(s[1]) * 100 + digit_val(s[2]) * 10 + digit_val(
            s[3],
        )) as u32,
        month: two_digits(s, 5) as u32,
        day: two_digits(s, 8) as u32,
        hour: two_digits(s, 11) as u32,
        minute: two_digits(s, 14) as u32,
        second: two_digits(s, 17) as u32,
    }
}

/// Valid timestamp text: the right shape, naming a real calendar time.
pub open spec fn valid_timestamp_text(s: Seq<char>) -> bool {
    timestamp_format(s) && timestamp_wf(parsed_timestamp(s))
}

fn digit_at(s: &str, i: usize) -> (r: Option<u32>)
    requires
        i < s@.len(),
    ensures
        match r {
            Some(v) => is_digit(s@[i as int]) && v == digit_val(s@[i as int]),
            None => !is_digit(s@[i as int]),
        },
{
    let c = s.get_char(i);
    let u = c as u32;
    if 48 <= u && u <= 57 {
        Some(u - 48)
    } else {
        None
    }
}

fn sep_at(s: &str, i: usize, sep: char) -> (r: bool)
    requires
        i < s@.len(),
    ensures
        r == (s@[i as int] == sep),
{
    s.get_char(i) == sep
}

fn two_digits_at(s: &str, i: usize) -> (r: Option<u32>)
    requires
        i + 1 < s@.len(),
        s@.len() <= usize::MAX,
    ensures
        match r {
            Some(v) => is_digit(s@[i as int]) && is_digit(s@[i + 1]) && v == two_digits(
                s@,
                i as int,
            ),
            None => !(is_digit(s@[i as int]) && is_digit(s@[i + 1])),
        },
{
    match (digit_at(s, i), digit_at(s, i + 1)) {
        (Some(a), Some(b)) => Some(a * 10 + b),
        _ => None,
    }
}

/// How many days month `month` of year `year` has.
pub fn days_in_month_of(year: u32, month: u32) -> (r: u32)
    requires
        1 <= month <= 12,
    ensures
        r as int == days_in_month(year as int, month as int),
{
    if month == 4 || month == 6 || month == 9 || month == 11 {
        30
    } else if month == 2 {
        if (year % 4 == 0 && year % 100 != 0) || year % 400 == 0 {
            29
        } else {
            28
        }
    } else {
        31
    }
}

/// Parses the store's fixed `YYYY-MM-DD HH:MM:SS` timestamp text. Returns
/// the fields exactly when the text has the fixed shape and names a real
/// calendar time, and nothing otherwise: a parse failure is for the caller
/// a hard error, not something to repair.
pub fn parse_timestamp(s: &str) -> (r: Option<Timestamp>)
    ensures
        match r {
            Some(t) => valid_timestamp_text(s@) && t == parsed_timestamp(s@) && timestamp_wf(t),
            None => !valid_timestamp_text(s@),
        },
{
    let n = s.unicode_len();
    if n != 19 {
        return None;
    }
    let y0 = match digit_at(s, 0) {
        Some(v) => v,
        None => {
            return None;
        },
    };
    let y1 = match digit_at(s, 1) {
        Some(v) => v,
        None => {
            return None;
        },
    };
    let y2 = match digit_at(s, 2) {
        Some(v) => v,
        None => {
            return None;
        },
    };
    let y3 = match digit_at(s, 3) {
        Some(v) => v,
        None => {
            return None;
        },
    };
    if !sep_at(s, 4, '-') {
        return None;
    }
    let month = match two_digits_at(s, 5) {
        Some(v) => v,
        None => {
            return None;
        },
    };
    if !sep_at(s, 7, '-') {
        return None;
    }
    let day = match two_digits_at(s, 8) {
        Some(v) => v,
        None => {
            return None;
        },
    };
    if !sep_at(s, 10, ' ') {
        return None;
    }
    let hour = match two_digits_at(s, 11) {
        Some(v) => v,
        None => {
            return None;
        },
    };
    if !sep_at(s, 13, ':') {
        return None;
    }
    let minute = match two_digits_at(s, 14) {
        Some(v) => v,
        None => {
            return None;
        },
    };
    if !sep_at(s, 16, ':') {
        return None;
    }
    let second = match two_digits_at(s, 17) {
        Some(v) => v,
        None => {
            return None;
        },
    };
    let year = y0 * 1000 + y1 * 100 + y2 * 10 + y3;
    if month < 1 || month > 12 {
        return None;
    }
    if day < 1 || day > days_in_month_of(year, month) {
        return None;
    }
    if hour > 23 || minute > 59 || second > 59 {
        return None;
    }
    Some(Timestamp { year, month, day, hour, minute, second })
}

/// The canonical digest string of `data`: its SHA-256 value, hex-encoded.
pub fn compute_sha256(data: &[u8]) -> (r: String)
    requires
        data@.len() <= MAX_HASH_INPUT,
    ensures
        r@ == sha256_hex(data@),
{
    let mut computer = DigestComputer::new();
    computer.update(data);
    proof {
        assert(computer@ =~= data@);
    }
    computer.digest_hex()
}

} // verus!
