use vstd::prelude::*;

verus! {

/// Malformed input encoding.
#[derive(Debug, Clone, Copy, PartialEq, Eq, Structural)]
pub enum FormatError {
    /// A hex string of odd length.
    OddLength,
    /// A character outside the hex or base64 alphabet.
    InvalidCharacter,
}

/// Value of an ASCII hex digit (either case), if it is one.
pub open spec fn hex_value(c: u8) -> Option<u8> {
    if 48 <= c <= 57 {
        Some((c - 48) as u8)
    } else if 97 <= c <= 102 {
        Some((c - 87) as u8)
    } else if 65 <= c <= 70 {
        Some((c - 55) as u8)
    } else {
        None
    }
}

/// Lowercase hex digit for a value below 16.
pub open spec fn hex_digit(v: u8) -> u8 {
    if v < 10 {
        (v + 48) as u8
    } else {
        (v + 87) as u8
    }
}

/// Whether every character of `s` is a hex digit.
pub open spec fn is_hex(s: Seq<u8>) -> bool {
    forall|i: int| 0 <= i < s.len() ==> (#[trigger] hex_value(s[i])).is_some()
}

/// The bytes that a valid hex string of even length spells.
pub open spec fn hex_decoded(s: Seq<u8>) -> Seq<u8> {
    Seq::new(
        s.len() / 2,
        |i: int| (16 * hex_value(s[2 * i]).unwrap() + hex_value(s[2 * i + 1]).unwrap()) as u8,
    )
}

/// Two lowercase hex digits per byte, high nibble first.
pub open spec fn hex_encoded(b: Seq<u8>) -> Seq<u8> {
    Seq::new(
        2 * b.len(),
        |i: int|
            if i % 2 == 0 {
                hex_digit(b[i / 2] / 16)
            } else {
                hex_digit(b[i / 2] % 16)
            },
    )
}

/// Whether `s` is hex of even length.
pub open spec fn is_hex_text(s: Seq<u8>) -> bool {
    s.len() % 2 == 0 && is_hex(s)
}

/// The error that decoding `s` as hex gives when it is not hex of even length.
pub open spec fn hex_error(s: Seq<u8>) -> FormatError {
    if s.len() % 2 == 1 {
        FormatError::OddLength
    } else {
        FormatError::InvalidCharacter
    }
}

fn hex_digit_value(c: u8) -> (r: Option<u8>)
    ensures
        r == hex_value(c),
{
    if 48 <= c && c <= 57 {
        Some(c - 48)
    } else if 97 <= c && c <= 102 {
        Some(c - 87)
    } else if 65 <= c && c <= 70 {
        Some(c - 55)
    } else {
        None
    }
}

fn nibble_digit(v: u8) -> (r: u8)
    requires
        v < 16,
    ensures
        r == hex_digit(v),
{
    if v < 10 {
        v + 48
    } else {
        v + 87
    }
}

/// Decodes a hex string into bytes.
pub fn hex_decode(s: &[u8]) -> (r: Result<Vec<u8>, FormatError>)
    ensures
        s@.len() % 2 == 1 ==> r == Err::<Vec<u8>, FormatError>(FormatError::OddLength),
        s@.len() % 2 == 0 && !is_hex(s@) ==> r == Err::<Vec<u8>, FormatError>(
            FormatError::InvalidCharacter,
        ),
        s@.len() % 2 == 0 && is_hex(s@) ==> r is Ok && r->Ok_0@ == hex_decoded(s@),
{
    if s.len() % 2 == 1 {
        return Err(FormatError::OddLength);
    }
    let mut out: Vec<u8> = Vec::new();
    let len: usize = s.len();
    let n: usize = len / 2;
    let mut i: usize = 0;
    while i < n
        invariant
            n == s@.len() / 2,
            len == s@.len(),
            s@.len() % 2 == 0,
            i <= n,
            forall|j: int| 0 <= j < 2 * i ==> (#[trigger] hex_value(s@[j])).is_some(),
            out@ =~= hex_decoded(s@).take(i as int),
        decreases n - i,
    {
        assert(2 * i + 1 < s@.len());
        let hi = hex_digit_value(s[2 * i]);
        let lo = hex_digit_value(s[2 * i + 1]);
        match (hi, lo) {
            (Some(h), Some(l)) => {
                out.push(16 * h + l);
                assert(out@ =~= hex_decoded(s@).take(i + 1));
            },
            _ => {
                assert(!is_hex(s@));
                return Err(FormatError::InvalidCharacter);
            },
        }
        i = i + 1;
    }
    assert(out@ =~= hex_decoded(s@));
    Ok(out)
}

/// Encodes bytes as lowercase hex.
pub fn hex_encode(b: &[u8]) -> (r: Vec<u8>)
    requires
        2 * b@.len() <= usize::MAX,
    ensures
        r@ == hex_encoded(b@),
{
    let mut out: Vec<u8> = Vec::new();
    let mut i: usize = 0;
    while i < b.len()
        invariant
            i <= b@.len(),
            2 * b@.len() <= usize::MAX,
            out@ =~= hex_encoded(b@).take(2 * i),
        decreases b@.len() - i,
    {
        out.push(nibble_digit(b[i] / 16));
        out.push(nibble_digit(b[i] % 16));
        assert(out@ =~= hex_encoded(b@).take(2 * i + 2));
        i = i + 1;
    }
    assert(out@ =~= hex_encoded(b@));
    out
}

/// Value of a base64 alphabet character, if it is one.
pub open spec fn base64_value(c: u8) -> Option<u8> {
    if 65 <= c <= 90 {
        Some((c - 65) as u8)
    } else if 97 <= c <= 122 {
        Some((c - 71) as u8)
    } else if 48 <= c <= 57 {
        Some((c + 4) as u8)
    } else if c == 43 {
        Some(62)
    } else if c == 47 {
        Some(63)
    } else {
        None
    }
}

/// Base64 alphabet character for a value below 64.
pub open spec fn base64_char(v: u8) -> u8 {
    if v < 26 {
        (v + 65) as u8
    } else if v < 52 {
        (v + 71) as u8
    } else if v < 62 {
        (v - 4) as u8
    } else if v == 62 {
        43
    } else {
        47
    }
}

/// `s` without its trailing `=` characters.
pub open spec fn trim_padding(s: Seq<u8>) -> Seq<u8>
    decreases s.len(),
{
    if s.len() > 0 && s.last() == 61 {
        trim_padding(s.drop_last())
    } else {
        s
    }
}

/// Whether every character of `t` is in the base64 alphabet.
pub open spec fn is_base64(t: Seq<u8>) -> bool {
    forall|i: int| 0 <= i < t.len() ==> (#[trigger] base64_value(t[i])).is_some()
}

/// The 6-bit values of base64 characters.
pub open spec fn sextets(t: Seq<u8>) -> Seq<u8> {
    Seq::new(t.len(), |i: int| base64_value(t[i]).unwrap())
}

/// Element `i` of `v`, or 0 past its end.
pub open spec fn at_or_zero(v: Seq<u8>, i: int) -> nat {
    if 0 <= i < v.len() {
        v[i] as nat
    } else {
        0
    }
}

/// The 24 bits that four 6-bit values starting at `4 * g` spell.
pub open spec fn quad_value(v: Seq<u8>, g: int) -> nat {
    at_or_zero(v, 4 * g) * 262144 + at_or_zero(v, 4 * g + 1) * 4096 + at_or_zero(v, 4 * g + 2)
        * 64 + at_or_zero(v, 4 * g + 3)
}

/// The 24 bits that three bytes starting at `3 * g` spell.
pub open spec fn triple_value(b: Seq<u8>, g: int) -> nat {
    at_or_zero(b, 3 * g) * 65536 + at_or_zero(b, 3 * g + 1) * 256 + at_or_zero(b, 3 * g + 2)
}

/// Place value of byte `j` (0 to 2) within a 24-bit group.
pub open spec fn byte_shift(j: int) -> nat {
    if j == 0 {
        65536
    } else if j == 1 {
        256
    } else {
        1
    }
}

/// Place value of 6-bit value `j` (0 to 3) within a 24-bit group.
pub open spec fn sextet_shift(j: int) -> nat {
    if j == 0 {
        262144
    } else if j == 1 {
        4096
    } else if j == 2 {
        64
    } else {
        1
    }
}

/// The bytes that base64 text spells once trailing `=` are removed: the bit
/// stream of its 6-bit values cut into whole bytes, a final partial byte
/// dropped.
pub open spec fn base64_decoded(s: Seq<u8>) -> Seq<u8> {
    let v = sextets(trim_padding(s));
    Seq::new(
        v.len() * 6 / 8,
        |k: int| ((quad_value(v, k / 3) / byte_shift(k % 3)) % 256) as u8,
    )
}

/// Standard base64 with `=` padding to a multiple of four characters.
pub open spec fn base64_encoded(b: Seq<u8>) -> Seq<u8> {
    Seq::new(
        4 * ((b.len() + 2) / 3),
        |i: int|
            if i < (8 * b.len() + 5) / 6 {
                base64_char(((triple_value(b, i / 4) / sextet_shift(i % 4)) % 64) as u8)
            } else {
                61
            },
    )
}

fn base64_digit_value(c: u8) -> (r: Option<u8>)
    ensures
        r == base64_value(c),
{
    if 65 <= c && c <= 90 {
        Some(c - 65)
    } else if 97 <= c && c <= 122 {
        Some(c - 71)
    } else if 48 <= c && c <= 57 {
        Some(c + 4)
    } else if c == 43 {
        Some(62)
    } else if c == 47 {
        Some(63)
    } else {
        None
    }
}

fn base64_digit(v: u8) -> (r: u8)
    requires
        v < 64,
    ensures
        r == base64_char(v),
{
    if v < 26 {
        v + 65
    } else if v < 52 {
        v + 71
    } else if v < 62 {
        v - 4
    } else if v == 62 {
        43
    } else {
        47
    }
}

fn value_or_zero(v: &[u8], i: u128) -> (r: u32)
    ensures
        r == at_or_zero(v@, i as int),
        r < 256,
{
    if i < v.len() as u128 {
        v[i as usize] as u32
    } else {
        0
    }
}

/// Decodes base64 text; trailing `=` are removed first, and trailing bits
/// that do not fill a byte are dropped.
pub fn decrypt_base64(s: &[u8]) -> (r: Result<Vec<u8>, FormatError>)
    ensures
        r is Ok <==> is_base64(trim_padding(s@)),
        r is Ok ==> r->Ok_0@ == base64_decoded(s@),
        r is Err ==> r == Err::<Vec<u8>, FormatError>(FormatError::InvalidCharacter),
{
    let mut end: usize = s.len();
    assert(s@.take(end as int) =~= s@);
    while end > 0 && s[end - 1] == 61
        invariant
            end <= s@.len(),
            trim_padding(s@) == trim_padding(s@.take(end as int)),
        decreases end,
    {
        assert(s@.take(end as int).drop_last() =~= s@.take(end - 1));
        end = end - 1;
    }
    let ghost t = s@.take(end as int);
    assert(trim_padding(t) == t);
    let mut vals: Vec<u8> = Vec::new();
    let mut i: usize = 0;
    while i < end
        invariant
            i <= end <= s@.len(),
            t == s@.take(end as int),
            trim_padding(s@) == t,
            forall|j: int| 0 <= j < i ==> (#[trigger] base64_value(t[j])).is_some(),
            vals@ =~= sextets(t).take(i as int),
        decreases end - i,
    {
        match base64_digit_value(s[i]) {
            Some(v) => {
                assert(t[i as int] == s@[i as int]);
                vals.push(v);
                assert(vals@ =~= sextets(t).take(i + 1));
            },
            None => {
                assert(t[i as int] == s@[i as int]);
                assert(base64_value(t[i as int]) is None);
                assert(!is_base64(t));
                return Err(FormatError::InvalidCharacter);
            },
        }
        i = i + 1;
    }
    assert(vals@ =~= sextets(t));
    let ghost v = vals@;
    let total: usize = (end as u128 * 6 / 8) as usize;
    let mut out: Vec<u8> = Vec::new();
    let mut k: usize = 0;
    while k < total
        invariant
            k <= total,
            total == v.len() * 6 / 8,
            v == vals@,
            out@ =~= base64_decoded(s@).take(k as int),
            base64_decoded(s@) == Seq::new(
                v.len() * 6 / 8,
                |k: int| ((quad_value(v, k / 3) / byte_shift(k % 3)) % 256) as u8,
            ),
        decreases total - k,
    {
        let g: u128 = k as u128 / 3;
        let vs = vals.as_slice();
        let w: u32 = value_or_zero(vs, 4 * g) * 262144 + value_or_zero(vs, 4 * g + 1) * 4096
            + value_or_zero(vs, 4 * g + 2) * 64 + value_or_zero(vs, 4 * g + 3);
        let j: usize = k % 3;
        let shift: u32 = if j == 0 { 65536 } else if j == 1 { 256 } else { 1 };
        let byte = ((w / shift) % 256) as u8;
        out.push(byte);
        assert(out@ =~= base64_decoded(s@).take(k + 1));
        k = k + 1;
    }
    assert(out@ =~= base64_decoded(s@));
    Ok(out)
}

/// Encodes bytes as standard base64 with `=` padding.
pub fn base64_encode(b: &[u8]) -> (r: Vec<u8>)
    requires
        4 * ((b@.len() + 2) / 3) <= usize::MAX,
    ensures
        r@ == base64_encoded(b@),
{
    let n: usize = b.len();
    let total: usize = (4 * ((n as u128 + 2) / 3)) as usize;
    let chars: usize = ((8 * n as u128 + 5) / 6) as usize;
    let mut out: Vec<u8> = Vec::new();
    let mut i: usize = 0;
    while i < total
        invariant
            i <= total,
            n == b@.len(),
            total == 4 * ((n + 2) / 3),
            chars == (8 * n + 5) / 6,
            out@ =~= base64_encoded(b@).take(i as int),
        decreases total - i,
    {
        if i < chars {
            let g: u128 = i as u128 / 4;
            let w: u32 = value_or_zero(b, 3 * g) * 65536 + value_or_zero(b, 3 * g + 1)
                * 256 + value_or_zero(b, 3 * g + 2);
            let j: usize = i % 4;
            let shift: u32 = if j == 0 {
                262144
            } else if j == 1 {
                4096
            } else if j == 2 {
                64
            } else {
                1
            };
            out.push(base64_digit(((w / shift) % 64) as u8));
        } else {
            out.push(61);
        }
        assert(out@ =~= base64_encoded(b@).take(i + 1));
        i = i + 1;
    }
    assert(out@ =~= base64_encoded(b@));
    out
}

/// Converts a hex string to standard base64.
pub fn hex2base64(hex: &[u8]) -> (r: Result<Vec<u8>, FormatError>)
    ensures
        (hex@.len() % 2 == 0 && is_hex(hex@)) <==> r is Ok,
        r is Ok ==> r->Ok_0@ == base64_encoded(hex_decoded(hex@)),
{
    let hex_len: usize = hex.len();
    let bytes = hex_decode(hex)?;
    assert(bytes@.len() == hex_len / 2);
    Ok(base64_encode(bytes.as_slice()))
}

/// The decoded bytes of the first `n` lines, one after another.
pub open spec fn lines_decoded(lines: Seq<Seq<u8>>, n: nat) -> Seq<u8>
    decreases n,
{
    if n == 0 {
        Seq::empty()
    } else {
        lines_decoded(lines, (n - 1) as nat) + base64_decoded(lines[n - 1])
    }
}

/// Decodes each base64 line and joins the bytes in line order; fails if any
/// line holds a character outside the alphabet.
pub fn decode_base64_lines(lines: &Vec<Vec<u8>>) -> (r: Result<Vec<u8>, FormatError>)
    ensures
        r is Ok <==> forall|j: int|
            0 <= j < lines@.len() ==> is_base64(trim_padding(#[trigger] lines@[j]@)),
        r is Ok ==> r->Ok_0@ == lines_decoded(
            lines@.map_values(|l: Vec<u8>| l@),
            lines@.len() as nat,
        ),
        r is Err ==> r == Err::<Vec<u8>, FormatError>(FormatError::InvalidCharacter),
{
    let ghost views = lines@.map_values(|l: Vec<u8>| l@);
    let mut out: Vec<u8> = Vec::new();
    let mut i: usize = 0;
    while i < lines.len()
        invariant
            i <= lines@.len(),
            views == lines@.map_values(|l: Vec<u8>| l@),
            forall|j: int| 0 <= j < i ==> is_base64(trim_padding(#[trigger] lines@[j]@)),
            out@ == lines_decoded(views, i as nat),
        decreases lines@.len() - i,
    {
        let mut part = decrypt_base64(lines[i].as_slice())?;
        assert(views[i as int] == lines@[i as int]@);
        out.append(&mut part);
        i = i + 1;
    }
    Ok(out)
}

} // verus!
