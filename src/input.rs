//! The line format of known pairs: comma-separated fields, each a
//! hexadecimal number after a two-character prefix.
use vstd::prelude::*;

verus! {

/// The byte of `,`, which separates fields.
pub const COMMA: u8 = 44;

/// The byte of `+`, which may stand before the digits of a number.
pub const PLUS: u8 = 43;

/// Why a line does not give a plaintext/ciphertext pair.
#[derive(Debug, Clone, Copy, PartialEq, Eq)]
pub enum LineError {
    /// The line has no second field.
    MissingField,
    /// A field is shorter than its two-character prefix.
    ShortField,
    /// The first field is no hexadecimal number that fits in 64 bits.
    BadPlaintext,
    /// The second field is no hexadecimal number that fits in 64 bits.
    BadCiphertext,
}

/// The value of a hexadecimal digit (`0-9`, `a-f`, `A-F`), if `b` is one.
pub open spec fn hex_digit_spec(b: u8) -> Option<u64> {
    if 48 <= b <= 57 {
        Some((b - 48) as u64)
    } else if 97 <= b <= 102 {
        Some((b - 87) as u64)
    } else if 65 <= b <= 70 {
        Some((b - 55) as u64)
    } else {
        None
    }
}

pub open spec fn all_hex(s: Seq<u8>) -> bool {
    forall|i: int| 0 <= i < s.len() ==> #[trigger] hex_digit_spec(s[i]) is Some
}

/// The number that the hexadecimal digits `s` write, most significant first.
pub open spec fn hex_value(s: Seq<u8>) -> nat
    decreases s.len(),
{
    if s.len() == 0 {
        0
    } else {
        (hex_value(s.drop_last()) * 16 + hex_digit_spec(s.last())->0) as nat
    }
}

/// The digits of a number: all but a leading `+`.
pub open spec fn unsigned_digits(s: Seq<u8>) -> Seq<u8> {
    if s.len() > 0 && s[0] == PLUS {
        s.drop_first()
    } else {
        s
    }
}

/// A hexadecimal number with an optional leading `+` and at least one
/// digit, whose value fits in 64 bits.
pub open spec fn parse_hex_spec(s: Seq<u8>) -> Option<u64> {
    let d = unsigned_digits(s);
    if d.len() > 0 && all_hex(d) && hex_value(d) <= u64::MAX {
        Some(hex_value(d) as u64)
    } else {
        None
    }
}

/// The position of the first comma at or after `from`, or the length.
pub open spec fn comma_at_or_after(s: Seq<u8>, from: nat) -> nat
    decreases s.len() - from,
{
    if from >= s.len() {
        s.len()
    } else if s[from as int] == COMMA {
        from
    } else {
        comma_at_or_after(s, from + 1)
    }
}

/// A line's pair: the first two comma-separated fields, each with its
/// two-character prefix dropped and read as a hexadecimal number.
pub open spec fn parse_line_spec(line: Seq<u8>) -> Result<(u64, u64), LineError> {
    let e0 = comma_at_or_after(line, 0);
    let e1 = comma_at_or_after(line, e0 + 1);
    if e0 < 2 {
        Err(LineError::ShortField)
    } else if e0 == line.len() {
        Err(LineError::MissingField)
    } else if e1 < e0 + 3 {
        Err(LineError::ShortField)
    } else {
        match parse_hex_spec(line.subrange(2, e0 as int)) {
            None => Err(LineError::BadPlaintext),
            Some(p) => match parse_hex_spec(line.subrange((e0 + 3) as int, e1 as int)) {
                None => Err(LineError::BadCiphertext),
                Some(c) => Ok((p, c)),
            },
        }
    }
}

/// The value of a hexadecimal digit, if `b` is one.
pub fn hex_digit(b: u8) -> (r: Option<u64>)
    ensures
        r == hex_digit_spec(b),
{
    if 48 <= b && b <= 57 {
        Some((b - 48) as u64)
    } else if 97 <= b && b <= 102 {
        Some((b - 87) as u64)
    } else if 65 <= b && b <= 70 {
        Some((b - 55) as u64)
    } else {
        None
    }
}

proof fn lemma_hex_value_grows(s: Seq<u8>, j: nat, k: nat)
    requires
        j <= k <= s.len(),
        all_hex(s),
    ensures
        hex_value(s.subrange(0, j as int)) <= hex_value(s.subrange(0, k as int)),
    decreases k - j,
{
    if j < k {
        lemma_hex_value_grows(s, j, (k - 1) as nat);
        assert(s.subrange(0, k as int).drop_last() =~= s.subrange(0, k - 1));
    }
}

/// Reads `s[start..end]` as a hexadecimal number with an optional leading
/// `+`.
pub fn parse_hex_range(s: &[u8], start: usize, end: usize) -> (r: Option<u64>)
    requires
        start <= end <= s@.len(),
    ensures
        r == parse_hex_spec(s@.subrange(start as int, end as int)),
{
    let ghost whole = s@.subrange(start as int, end as int);
    let mut first: usize = start;
    if first < end && s[first] == PLUS {
        first = first + 1;
    }
    let ghost d = s@.subrange(first as int, end as int);
    assert(d =~= unsigned_digits(whole));
    if first == end {
        return None;
    }
    let mut acc: u64 = 0;
    let mut i: usize = first;
    while i < end
        invariant
            start <= first <= i <= end <= s@.len(),
            d == s@.subrange(first as int, end as int),
            whole == s@.subrange(start as int, end as int),
            d == unsigned_digits(whole),
            d.len() > 0,
            all_hex(d.subrange(0, i - first)),
            acc == hex_value(d.subrange(0, i - first)),
        decreases end - i,
    {
        let ghost prefix = d.subrange(0, i + 1 - first);
        assert(prefix.drop_last() =~= d.subrange(0, i - first));
        assert(prefix.last() == s@[i as int]);
        let digit = match hex_digit(s[i]) {
            Some(v) => v,
            None => {
                assert(!all_hex(d)) by {
                    assert(hex_digit_spec(d[i - first]) is None);
                }
                return None;
            },
        };
        assert(digit < 16);
        if acc > (u64::MAX - digit) / 16 {
            proof {
                assert(hex_value(prefix) > u64::MAX) by (nonlinear_arith)
                    requires
                        acc > (u64::MAX - digit) / 16,
                        hex_value(prefix) == acc * 16 + digit,
                        digit < 16,
                ;
                if all_hex(d) {
                    lemma_hex_value_grows(d, (i + 1 - first) as nat, d.len());
                    assert(d.subrange(0, d.len() as int) =~= d);
                }
            }
            return None;
        }
        assert(acc * 16 + digit <= u64::MAX) by (nonlinear_arith)
            requires
                acc <= (u64::MAX - digit) / 16,
                digit < 16,
        ;
        acc = acc * 16 + digit;
        i = i + 1;
        assert(all_hex(prefix)) by {
            assert forall|k: int| 0 <= k < prefix.len() implies #[trigger] hex_digit_spec(prefix[k]) is Some by {
                if k < prefix.len() - 1 {
                    assert(prefix[k] == d.subrange(0, i - 1 - first)[k]);
                }
            }
        }
    }
    assert(d.subrange(0, end - first) =~= d);
    Some(acc)
}

/// Reads the whole of `s` as a hexadecimal number with an optional
/// leading `+`.
pub fn parse_hex(s: &[u8]) -> (r: Option<u64>)
    ensures
        r == parse_hex_spec(s@),
{
    let r = parse_hex_range(s, 0, s.len());
    assert(s@.subrange(0, s@.len() as int) =~= s@);
    r
}

/// The position of the first comma at or after `from`, or the length.
fn find_comma(s: &[u8], from: usize) -> (r: usize)
    requires
        from <= s@.len(),
    ensures
        r == comma_at_or_after(s@, from as nat),
        from <= r <= s@.len(),
{
    let mut i: usize = from;
    while i < s.len() && s[i] != COMMA
        invariant
            from <= i <= s@.len(),
            comma_at_or_after(s@, from as nat) == comma_at_or_after(s@, i as nat),
        decreases s@.len() - i,
    {
        i = i + 1;
    }
    i
}

/// Reads one line of known pairs: the first field, after its
/// two-character prefix, is the plaintext and the second the ciphertext,
/// both hexadecimal; further fields are ignored.
pub fn parse_line(line: &[u8]) -> (r: Result<(u64, u64), LineError>)
    ensures
        r == parse_line_spec(line@),
{
    let e0 = find_comma(line, 0);
    if e0 < 2 {
        return Err(LineError::ShortField);
    }
    if e0 == line.len() {
        return Err(LineError::MissingField);
    }
    let e1 = find_comma(line, e0 + 1);
    if e1 - e0 < 3 {
        return Err(LineError::ShortField);
    }
    match parse_hex_range(line, 2, e0) {
        None => Err(LineError::BadPlaintext),
        Some(p) => match parse_hex_range(line, e0 + 3, e1) {
            None => Err(LineError::BadCiphertext),
            Some(c) => Ok((p, c)),
        },
    }
}

} // verus!
