//! The textual codec: decoding hexadecimal text into bytes and encoding
//! bytes into canonical hyphen-separated uppercase text.
//!
//! Lengths and positions are counted in characters throughout.

use vstd::prelude::*;
use vstd::string::StrSliceExecFns;

verus! {

/// The ways in which decoding a string into an identifier can fail.
#[derive(Debug, PartialEq, Eq)]
pub enum StringToEuiError {
    /// The input length fits neither accepted shape; carries the length
    /// actually observed (separator-adjusted when found mid-scan).
    InvalidLength { length: usize },
    /// A character is neither a hexadecimal digit nor an accepted separator;
    /// carries the offending character.
    InvalidChar { char: char },
    /// A separator stands at the start, at the end, or not after a completed
    /// byte.
    InvalidSeparatorPlace,
    /// Both `:` and `-` appear in the same input.
    OnlyOneSeparatorTypeExpected,
}

/// A hexadecimal digit: `0-9`, `a-f` or `A-F`.
pub open spec fn is_hex_digit(c: char) -> bool {
    ||| (48 <= c as u32 && c as u32 <= 57)  // '0' ..= '9'
    ||| (97 <= c as u32 && c as u32 <= 102)  // 'a' ..= 'f'
    ||| (65 <= c as u32 && c as u32 <= 70)  // 'A' ..= 'F'
}

/// The value of a hexadecimal digit (0 for any other character).
pub open spec fn hex_val(c: char) -> u8 {
    if 48 <= c as u32 && c as u32 <= 57 {
        (c as u32 - 48) as u8
    } else if 97 <= c as u32 && c as u32 <= 102 {
        (c as u32 - 87) as u8
    } else if 65 <= c as u32 && c as u32 <= 70 {
        (c as u32 - 55) as u8
    } else {
        0u8
    }
}

/// An accepted byte separator.
pub open spec fn is_separator(c: char) -> bool {
    c == ':' || c == '-'
}

/// A separator may only stand directly after a completed byte: at character
/// index 2, 5, 8, and so on.
pub open spec fn sep_place_ok(i: int) -> bool {
    i != 0 && (i + 1) % 3 == 0
}

/// How many separator characters stand before index `i`.
pub open spec fn seps_before(s: Seq<char>, i: int) -> int
    decreases i,
{
    if i <= 0 {
        0
    } else {
        seps_before(s, i - 1) + if is_separator(s[i - 1]) {
            1int
        } else {
            0int
        }
    }
}

/// The character at index `i` passes the scan against an output width of
/// `n` bytes: either a well-placed separator that agrees with every earlier
/// separator, or a hexadecimal digit whose target byte index is in range.
pub open spec fn char_ok(s: Seq<char>, i: int, n: int) -> bool {
    if is_separator(s[i]) {
        &&& sep_place_ok(i)
        &&& forall|j: int| 0 <= j < i && #[trigger] is_separator(s[j]) ==> s[j] == s[i]
    } else {
        &&& is_hex_digit(s[i])
        &&& (i - seps_before(s, i)) / 2 < n
    }
}

/// Every character before index `i` passes the scan.
pub open spec fn prefix_ok(s: Seq<char>, i: int, n: int) -> bool {
    forall|j: int| 0 <= j < i ==> #[trigger] char_ok(s, j, n)
}

/// The whole string passes the scan against an output width of `n` bytes.
pub open spec fn scan_ok(s: Seq<char>, n: int) -> bool {
    prefix_ok(s, s.len() as int, n)
}

/// The scan reaches index `i` and stops there on a character that is
/// neither a digit nor a separator.
pub open spec fn fails_invalid_char_at(s: Seq<char>, i: int, n: int) -> bool {
    &&& prefix_ok(s, i, n)
    &&& 0 <= i < s.len()
    &&& !is_hex_digit(s[i])
    &&& !is_separator(s[i])
}

/// The scan reaches index `i` and stops there on a digit whose target byte
/// index lies beyond the output width.
pub open spec fn fails_length_at(s: Seq<char>, i: int, n: int) -> bool {
    &&& prefix_ok(s, i, n)
    &&& 0 <= i < s.len()
    &&& !is_separator(s[i])
    &&& is_hex_digit(s[i])
    &&& (i - seps_before(s, i)) / 2 >= n
}

/// The scan reaches index `i` and stops there on a misplaced separator.
pub open spec fn fails_separator_place_at(s: Seq<char>, i: int, n: int) -> bool {
    &&& prefix_ok(s, i, n)
    &&& 0 <= i < s.len()
    &&& is_separator(s[i])
    &&& !sep_place_ok(i)
}

/// The scan reaches index `i` and stops there on a well-placed separator
/// that differs from an earlier one.
pub open spec fn fails_separator_type_at(s: Seq<char>, i: int, n: int) -> bool {
    &&& prefix_ok(s, i, n)
    &&& 0 <= i < s.len()
    &&& is_separator(s[i])
    &&& sep_place_ok(i)
    &&& exists|j: int| 0 <= j < i && #[trigger] is_separator(s[j]) && s[j] != s[i]
}

/// The subsequence of non-separator characters, in order.
pub open spec fn digit_chars(s: Seq<char>) -> Seq<char>
    decreases s.len(),
{
    if s.len() == 0 {
        Seq::empty()
    } else if is_separator(s.last()) {
        digit_chars(s.drop_last())
    } else {
        digit_chars(s.drop_last()).push(s.last())
    }
}

/// Byte `k` of the decoded output: digit `2k` gives the high nibble and
/// digit `2k + 1` the low nibble; nibbles beyond the last digit are zero.
pub open spec fn decoded_byte(ds: Seq<char>, k: int) -> u8 {
    if 2 * k + 1 < ds.len() {
        (hex_val(ds[2 * k]) * 16 + hex_val(ds[2 * k + 1])) as u8
    } else if 2 * k < ds.len() {
        (hex_val(ds[2 * k]) * 16) as u8
    } else {
        0u8
    }
}

/// The `n` bytes decoded from the digits of `s`.
pub open spec fn decoded_bytes(s: Seq<char>, n: int) -> Seq<u8> {
    Seq::new(n as nat, |k: int| decoded_byte(digit_chars(s), k))
}

/// What the decoder returns on input `s` against an output width of `n`
/// bytes: the decoded bytes when the whole string passes the scan, and
/// otherwise the error of the first offending character.
pub open spec fn decode_result_matches(
    s: Seq<char>,
    n: int,
    r: Result<Seq<u8>, StringToEuiError>,
) -> bool {
    &&& (r is Ok <==> scan_ok(s, n))
    &&& (r matches Ok(bytes) ==> bytes == decoded_bytes(s, n))
    &&& (forall|i: int| #[trigger] fails_invalid_char_at(s, i, n)
        ==> r == Result::<Seq<u8>, StringToEuiError>::Err(
            StringToEuiError::InvalidChar { char: s[i] },
        ))
    &&& (forall|i: int| #[trigger] fails_length_at(s, i, n)
        ==> r == Result::<Seq<u8>, StringToEuiError>::Err(
            StringToEuiError::InvalidLength { length: (s.len() - seps_before(s, i)) as usize },
        ))
    &&& (forall|i: int| #[trigger] fails_separator_place_at(s, i, n)
        ==> r == Result::<Seq<u8>, StringToEuiError>::Err(
            StringToEuiError::InvalidSeparatorPlace,
        ))
    &&& (forall|i: int| #[trigger] fails_separator_type_at(s, i, n)
        ==> r == Result::<Seq<u8>, StringToEuiError>::Err(
            StringToEuiError::OnlyOneSeparatorTypeExpected,
        ))
}

/// At most one index can hold the first offending character.
proof fn lemma_violation_unique(s: Seq<char>, n: int, i1: int, i2: int)
    requires
        prefix_ok(s, i1, n),
        0 <= i1 < s.len(),
        !char_ok(s, i1, n),
        prefix_ok(s, i2, n),
        0 <= i2 < s.len(),
        !char_ok(s, i2, n),
    ensures
        i1 == i2,
{
    if i1 < i2 {
        assert(char_ok(s, i1, n));
    }
    if i2 < i1 {
        assert(char_ok(s, i2, n));
    }
}

/// An error return from the scan, made at the first offending index `i`,
/// meets the whole decoding contract.
proof fn lemma_error_result(s: Seq<char>, n: int, i: int, r: Result<Seq<u8>, StringToEuiError>)
    requires
        prefix_ok(s, i, n),
        0 <= i < s.len(),
        !char_ok(s, i, n),
        r is Err,
        fails_invalid_char_at(s, i, n) ==> r == Result::<Seq<u8>, StringToEuiError>::Err(
            StringToEuiError::InvalidChar { char: s[i] },
        ),
        fails_length_at(s, i, n) ==> r == Result::<Seq<u8>, StringToEuiError>::Err(
            StringToEuiError::InvalidLength { length: (s.len() - seps_before(s, i)) as usize },
        ),
        fails_separator_place_at(s, i, n) ==> r == Result::<Seq<u8>, StringToEuiError>::Err(
            StringToEuiError::InvalidSeparatorPlace,
        ),
        fails_separator_type_at(s, i, n) ==> r == Result::<Seq<u8>, StringToEuiError>::Err(
            StringToEuiError::OnlyOneSeparatorTypeExpected,
        ),
    ensures
        decode_result_matches(s, n, r),
{
    assert(!scan_ok(s, n)) by {
        if scan_ok(s, n) {
            assert(char_ok(s, i, n));
        }
    }
    assert forall|i2: int| #[trigger] fails_invalid_char_at(s, i2, n) implies r
        == Result::<Seq<u8>, StringToEuiError>::Err(
        StringToEuiError::InvalidChar { char: s[i2] },
    ) by {
        lemma_violation_unique(s, n, i, i2);
    }
    assert forall|i2: int| #[trigger] fails_length_at(s, i2, n) implies r
        == Result::<Seq<u8>, StringToEuiError>::Err(
        StringToEuiError::InvalidLength { length: (s.len() - seps_before(s, i2)) as usize },
    ) by {
        lemma_violation_unique(s, n, i, i2);
    }
    assert forall|i2: int| #[trigger] fails_separator_place_at(s, i2, n) implies r
        == Result::<Seq<u8>, StringToEuiError>::Err(StringToEuiError::InvalidSeparatorPlace) by {
        lemma_violation_unique(s, n, i, i2);
    }
    assert forall|i2: int| #[trigger] fails_separator_type_at(s, i2, n) implies r
        == Result::<Seq<u8>, StringToEuiError>::Err(
        StringToEuiError::OnlyOneSeparatorTypeExpected,
    ) by {
        lemma_violation_unique(s, n, i, i2);
    }
}

/// Parse hexadecimal text into an `n`-byte big-endian sequence.
///
/// The input is scanned left to right. Hexadecimal digits fill the output
/// two per byte, high nibble first; `:` or `-` may stand after every
/// completed byte, all of one kind; the first offending character decides
/// the error. On success every remaining nibble is zero, so callers that
/// demand a fully populated output gate the input length first.
pub fn string_to_eui(input: &str, n: usize) -> (r: Result<Vec<u8>, StringToEuiError>)
    ensures
        decode_result_matches(
            input@,
            n as int,
            match r {
                Ok(v) => Result::<Seq<u8>, StringToEuiError>::Ok(v@),
                Err(e) => Result::<Seq<u8>, StringToEuiError>::Err(e),
            },
        ),
        r matches Ok(v) ==> v@.len() == n,
{
    let ghost s = input@;
    let len = input.unicode_len();
    let mut nibbles: Vec<u8> = Vec::new();
    let mut separators: usize = 0;
    let mut sep_type: Option<char> = None;
    let mut i: usize = 0;
    while i < len
        invariant
            s == input@,
            len == s.len(),
            i <= len,
            separators <= i,
            prefix_ok(s, i as int, n as int),
            separators == seps_before(s, i as int),
            nibbles@.len() == digit_chars(s.take(i as int)).len(),
            nibbles@.len() == i - separators,
            nibbles@.len() <= 2 * (n as int),
            forall|d: int|
                0 <= d < nibbles@.len() ==> nibbles@[d] == hex_val(
                    #[trigger] digit_chars(s.take(i as int))[d],
                ),
            forall|d: int| 0 <= d < nibbles@.len() ==> nibbles@[d] < 16,
            match sep_type {
                None => forall|j: int| 0 <= j < i ==> !is_separator(#[trigger] s[j]),
                Some(t) => {
                    &&& is_separator(t)
                    &&& forall|j: int| 0 <= j < i && #[trigger] is_separator(s[j]) ==> s[j] == t
                    &&& exists|j: int| 0 <= j < i && #[trigger] is_separator(s[j])
                },
            },
        decreases len - i,
    {
        let c = input.get_char(i);
        let u = c as u32;
        let nib: Option<u8> = if 65 <= u && u <= 70 {
            Some((u - 55) as u8)
        } else if 97 <= u && u <= 102 {
            Some((u - 87) as u8)
        } else if 48 <= u && u <= 57 {
            Some((u - 48) as u8)
        } else {
            None
        };
        match nib {
            Some(value) => {
                let current_pos = i - separators;
                let index = current_pos / 2;
                if index >= n {
                    proof {
                        assert(fails_length_at(s, i as int, n as int));
                        lemma_error_result(
                            s,
                            n as int,
                            i as int,
                            Result::<Seq<u8>, StringToEuiError>::Err(
                                StringToEuiError::InvalidLength { length: (len - separators) as usize },
                            ),
                        );
                    }
                    return Err(StringToEuiError::InvalidLength { length: len - separators });
                }
                nibbles.push(value);
                proof {
                    assert(char_ok(s, i as int, n as int));
                    assert(s.take(i + 1).drop_last() =~= s.take(i as int));
                    assert(s.take(i + 1).last() == s[i as int]);
                    assert(digit_chars(s.take(i + 1)) == digit_chars(s.take(i as int)).push(
                        s[i as int],
                    ));
                    assert(nibbles@.last() == hex_val(s[i as int]));
                }
            },
            None => {
                if c == ':' || c == '-' {
                    if i == 0 || (i + 1) % 3 != 0 {
                        proof {
                            assert(fails_separator_place_at(s, i as int, n as int));
                            lemma_error_result(
                                s,
                                n as int,
                                i as int,
                                Result::<Seq<u8>, StringToEuiError>::Err(
                                    StringToEuiError::InvalidSeparatorPlace,
                                ),
                            );
                        }
                        return Err(StringToEuiError::InvalidSeparatorPlace);
                    }
                    match sep_type {
                        Some(t) => {
                            if t != c {
                                proof {
                                    assert(fails_separator_type_at(s, i as int, n as int));
                                    lemma_error_result(
                                        s,
                                        n as int,
                                        i as int,
                                        Result::<Seq<u8>, StringToEuiError>::Err(
                                            StringToEuiError::OnlyOneSeparatorTypeExpected,
                                        ),
                                    );
                                }
                                return Err(StringToEuiError::OnlyOneSeparatorTypeExpected);
                            }
                        },
                        None => {
                            sep_type = Some(c);
                        },
                    }
                    separators = separators + 1;
                    proof {
                        assert(char_ok(s, i as int, n as int));
                        assert(s.take(i + 1).drop_last() =~= s.take(i as int));
                        assert(digit_chars(s.take(i + 1)) == digit_chars(s.take(i as int)));
                    }
                } else {
                    proof {
                        assert(fails_invalid_char_at(s, i as int, n as int));
                        lemma_error_result(
                            s,
                            n as int,
                            i as int,
                            Result::<Seq<u8>, StringToEuiError>::Err(
                                StringToEuiError::InvalidChar { char: c },
                            ),
                        );
                    }
                    return Err(StringToEuiError::InvalidChar { char: c });
                }
            },
        }
        i = i + 1;
    }
    proof {
        assert(s.take(len as int) =~= s);
        assert(scan_ok(s, n as int));
    }
    let ghost ds = digit_chars(s);
    let mut out: Vec<u8> = Vec::new();
    let mut d: usize = 0;
    while d + 1 < nibbles.len()
        invariant
            nibbles@.len() == ds.len(),
            nibbles@.len() <= 2 * (n as int),
            forall|e: int| 0 <= e < nibbles@.len() ==> nibbles@[e] == hex_val(#[trigger] ds[e]),
            forall|e: int| 0 <= e < nibbles@.len() ==> nibbles@[e] < 16,
            d % 2 == 0,
            d <= nibbles@.len(),
            out@.len() == d / 2,
            forall|k: int| 0 <= k < out@.len() ==> out@[k] == decoded_byte(ds, k),
        decreases nibbles@.len() - d,
    {
        let hi = nibbles[d];
        let lo = nibbles[d + 1];
        out.push(hi * 16 + lo);
        d = d + 2;
    }
    if d < nibbles.len() {
        let hi = nibbles[d];
        out.push(hi * 16);
        d = d + 1;
    }
    proof {
        assert(2 * out@.len() >= ds.len());
        assert(out@.len() <= n);
    }
    while out.len() < n
        invariant
            ds == digit_chars(s),
            2 * out@.len() >= ds.len(),
            out@.len() <= n,
            forall|k: int| 0 <= k < out@.len() ==> out@[k] == decoded_byte(ds, k),
        decreases n - out@.len(),
    {
        out.push(0);
    }
    proof {
        assert(out@ =~= decoded_bytes(s, n as int));
        assert forall|i2: int| !(#[trigger] fails_invalid_char_at(s, i2, n as int)) by {
            if fails_invalid_char_at(s, i2, n as int) {
                assert(char_ok(s, i2, n as int));
            }
        }
        assert forall|i2: int| !(#[trigger] fails_length_at(s, i2, n as int)) by {
            if fails_length_at(s, i2, n as int) {
                assert(char_ok(s, i2, n as int));
            }
        }
        assert forall|i2: int| !(#[trigger] fails_separator_place_at(s, i2, n as int)) by {
            if fails_separator_place_at(s, i2, n as int) {
                assert(char_ok(s, i2, n as int));
            }
        }
        assert forall|i2: int| !(#[trigger] fails_separator_type_at(s, i2, n as int)) by {
            if fails_separator_type_at(s, i2, n as int) {
                assert(char_ok(s, i2, n as int));
            }
        }
    }
    Ok(out)
}

/// Parse hexadecimal text into an `n`-byte big-endian sequence.
///
/// The decode hook handed to serialization integrations; it decodes exactly
/// as [`string_to_eui`] does.
pub fn to_hexadecimal(v: &str, n: usize) -> (r: Result<Vec<u8>, StringToEuiError>)
    ensures
        decode_result_matches(
            v@,
            n as int,
            match r {
                Ok(bytes) => Result::<Seq<u8>, StringToEuiError>::Ok(bytes@),
                Err(e) => Result::<Seq<u8>, StringToEuiError>::Err(e),
            },
        ),
        r matches Ok(bytes) ==> bytes@.len() == n,
{
    string_to_eui(v, n)
}

/// The uppercase hexadecimal digit of a nibble value.
pub open spec fn hex_upper_char(x: u8) -> char {
    seq!['0', '1', '2', '3', '4', '5', '6', '7', '8', '9', 'A', 'B', 'C', 'D', 'E', 'F'][x as int]
}

/// The lowercase hexadecimal digit of a nibble value.
pub open spec fn hex_lower_char(x: u8) -> char {
    seq!['0', '1', '2', '3', '4', '5', '6', '7', '8', '9', 'a', 'b', 'c', 'd', 'e', 'f'][x as int]
}

/// A byte as two uppercase hexadecimal digits, high nibble first.
pub open spec fn byte_text(b: u8) -> Seq<char> {
    seq![hex_upper_char(b / 16), hex_upper_char(b % 16)]
}

/// The canonical text of a byte sequence: two uppercase hexadecimal digits
/// per byte, a hyphen between every pair of bytes.
pub open spec fn canonical_text(bytes: Seq<u8>) -> Seq<char>
    decreases bytes.len(),
{
    if bytes.len() == 0 {
        Seq::empty()
    } else if bytes.len() == 1 {
        byte_text(bytes[0])
    } else {
        canonical_text(bytes.drop_last()) + seq!['-'] + byte_text(bytes.last())
    }
}

/// The uppercase hexadecimal digit of a nibble value, as a one-character
/// string slice.
fn hex_upper_str(x: u8) -> (r: &'static str)
    requires
        x < 16,
    ensures
        r@ =~= seq![hex_upper_char(x)],
{
    proof {
        reveal_strlit("0");
        reveal_strlit("1");
        reveal_strlit("2");
        reveal_strlit("3");
        reveal_strlit("4");
        reveal_strlit("5");
        reveal_strlit("6");
        reveal_strlit("7");
        reveal_strlit("8");
        reveal_strlit("9");
        reveal_strlit("A");
        reveal_strlit("B");
        reveal_strlit("C");
        reveal_strlit("D");
        reveal_strlit("E");
        reveal_strlit("F");
    }
    match x {
        0 => "0",
        1 => "1",
        2 => "2",
        3 => "3",
        4 => "4",
        5 => "5",
        6 => "6",
        7 => "7",
        8 => "8",
        9 => "9",
        10 => "A",
        11 => "B",
        12 => "C",
        13 => "D",
        14 => "E",
        _ => "F",
    }
}

/// The lowercase hexadecimal digit of a nibble value, as a one-character
/// string slice.
fn hex_lower_str(x: u8) -> (r: &'static str)
    requires
        x < 16,
    ensures
        r@ =~= seq![hex_lower_char(x)],
{
    proof {
        reveal_strlit("0");
        reveal_strlit("1");
        reveal_strlit("2");
        reveal_strlit("3");
        reveal_strlit("4");
        reveal_strlit("5");
        reveal_strlit("6");
        reveal_strlit("7");
        reveal_strlit("8");
        reveal_strlit("9");
        reveal_strlit("a");
        reveal_strlit("b");
        reveal_strlit("c");
        reveal_strlit("d");
        reveal_strlit("e");
        reveal_strlit("f");
    }
    match x {
        0 => "0",
        1 => "1",
        2 => "2",
        3 => "3",
        4 => "4",
        5 => "5",
        6 => "6",
        7 => "7",
        8 => "8",
        9 => "9",
        10 => "a",
        11 => "b",
        12 => "c",
        13 => "d",
        14 => "e",
        _ => "f",
    }
}

/// Render a byte sequence into its canonical text: two uppercase
/// hexadecimal digits per byte, a hyphen between every pair of bytes.
pub fn canonical_string(bytes: &[u8]) -> (r: String)
    ensures
        r@ == canonical_text(bytes@),
{
    let mut out = String::new();
    let mut i: usize = 0;
    while i < bytes.len()
        invariant
            i <= bytes@.len(),
            out@ == canonical_text(bytes@.take(i as int)),
        decreases bytes@.len() - i,
    {
        let b = bytes[i];
        if i != 0 {
            out.append("-");
        }
        out.append(hex_upper_str(b / 16));
        out.append(hex_upper_str(b % 16));
        proof {
            reveal_strlit("-");
            let t = bytes@.take(i + 1);
            assert(t.drop_last() =~= bytes@.take(i as int));
            assert(t.last() == bytes@[i as int]);
            assert(out@ =~= canonical_text(t));
        }
        i = i + 1;
    }
    proof {
        assert(bytes@.take(bytes@.len() as int) =~= bytes@);
    }
    out
}

/// The hexadecimal digits of `v` without leading zeros, as an integer is
/// usually written (a single `0` for zero).
pub open spec fn hex_text(v: u64, upper: bool) -> Seq<char>
    decreases v,
{
    let digit = if upper {
        hex_upper_char((v % 16) as u8)
    } else {
        hex_lower_char((v % 16) as u8)
    };
    if v < 16 {
        seq![digit]
    } else {
        hex_text(v / 16, upper).push(digit)
    }
}

/// Append the hexadecimal digits of `v`, without leading zeros, to `out`.
pub(crate) fn push_hex(v: u64, upper: bool, out: &mut String)
    ensures
        final(out)@ == old(out)@ + hex_text(v, upper),
    decreases v,
{
    if v >= 16 {
        push_hex(v / 16, upper, out);
    }
    let nib = (v % 16) as u8;
    let s = if upper {
        hex_upper_str(nib)
    } else {
        hex_lower_str(nib)
    };
    out.append(s);
    proof {
        assert(final(out)@ =~= old(out)@ + hex_text(v, upper));
    }
}

} // verus!
