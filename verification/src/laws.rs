//! Laws relating the codec's operations, stated and proved over the same
//! specification functions that the executable functions' contracts use.

use vstd::prelude::*;

use crate::addr::u48_bytes;
use crate::addr::u48_of;
use crate::addr::u64_bytes;
use crate::addr::u64_of;
use crate::codec::char_ok;
use crate::codec::decode_result_matches;
use crate::codec::decoded_byte;
use crate::codec::decoded_bytes;
use crate::codec::digit_chars;
use crate::codec::fails_invalid_char_at;
use crate::codec::fails_length_at;
use crate::codec::fails_separator_place_at;
use crate::codec::fails_separator_type_at;
use crate::codec::hex_val;
use crate::codec::is_hex_digit;
use crate::codec::is_separator;
use crate::codec::prefix_ok;
use crate::codec::scan_ok;
use crate::codec::sep_place_ok;
use crate::codec::seps_before;
use crate::codec::StringToEuiError;
use crate::codec::byte_text;
use crate::codec::canonical_text;
use crate::codec::hex_lower_char;
use crate::codec::hex_upper_char;

verus! {

/// Reading 6 big-endian bytes as an integer and writing that integer back
/// out as bytes returns the original bytes.
pub proof fn lemma_u48_round_trip(bytes: Seq<u8>)
    requires
        bytes.len() == 6,
    ensures
        u48_bytes(u48_of(bytes)) == bytes,
{
    let b0 = bytes[0];
    let b1 = bytes[1];
    let b2 = bytes[2];
    let b3 = bytes[3];
    let b4 = bytes[4];
    let b5 = bytes[5];
    let v = u48_of(bytes);
    assert(v == ((b0 as u64) << 40) | ((b1 as u64) << 32) | ((b2 as u64) << 24) | ((b3 as u64)
        << 16) | ((b4 as u64) << 8) | (b5 as u64));
    let w = ((b0 as u64) << 40) | ((b1 as u64) << 32) | ((b2 as u64) << 24) | ((b3 as u64) << 16)
        | ((b4 as u64) << 8) | (b5 as u64);
    assert((w >> 40) as u8 == b0 && (w >> 32) as u8 == b1 && (w >> 24) as u8 == b2 && (w
        >> 16) as u8 == b3 && (w >> 8) as u8 == b4 && w as u8 == b5) by (bit_vector)
        requires
            w == ((b0 as u64) << 40) | ((b1 as u64) << 32) | ((b2 as u64) << 24) | ((b3 as u64)
                << 16) | ((b4 as u64) << 8) | (b5 as u64),
    ;
    assert(u48_bytes(v) =~= bytes);
}

/// Reading 8 big-endian bytes as an integer and writing that integer back
/// out as bytes returns the original bytes.
pub proof fn lemma_u64_round_trip(bytes: Seq<u8>)
    requires
        bytes.len() == 8,
    ensures
        u64_bytes(u64_of(bytes)) == bytes,
{
    let b0 = bytes[0];
    let b1 = bytes[1];
    let b2 = bytes[2];
    let b3 = bytes[3];
    let b4 = bytes[4];
    let b5 = bytes[5];
    let b6 = bytes[6];
    let b7 = bytes[7];
    let v = u64_of(bytes);
    let w = ((b0 as u64) << 56) | ((b1 as u64) << 48) | ((b2 as u64) << 40) | ((b3 as u64) << 32)
        | ((b4 as u64) << 24) | ((b5 as u64) << 16) | ((b6 as u64) << 8) | (b7 as u64);
    assert(v == w);
    assert((w >> 56) as u8 == b0 && (w >> 48) as u8 == b1 && (w >> 40) as u8 == b2 && (w
        >> 32) as u8 == b3 && (w >> 24) as u8 == b4 && (w >> 16) as u8 == b5 && (w >> 8) as u8
        == b6 && w as u8 == b7) by (bit_vector)
        requires
            w == ((b0 as u64) << 56) | ((b1 as u64) << 48) | ((b2 as u64) << 40) | ((b3 as u64)
                << 32) | ((b4 as u64) << 24) | ((b5 as u64) << 16) | ((b6 as u64) << 8) | (
            b7 as u64),
    ;
    assert(u64_bytes(v) =~= bytes);
}

/// A string that starts with a separator is rejected for every output
/// width, always with `InvalidSeparatorPlace`.
pub proof fn lemma_leading_separator_rejected(s: Seq<char>, n: int)
    requires
        s.len() > 0,
        is_separator(s[0]),
    ensures
        fails_separator_place_at(s, 0, n),
        !scan_ok(s, n),
{
    assert(!sep_place_ok(0));
    assert(!char_ok(s, 0, n));
    if scan_ok(s, n) {
        assert(char_ok(s, 0, n));
    }
}

/// A separator-form string (length `3n - 1`) that ends with a separator
/// never passes the scan; when everything before the final character is in
/// order, the error is `InvalidSeparatorPlace` there.
pub proof fn lemma_trailing_separator_rejected(s: Seq<char>, n: int)
    requires
        n >= 1,
        s.len() == 3 * n - 1,
        is_separator(s[s.len() - 1]),
    ensures
        !scan_ok(s, n),
        prefix_ok(s, s.len() - 1, n) ==> fails_separator_place_at(s, s.len() - 1, n),
{
    let last = s.len() - 1;
    assert((last + 1) % 3 != 0);
    assert(!char_ok(s, last, n));
    if scan_ok(s, n) {
        assert(char_ok(s, last, n));
    }
}

/// Two adjacent separators never pass the scan; when everything before the
/// pair is in order and the first of the two agrees with every earlier
/// separator, the error is `InvalidSeparatorPlace` at one of the two.
pub proof fn lemma_adjacent_separators_rejected(s: Seq<char>, n: int, i: int)
    requires
        0 <= i,
        i + 1 < s.len(),
        is_separator(s[i]),
        is_separator(s[i + 1]),
    ensures
        !scan_ok(s, n),
        prefix_ok(s, i, n) && (forall|j: int|
            0 <= j < i && #[trigger] is_separator(s[j]) ==> s[j] == s[i])
            ==> fails_separator_place_at(s, i, n) || fails_separator_place_at(s, i + 1, n),
{
    assert(!(sep_place_ok(i) && sep_place_ok(i + 1)));
    if scan_ok(s, n) {
        assert(char_ok(s, i, n));
        assert(char_ok(s, i + 1, n));
    }
    if prefix_ok(s, i, n) && (forall|j: int|
        0 <= j < i && #[trigger] is_separator(s[j]) ==> s[j] == s[i]) {
        if sep_place_ok(i) {
            assert(char_ok(s, i, n));
            assert(prefix_ok(s, i + 1, n)) by {
                assert(forall|j: int| 0 <= j < i + 1 ==> #[trigger] char_ok(s, j, n));
            }
            assert(fails_separator_place_at(s, i + 1, n));
        } else {
            assert(fails_separator_place_at(s, i, n));
        }
    }
}

/// A string that holds both separator kinds never passes the scan.
pub proof fn lemma_mixed_separators_rejected(s: Seq<char>, n: int, i: int, j: int)
    requires
        0 <= i < j < s.len(),
        is_separator(s[i]),
        is_separator(s[j]),
        s[i] != s[j],
    ensures
        !scan_ok(s, n),
{
    if scan_ok(s, n) {
        assert(char_ok(s, j, n));
        assert(s[i] == s[j]);
    }
}

/// Walk forward to the first index that fails the scan.
proof fn find_first_violation(s: Seq<char>, n: int, i: int) -> (k: int)
    requires
        0 <= i <= s.len(),
        prefix_ok(s, i, n),
        !scan_ok(s, n),
    ensures
        0 <= k < s.len(),
        prefix_ok(s, k, n),
        !char_ok(s, k, n),
    decreases s.len() - i,
{
    if i == s.len() {
        assert(scan_ok(s, n));
        i
    } else if !char_ok(s, i, n) {
        i
    } else {
        assert forall|j: int| 0 <= j < i + 1 implies #[trigger] char_ok(s, j, n) by {
        }
        find_first_violation(s, n, i + 1)
    }
}

/// The decoding contract admits exactly one result for each input: two
/// results that both meet it are equal.
pub proof fn lemma_decode_result_unique(
    s: Seq<char>,
    n: int,
    r1: Result<Seq<u8>, StringToEuiError>,
    r2: Result<Seq<u8>, StringToEuiError>,
)
    requires
        decode_result_matches(s, n, r1),
        decode_result_matches(s, n, r2),
    ensures
        r1 == r2,
{
    if scan_ok(s, n) {
        assert(r1 == Result::<Seq<u8>, StringToEuiError>::Ok(decoded_bytes(s, n)));
        assert(r2 == Result::<Seq<u8>, StringToEuiError>::Ok(decoded_bytes(s, n)));
    } else {
        let k = find_first_violation(s, n, 0);
        if is_separator(s[k]) {
            if !sep_place_ok(k) {
                assert(fails_separator_place_at(s, k, n));
            } else {
                assert(fails_separator_type_at(s, k, n));
            }
        } else {
            if is_hex_digit(s[k]) {
                assert(fails_length_at(s, k, n));
            } else {
                assert(fails_invalid_char_at(s, k, n));
            }
        }
    }
}

/// The hexadecimal digit characters carry their nibble values and are
/// neither separators nor anything else.
proof fn lemma_hex_char_val(x: u8)
    requires
        x < 16,
    ensures
        is_hex_digit(hex_upper_char(x)),
        hex_val(hex_upper_char(x)) == x,
        !is_separator(hex_upper_char(x)),
        is_hex_digit(hex_lower_char(x)),
        hex_val(hex_lower_char(x)) == x,
        !is_separator(hex_lower_char(x)),
{
    if x == 0 {
    } else if x == 1 {
    } else if x == 2 {
    } else if x == 3 {
    } else if x == 4 {
    } else if x == 5 {
    } else if x == 6 {
    } else if x == 7 {
    } else if x == 8 {
    } else if x == 9 {
    } else if x == 10 {
    } else if x == 11 {
    } else if x == 12 {
    } else if x == 13 {
    } else if x == 14 {
    } else {
    }
}

/// Equal prefixes hold equally many separators.
proof fn lemma_seps_before_agree(s: Seq<char>, t: Seq<char>, i: int)
    requires
        0 <= i <= s.len(),
        i <= t.len(),
        forall|k: int| #![trigger s[k]] 0 <= k < i ==> s[k] == t[k],
    ensures
        seps_before(s, i) == seps_before(t, i),
    decreases i,
{
    if i > 0 {
        lemma_seps_before_agree(s, t, i - 1);
    }
}

/// Whether a character passes the scan depends only on the string up to it.
proof fn lemma_char_ok_extend(s: Seq<char>, t: Seq<char>, j: int, n: int)
    requires
        0 <= j < s.len(),
        j < t.len(),
        forall|k: int| #![trigger s[k]] 0 <= k <= j ==> s[k] == t[k],
        char_ok(s, j, n),
    ensures
        char_ok(t, j, n),
{
    lemma_seps_before_agree(s, t, j);
    if is_separator(t[j]) {
        assert forall|k: int| 0 <= k < j && #[trigger] is_separator(t[k]) implies t[k] == t[j] by {
            assert(s[k] == t[k]);
        }
    }
}

/// The structure of canonical text: its length, that its separators are all
/// hyphens, how many there are, that the whole of it passes the scan for
/// any width at least the byte count, and which digits it holds.
proof fn lemma_canonical_scan(bytes: Seq<u8>, n: int)
    requires
        bytes.len() <= n,
    ensures
        canonical_text(bytes).len() == (if bytes.len() == 0 {
            0int
        } else {
            3 * bytes.len() - 1
        }),
        forall|j: int|
            0 <= j < canonical_text(bytes).len() && is_separator(
                #[trigger] canonical_text(bytes)[j],
            ) ==> canonical_text(bytes)[j] == '-',
        seps_before(canonical_text(bytes), canonical_text(bytes).len() as int) == (if bytes.len()
            == 0 {
            0int
        } else {
            bytes.len() - 1
        }),
        prefix_ok(canonical_text(bytes), canonical_text(bytes).len() as int, n),
        digit_chars(canonical_text(bytes)).len() == 2 * bytes.len(),
        forall|d: int|
            0 <= d < 2 * bytes.len() ==> #[trigger] digit_chars(canonical_text(bytes))[d] == (if d
                % 2 == 0 {
                hex_upper_char(bytes[d / 2] / 16)
            } else {
                hex_upper_char(bytes[d / 2] % 16)
            }),
    decreases bytes.len(),
{
    let t = canonical_text(bytes);
    let m = bytes.len() as int;
    if m == 0 {
        assert(digit_chars(t).len() == 0);
    } else if m == 1 {
        let b = bytes[0];
        lemma_hex_char_val(b / 16);
        lemma_hex_char_val(b % 16);
        assert(t == byte_text(b));
        assert(t.len() == 2);
        assert(t[0] == hex_upper_char(b / 16));
        assert(t[1] == hex_upper_char(b % 16));
        assert(seps_before(t, 0) == 0);
        assert(seps_before(t, 1) == 0);
        assert(seps_before(t, 2) == 0);
        assert(char_ok(t, 0, n));
        assert(char_ok(t, 1, n));
        assert forall|j: int| 0 <= j < 2 implies #[trigger] char_ok(t, j, n) by {
        }
        assert(digit_chars(t.drop_last()) =~= seq![t[0]]) by {
            assert(t.drop_last().drop_last() =~= Seq::<char>::empty());
            assert(digit_chars(t.drop_last().drop_last()) =~= Seq::<char>::empty());
        }
        assert(digit_chars(t) =~= seq![t[0], t[1]]);
    } else {
        let prior = bytes.drop_last();
        let b = bytes.last();
        lemma_canonical_scan(prior, n);
        lemma_hex_char_val(b / 16);
        lemma_hex_char_val(b % 16);
        let p = canonical_text(prior);
        let c1 = hex_upper_char(b / 16);
        let c2 = hex_upper_char(b % 16);
        let len_p = 3 * m - 4;
        assert(t == p + seq!['-'] + byte_text(b));
        assert(t.len() == 3 * m - 1);
        assert(p.len() == len_p);
        assert forall|k: int| 0 <= k < len_p implies #[trigger] t[k] == p[k] by {
        }
        assert(t[len_p] == '-');
        assert(t[len_p + 1] == c1);
        assert(t[len_p + 2] == c2);
        // every separator is a hyphen
        assert forall|j: int| 0 <= j < t.len() && is_separator(#[trigger] t[j]) implies t[j]
            == '-' by {
            if j < len_p {
                assert(t[j] == p[j]);
            }
        }
        // separator counts
        lemma_seps_before_agree(p, t, len_p);
        assert(seps_before(t, len_p) == m - 2);
        assert(seps_before(t, len_p + 1) == m - 1);
        assert(seps_before(t, len_p + 2) == m - 1);
        assert(seps_before(t, len_p + 3) == m - 1);
        // every character passes the scan
        assert(char_ok(t, len_p, n)) by {
            assert((len_p + 1) % 3 == 0);
            assert forall|k: int| 0 <= k < len_p && #[trigger] is_separator(t[k]) implies t[k]
                == t[len_p] by {
                assert(t[k] == p[k]);
            }
        }
        assert(char_ok(t, len_p + 1, n)) by {
            assert((len_p + 1 - seps_before(t, len_p + 1)) / 2 == m - 1);
        }
        assert(char_ok(t, len_p + 2, n)) by {
            assert((len_p + 2 - seps_before(t, len_p + 2)) / 2 == m - 1);
        }
        assert forall|j: int| 0 <= j < t.len() implies #[trigger] char_ok(t, j, n) by {
            if j < len_p {
                assert(char_ok(p, j, n));
                lemma_char_ok_extend(p, t, j, n);
            }
        }
        // the digits are those of the prefix plus the two of the last byte
        assert(digit_chars(t) =~= digit_chars(p).push(c1).push(c2)) by {
            assert(t.drop_last() =~= (p + seq!['-']).push(c1));
            assert(t.last() == c2);
            assert(digit_chars(t) == digit_chars(t.drop_last()).push(c2));
            assert(t.drop_last().drop_last() =~= p + seq!['-']);
            assert(t.drop_last().last() == c1);
            assert(digit_chars(t.drop_last()) == digit_chars(p + seq!['-']).push(c1));
            assert((p + seq!['-']).drop_last() =~= p);
            assert((p + seq!['-']).last() == '-');
            assert(digit_chars(p + seq!['-']) == digit_chars(p));
        }
        assert forall|d: int| 0 <= d < 2 * m implies #[trigger] digit_chars(t)[d] == (if d % 2
            == 0 {
            hex_upper_char(bytes[d / 2] / 16)
        } else {
            hex_upper_char(bytes[d / 2] % 16)
        }) by {
            if d < 2 * (m - 1) {
                assert(digit_chars(t)[d] == digit_chars(p)[d]);
                assert(prior[d / 2] == bytes[d / 2]);
            } else if d == 2 * m - 2 {
                assert(digit_chars(t)[d] == c1);
            } else {
                assert(digit_chars(t)[d] == c2);
            }
        }
    }
}

/// Round trip: the canonical text of any `n`-byte sequence passes the scan
/// for width `n` and decodes back to exactly those bytes.
pub proof fn lemma_text_round_trip(bytes: Seq<u8>, n: int)
    requires
        bytes.len() == n,
    ensures
        canonical_text(bytes).len() == (if n == 0 {
            0int
        } else {
            3 * n - 1
        }),
        scan_ok(canonical_text(bytes), n),
        decoded_bytes(canonical_text(bytes), n) == bytes,
{
    lemma_canonical_scan(bytes, n);
    let t = canonical_text(bytes);
    let ds = digit_chars(t);
    assert forall|k: int| 0 <= k < n implies decoded_bytes(t, n)[k] == bytes[k] by {
        lemma_hex_char_val(bytes[k] / 16);
        lemma_hex_char_val(bytes[k] % 16);
        assert(ds[2 * k] == hex_upper_char(bytes[k] / 16));
        assert(ds[2 * k + 1] == hex_upper_char(bytes[k] % 16));
        assert(decoded_byte(ds, k) == bytes[k]);
    }
    assert(decoded_bytes(t, n) =~= bytes);
}

/// At index `i` the two strings either agree or hold hexadecimal digits of
/// the same value (the two letter cases of one digit).
pub open spec fn case_equivalent_at(s: Seq<char>, t: Seq<char>, i: int) -> bool {
    ||| s[i] == t[i]
    ||| (is_hex_digit(s[i]) && is_hex_digit(t[i]) && hex_val(s[i]) == hex_val(t[i]))
}

/// The two strings differ at most in the letter case of hexadecimal digits.
pub open spec fn case_equivalent(s: Seq<char>, t: Seq<char>) -> bool {
    &&& s.len() == t.len()
    &&& forall|i: int| 0 <= i < s.len() ==> #[trigger] case_equivalent_at(s, t, i)
}

proof fn lemma_case_symmetric(s: Seq<char>, t: Seq<char>)
    requires
        case_equivalent(s, t),
    ensures
        case_equivalent(t, s),
{
    assert forall|i: int| 0 <= i < t.len() implies #[trigger] case_equivalent_at(t, s, i) by {
        assert(case_equivalent_at(s, t, i));
    }
}

proof fn lemma_case_seps_agree(s: Seq<char>, t: Seq<char>, i: int)
    requires
        case_equivalent(s, t),
        0 <= i <= s.len(),
    ensures
        seps_before(s, i) == seps_before(t, i),
    decreases i,
{
    if i > 0 {
        lemma_case_seps_agree(s, t, i - 1);
        assert(case_equivalent_at(s, t, i - 1));
    }
}

proof fn lemma_case_digit_chars(s: Seq<char>, t: Seq<char>)
    requires
        case_equivalent(s, t),
    ensures
        digit_chars(s).len() == digit_chars(t).len(),
        forall|d: int|
            0 <= d < digit_chars(s).len() ==> hex_val(#[trigger] digit_chars(s)[d]) == hex_val(
                digit_chars(t)[d],
            ),
    decreases s.len(),
{
    if s.len() > 0 {
        let i = s.len() - 1;
        assert(case_equivalent_at(s, t, i));
        assert(case_equivalent(s.drop_last(), t.drop_last())) by {
            assert forall|j: int| 0 <= j < s.len() - 1 implies #[trigger] case_equivalent_at(
                s.drop_last(),
                t.drop_last(),
                j,
            ) by {
                assert(case_equivalent_at(s, t, j));
                assert(s.drop_last()[j] == s[j] && t.drop_last()[j] == t[j]);
            }
        }
        lemma_case_digit_chars(s.drop_last(), t.drop_last());
        assert(is_separator(s.last()) == is_separator(t.last()));
    }
}

proof fn lemma_case_char_ok(s: Seq<char>, t: Seq<char>, i: int, n: int)
    requires
        case_equivalent(s, t),
        0 <= i < s.len(),
        char_ok(s, i, n),
    ensures
        char_ok(t, i, n),
{
    lemma_case_seps_agree(s, t, i);
    assert(case_equivalent_at(s, t, i));
    if is_separator(t[i]) {
        assert(s[i] == t[i]);
        assert forall|j: int| 0 <= j < i && #[trigger] is_separator(t[j]) implies t[j] == t[i] by {
            assert(case_equivalent_at(s, t, j));
            assert(s[j] == t[j]);
        }
    } else {
        assert(!is_separator(s[i]));
    }
}

/// Decoding does not see the letter case of hexadecimal digits: two inputs
/// that differ at most in digit case pass or fail the scan together, decode
/// to the same bytes, and admit the same results under the decoding
/// contract.
pub proof fn lemma_decode_case_insensitive(s: Seq<char>, t: Seq<char>, n: int)
    requires
        case_equivalent(s, t),
    ensures
        case_equivalent(t, s),
        scan_ok(s, n) == scan_ok(t, n),
        decoded_bytes(s, n) == decoded_bytes(t, n),
        forall|r: Result<Seq<u8>, StringToEuiError>| #[trigger] decode_result_matches(s, n, r)
            ==> decode_result_matches(t, n, r),
{
    lemma_case_symmetric(s, t);
    assert(scan_ok(s, n) == scan_ok(t, n)) by {
        if scan_ok(s, n) {
            assert forall|j: int| 0 <= j < t.len() implies #[trigger] char_ok(t, j, n) by {
                assert(char_ok(s, j, n));
                lemma_case_char_ok(s, t, j, n);
            }
        }
        if scan_ok(t, n) {
            assert forall|j: int| 0 <= j < s.len() implies #[trigger] char_ok(s, j, n) by {
                assert(char_ok(t, j, n));
                lemma_case_char_ok(t, s, j, n);
            }
        }
    }
    assert(decoded_bytes(s, n) == decoded_bytes(t, n)) by {
        lemma_case_digit_chars(s, t);
        assert forall|k: int| 0 <= k < n implies decoded_bytes(s, n)[k] == decoded_bytes(t, n)[k] by {
            assert(decoded_byte(digit_chars(s), k) == decoded_byte(digit_chars(t), k));
        }
        assert(decoded_bytes(s, n) =~= decoded_bytes(t, n));
    }
    assert forall|r: Result<Seq<u8>, StringToEuiError>| #[trigger] decode_result_matches(s, n, r)
        implies decode_result_matches(t, n, r) by {
        assert forall|i: int| 0 <= i <= t.len() && prefix_ok(t, i, n) implies prefix_ok(s, i, n) by {
            assert forall|j: int| 0 <= j < i implies #[trigger] char_ok(s, j, n) by {
                assert(char_ok(t, j, n));
                lemma_case_char_ok(t, s, j, n);
            }
        }
        assert forall|i: int| #[trigger] fails_invalid_char_at(t, i, n) implies r == Result::<
            Seq<u8>,
            StringToEuiError,
        >::Err(StringToEuiError::InvalidChar { char: t[i] }) by {
            assert(case_equivalent_at(s, t, i));
            assert(s[i] == t[i]);
            assert(fails_invalid_char_at(s, i, n));
        }
        assert forall|i: int| #[trigger] fails_length_at(t, i, n) implies r == Result::<
            Seq<u8>,
            StringToEuiError,
        >::Err(
            StringToEuiError::InvalidLength { length: (t.len() - seps_before(t, i)) as usize },
        ) by {
            assert(case_equivalent_at(s, t, i));
            assert(!is_separator(s[i]) && is_hex_digit(s[i]));
            lemma_case_seps_agree(s, t, i);
            assert(fails_length_at(s, i, n));
        }
        assert forall|i: int| #[trigger] fails_separator_place_at(t, i, n) implies r == Result::<
            Seq<u8>,
            StringToEuiError,
        >::Err(StringToEuiError::InvalidSeparatorPlace) by {
            assert(case_equivalent_at(s, t, i));
            assert(s[i] == t[i]);
            assert(fails_separator_place_at(s, i, n));
        }
        assert forall|i: int| #[trigger] fails_separator_type_at(t, i, n) implies r == Result::<
            Seq<u8>,
            StringToEuiError,
        >::Err(StringToEuiError::OnlyOneSeparatorTypeExpected) by {
            assert(case_equivalent_at(s, t, i));
            assert(s[i] == t[i]);
            let j = choose|j: int| 0 <= j < i && #[trigger] is_separator(t[j]) && t[j] != t[i];
            assert(case_equivalent_at(s, t, j));
            assert(s[j] == t[j]);
            assert(fails_separator_type_at(s, i, n));
        }
    }
}

} // verus!
