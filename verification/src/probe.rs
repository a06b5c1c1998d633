//! The frame size that ffprobe reports in its JSON output.

use vstd::prelude::*;
use vstd::std_specs::iter::IteratorSpec;

verus! {

/// An ASCII decimal digit.
pub open spec fn is_digit(c: char) -> bool {
    '0' <= c && c <= '9'
}

/// The mantissa below which `json::parse` takes in fraction digits without
/// checking for overflow.
pub const MAX_PRECISION: u64 = 576460752303423500;

/// The most exponent steps a number's fraction can take: the parser keeps
/// the exponent in an `i16`, starting at 0.
pub const MAX_FRACTION_STEPS: u32 = 32768;

/// What a scan of a JSON text has seen so far: whether it is inside a
/// string (and right after a backslash there), the character before, and,
/// for a number that starts with `0` or `-0`, how far it got: `stage` 1
/// after that `0`, 2 in the digits after its `.`, with the mantissa those
/// digits make and the exponent steps they took, as `json::parse` counts
/// them. `overflow` is set once a fraction would take more steps than the
/// parser's exponent can hold.
pub struct FractionScan {
    pub in_string: bool,
    pub escaped: bool,
    pub prev: char,
    pub stage: u8,
    pub mantissa: u64,
    pub steps: u32,
    pub overflow: bool,
}

/// The scan before any character.
pub open spec fn scan_start() -> FractionScan {
    FractionScan {
        in_string: false,
        escaped: false,
        prev: ' ',
        stage: 0,
        mantissa: 0,
        steps: 0,
        overflow: false,
    }
}

/// The scan after one more character `c`.
///
/// Inside a string nothing counts; a backslash escapes the next character.
/// Outside strings, a `0` that no digit or `.` precedes starts a number
/// whose mantissa is 0; after its `.`, each digit takes an exponent step
/// as long as the mantissa is below `MAX_PRECISION` or the digit still fits
/// in a `u64` (as `json::parse` does), and the mantissa takes the digit.
pub open spec fn scan_step(st: FractionScan, c: char) -> FractionScan {
    if st.overflow {
        st
    } else if st.in_string {
        if st.escaped {
            FractionScan { escaped: false, prev: c, ..st }
        } else if c == '\\' {
            FractionScan { escaped: true, prev: c, ..st }
        } else if c == '"' {
            FractionScan { in_string: false, prev: c, ..st }
        } else {
            FractionScan { prev: c, ..st }
        }
    } else if c == '"' {
        FractionScan { in_string: true, escaped: false, stage: 0, prev: c, ..st }
    } else if st.stage == 2 && is_digit(c) {
        let next = st.mantissa * 10 + (c as int - 48);
        if st.mantissa < MAX_PRECISION || next <= u64::MAX {
            if st.steps >= MAX_FRACTION_STEPS {
                FractionScan { overflow: true, prev: c, ..st }
            } else {
                FractionScan { mantissa: next as u64, steps: (st.steps + 1) as u32, prev: c, ..st }
            }
        } else {
            FractionScan { prev: c, ..st }
        }
    } else if st.stage == 1 && c == '.' {
        FractionScan { stage: 2, mantissa: 0, steps: 0, prev: c, ..st }
    } else if c == '0' && !is_digit(st.prev) && st.prev != '.' {
        FractionScan { stage: 1, prev: c, ..st }
    } else {
        FractionScan { stage: 0, prev: c, ..st }
    }
}

/// The scan of a whole text.
pub open spec fn scan(s: Seq<char>) -> FractionScan
    decreases s.len(),
{
    if s.len() == 0 {
        scan_start()
    } else {
        scan_step(scan(s.drop_last()), s.last())
    }
}

/// Some number of `text` that starts with `0.` or `-0.` has more fraction
/// digits than `json::parse`'s exponent can count down.
pub open spec fn fraction_overflows(text: Seq<char>) -> bool {
    scan(text).overflow
}

/// What `json::parse` and `JsonValue::as_u16` make of `text` at
/// `text[list_key][index][field]`: `None` where `json::parse` refuses
/// `text` (it is not JSON, nests deeper than 512 levels, or has a number
/// whose exponent leaves the parser's range); otherwise `Some` of the
/// number there, itself `None` where the member is
/// missing, not a number, negative, written with a fraction or an exponent
/// (such as `640.0` or `6.4e2`), or above 65535.
pub uninterp spec fn json_u16_at(
    text: Seq<char>,
    list_key: Seq<char>,
    index: int,
    field: Seq<char>,
) -> Option<Option<u16>>;

/// Parses `text` with `json::parse` and reads `[list_key][index][field]`
/// of the result with `JsonValue::as_u16`. The contract claims only that
/// the result is a function of the text and the path: the JSON grammar and
/// the crate's lookups are not restated. `json::parse` keeps the exponent
/// of a number in an `i16` that goes down by one for each fraction digit
/// it takes into the mantissa; it takes every digit while the mantissa is
/// below `MAX_PRECISION`, so only a number `0.` or `-0.` with more than
/// 32768 such digits (its leading zeros) overflows the exponent. Texts with
/// such a number outside strings are left out: `json::parse` panics on
/// them, or refuses the text before it reaches the number.
#[verifier::external_body]
fn json_u16_at_path(text: &str, list_key: &str, index: usize, field: &str) -> (r: Option<Option<u16>>)
    requires
        !fraction_overflows(text@),
    ensures
        r == json_u16_at(text@, list_key@, index as int, field@),
{
    match json::parse(text) {
        Ok(value) => Some(value[list_key][index][field].as_u16()),
        Err(_) => None,
    }
}

/// The scan after one more character `c`.
pub fn scan_char(st: FractionScan, c: char) -> (r: FractionScan)
    ensures
        r == scan_step(st, c),
{
    if st.overflow {
        st
    } else if st.in_string {
        if st.escaped {
            FractionScan { escaped: false, prev: c, ..st }
        } else if c == '\\' {
            FractionScan { escaped: true, prev: c, ..st }
        } else if c == '"' {
            FractionScan { in_string: false, prev: c, ..st }
        } else {
            FractionScan { prev: c, ..st }
        }
    } else if c == '"' {
        FractionScan { in_string: true, escaped: false, stage: 0, prev: c, ..st }
    } else if st.stage == 2 && '0' <= c && c <= '9' {
        let d: u128 = (c as u32 - 48) as u128;
        let next: u128 = (st.mantissa as u128) * 10 + d;
        if st.mantissa < MAX_PRECISION || next <= u64::MAX as u128 {
            if st.steps >= MAX_FRACTION_STEPS {
                FractionScan { overflow: true, prev: c, ..st }
            } else {
                FractionScan { mantissa: next as u64, steps: st.steps + 1, prev: c, ..st }
            }
        } else {
            FractionScan { prev: c, ..st }
        }
    } else if st.stage == 1 && c == '.' {
        FractionScan { stage: 2, mantissa: 0, steps: 0, prev: c, ..st }
    } else if c == '0' && !('0' <= st.prev && st.prev <= '9') && st.prev != '.' {
        FractionScan { stage: 1, prev: c, ..st }
    } else {
        FractionScan { stage: 0, prev: c, ..st }
    }
}

/// Whether some number of `text` that starts with `0.` or `-0.` has more
/// fraction digits than `json::parse`'s exponent can count down.
pub fn fraction_overflow_check(text: &str) -> (b: bool)
    ensures
        b == fraction_overflows(text@),
{
    let ghost s = text@;
    let mut chars = text.chars();
    let ghost mut i: int = 0;
    let mut st = FractionScan {
        in_string: false,
        escaped: false,
        prev: ' ',
        stage: 0,
        mantissa: 0,
        steps: 0,
        overflow: false,
    };
    assert(s.take(0) =~= Seq::<char>::empty());
    loop
        invariant
            s == text@,
            0 <= i <= s.len(),
            chars.remaining() == s.skip(i),
            st == scan(s.take(i)),
        decreases s.len() - i,
    {
        let next = chars.next();
        match next {
            Some(c) => {
                proof {
                    assert(s.skip(i)[0] == s[i]);
                    assert(s.skip(i).drop_first() =~= s.skip(i + 1));
                    assert(s.take(i + 1).drop_last() =~= s.take(i));
                    assert(s.take(i + 1).last() == s[i]);
                }
                st = scan_char(st, c);
                proof {
                    i = i + 1;
                }
            },
            None => {
                assert(i == s.len());
                assert(s.take(i) =~= s);
                return st.overflow;
            },
        }
    }
}

/// The frame size from what was read at `width` and `height`: both must be
/// there.
pub open spec fn size_of_fields(width: Option<Option<u16>>, height: Option<Option<u16>>) -> Option<(u16, u16)> {
    match (width, height) {
        (Some(Some(w)), Some(Some(h))) => Some((w, h)),
        _ => None,
    }
}

/// The frame size from what was read at `width` and `height` of the first
/// stream: both must be there.
pub fn resolution_from_fields(width: Option<Option<u16>>, height: Option<Option<u16>>) -> (r: Option<(u16, u16)>)
    ensures
        r == size_of_fields(width, height),
{
    match (width, height) {
        (Some(Some(w)), Some(Some(h))) => Some((w, h)),
        _ => None,
    }
}

/// The frame size in ffprobe's JSON output (`-print_format json
/// -show_streams`): the `width` and `height` of the first member of
/// `streams`; `None` where the JSON parser refuses the output, where either
/// side is missing or not a `u16`, and where a number `0.` or `-0.` in the
/// output has more fraction digits than the JSON parser can count.
pub fn resolution_from_probe(output: &str) -> (r: Option<(u16, u16)>)
    ensures
        fraction_overflows(output@) ==> r is None,
        !fraction_overflows(output@) ==> r == size_of_fields(
            json_u16_at(output@, "streams"@, 0, "width"@),
            json_u16_at(output@, "streams"@, 0, "height"@),
        ),
{
    if fraction_overflow_check(output) {
        return None;
    }
    let width = json_u16_at_path(output, "streams", 0, "width");
    let height = json_u16_at_path(output, "streams", 0, "height");
    resolution_from_fields(width, height)
}

} // verus!
