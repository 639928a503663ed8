use vstd::prelude::*;
use vstd::string::StrSliceExecFns;

verus! {

/// Whether `c` is one of the digits `0` to `9`.
pub open spec fn is_digit(c: char) -> bool {
    '0' as u32 <= c as u32 <= '9' as u32
}

/// The number that a run of decimal digits writes, most significant first.
pub open spec fn decimal_value(ds: Seq<char>) -> int
    decreases ds.len(),
{
    if ds.len() == 0 {
        0
    } else {
        decimal_value(ds.drop_last()) * 10 + (ds.last() as u32 - '0' as u32)
    }
}

/// The digits of an unsigned number: the text without one leading `+`.
pub open spec fn unsigned_digits(s: Seq<char>) -> Seq<char> {
    if s.len() > 0 && s[0] == '+' {
        s.drop_first()
    } else {
        s
    }
}

/// Whether a text writes an unsigned number in decimal: an optional `+`,
/// then one or more digits and nothing else.
pub open spec fn is_decimal(s: Seq<char>) -> bool {
    let ds = unsigned_digits(s);
    ds.len() > 0 && forall|i: int| 0 <= i < ds.len() ==> is_digit(#[trigger] ds[i])
}

/// The `u64` that a text writes in decimal, if it writes one that fits.
pub open spec fn parsed_u64(s: Seq<char>) -> Option<u64> {
    if is_decimal(s) && decimal_value(unsigned_digits(s)) <= u64::MAX {
        Some(decimal_value(unsigned_digits(s)) as u64)
    } else {
        None
    }
}

/// The `usize` that a text writes in decimal, if it writes one that fits.
pub open spec fn parsed_usize(s: Seq<char>) -> Option<usize> {
    if is_decimal(s) && decimal_value(unsigned_digits(s)) <= usize::MAX {
        Some(decimal_value(unsigned_digits(s)) as usize)
    } else {
        None
    }
}

/// Whether `k` is the position of the first `sep` in `s`.
pub open spec fn is_first(s: Seq<char>, sep: char, k: int) -> bool {
    0 <= k < s.len() && s[k] == sep && forall|j: int| 0 <= j < k ==> #[trigger] s[j] != sep
}

/// Two numbers written on either side of the first `sep` of a text, as in
/// `800x600`; nothing if the text has no `sep` or a side is not a number.
pub open spec fn parsed_pair(s: Seq<char>, sep: char) -> Option<(usize, usize)> {
    match split_first_spec(s, sep) {
        Some((left, right)) => match (parsed_usize(left), parsed_usize(right)) {
            (Some(a), Some(b)) => Some((a, b)),
            _ => None,
        },
        None => None,
    }
}

/// Relies on `usize::from_str` (through `str::parse`): an optional `+` then
/// decimal digits only, with no other character, and a value that fits.
#[verifier::external_body]
fn parse_usize(s: &str) -> (r: Option<usize>)
    ensures
        r == parsed_usize(s@),
{
    s.parse::<usize>().ok()
}

/// The text before and the text after the first `sep` of `s`, if `s` holds
/// one.
pub open spec fn split_first_spec(s: Seq<char>, sep: char) -> Option<(Seq<char>, Seq<char>)> {
    if exists|k: int| is_first(s, sep, k) {
        let k = choose|k: int| is_first(s, sep, k);
        Some((s.take(k), s.skip(k + 1)))
    } else {
        None
    }
}

/// Splits `s` at its first `separator`, which belongs to neither side.
pub fn split_first<'a>(s: &'a str, separator: char) -> (r: Option<(&'a str, &'a str)>)
    ensures
        r is None <==> split_first_spec(s@, separator) is None,
        r matches Some(p) ==> split_first_spec(s@, separator) == Some((p.0@, p.1@)),
{
    let n = s.unicode_len();
    let mut k: usize = 0;
    while k < n
        invariant
            n == s@.len(),
            k <= n,
            forall|j: int| 0 <= j < k ==> #[trigger] s@[j] != separator,
        decreases n - k,
    {
        if s.get_char(k) == separator {
            assert(is_first(s@, separator, k as int));
            assert(forall|k2: int| is_first(s@, separator, k2) ==> k2 == k);
            let left = s.substring_char(0, k);
            let right = s.substring_char(k + 1, n);
            assert(left@ == s@.take(k as int));
            assert(right@ == s@.skip(k + 1));
            return Some((left, right));
        }
        k = k + 1;
    }
    assert(!exists|k2: int| is_first(s@, separator, k2));
    None
}

/// Reads two numbers separated by the first `separator` of `s`, such as
/// the image size `1000x750`.
pub fn parse_pair(s: &str, separator: char) -> (r: Option<(usize, usize)>)
    ensures
        r == parsed_pair(s@, separator),
{
    match split_first(s, separator) {
        Some((left, right)) => match (parse_usize(left), parse_usize(right)) {
            (Some(a), Some(b)) => Some((a, b)),
            _ => None,
        },
        None => None,
    }
}

/// Relies on `u64::from_str` (through `str::parse`): an optional `+` then
/// decimal digits only, with no other character, and a value that fits.
#[verifier::external_body]
fn parse_u64(s: &str) -> (r: Option<u64>)
    ensures
        r == parsed_u64(s@),
{
    s.parse::<u64>().ok()
}

/// Reads each text as a decimal `u64`. On success the numbers come in the
/// order of the texts; otherwise the error is the index of the first text
/// that is not such a number.
pub fn parse_numbers(values: &Vec<String>) -> (r: Result<Vec<u64>, usize>)
    ensures
        r matches Ok(v) ==> v@.len() == values@.len() && forall|i: int|
            0 <= i < values@.len() ==> parsed_u64(values@[i]@) == Some(#[trigger] v@[i]),
        r matches Err(k) ==> k < values@.len() && parsed_u64(values@[k as int]@) is None
            && forall|i: int| 0 <= i < k ==> #[trigger] parsed_u64(values@[i]@) is Some,
        r is Err <==> exists|i: int|
            0 <= i < values@.len() && #[trigger] parsed_u64(values@[i]@) is None,
{
    let mut numbers: Vec<u64> = Vec::new();
    let mut i: usize = 0;
    while i < values.len()
        invariant
            i <= values@.len(),
            numbers@.len() == i,
            forall|j: int| 0 <= j < i ==> parsed_u64(values@[j]@) == Some(#[trigger] numbers@[j]),
        decreases values@.len() - i,
    {
        match parse_u64(values[i].as_str()) {
            Some(n) => numbers.push(n),
            None => {
                assert forall|j: int| 0 <= j < i implies #[trigger] parsed_u64(values@[j]@) is Some by {
                    assert(parsed_u64(values@[j]@) == Some(numbers@[j]));
                }
                return Err(i);
            },
        }
        i = i + 1;
    }
    assert forall|j: int| 0 <= j < values@.len() implies #[trigger] parsed_u64(values@[j]@) is Some by {
        assert(parsed_u64(values@[j]@) == Some(numbers@[j]));
    }
    Ok(numbers)
}

} // verus!
