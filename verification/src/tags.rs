//! Episode dates from ID3 text frames, the sort key of an episode, and the
//! clock format of a duration.

use vstd::prelude::*;
use vstd::string::{StringExecFns, StringSliceAdditionalSpecFns};
use vstd::utf8::is_char_boundary;

verus! {

/// `+`
pub open spec fn plus_byte() -> u8 {
    43
}

/// `-`
pub open spec fn minus_byte() -> u8 {
    45
}

pub open spec fn is_digit_byte(c: u8) -> bool {
    48 <= c <= 57
}

pub open spec fn all_digits(b: Seq<u8>) -> bool {
    forall|i: int| 0 <= i < b.len() ==> is_digit_byte(#[trigger] b[i])
}

/// The value of a run of decimal digits.
pub open spec fn digits_value(b: Seq<u8>) -> nat
    decreases b.len(),
{
    if b.len() == 0 {
        0
    } else {
        digits_value(b.drop_last()) * 10 + (b.last() - 48) as nat
    }
}

/// A run of digits, with an optional `+`, whose value is at most `limit`.
pub open spec fn unsigned_text_value(b: Seq<u8>, limit: nat) -> Option<nat> {
    let body = if b.len() > 0 && b[0] == plus_byte() {
        b.drop_first()
    } else {
        b
    };
    if body.len() > 0 && all_digits(body) && digits_value(body) <= limit {
        Some(digits_value(body))
    } else {
        None
    }
}

/// What std's `str::parse::<u32>` gives for the bytes of a text: an
/// optional `+` and at least one ASCII digit, with a value that fits.
pub open spec fn parse_u32_text(b: Seq<u8>) -> Option<u32> {
    match unsigned_text_value(b, u32::MAX as nat) {
        Some(v) => Some(v as u32),
        None => None,
    }
}

/// What std's `str::parse::<i32>` gives for the bytes of a text: an
/// optional `+` or `-` and at least one ASCII digit, with a value that fits.
pub open spec fn parse_i32_text(b: Seq<u8>) -> Option<i32> {
    if b.len() > 0 && b[0] == minus_byte() {
        let body = b.drop_first();
        if body.len() > 0 && all_digits(body) && digits_value(body) <= 0x8000_0000 {
            Some((0 - digits_value(body)) as i32)
        } else {
            None
        }
    } else {
        match unsigned_text_value(b, i32::MAX as nat) {
            Some(v) => Some(v as i32),
            None => None,
        }
    }
}

proof fn lemma_digits_value_prefix(b: Seq<u8>, k: int)
    requires
        0 <= k <= b.len(),
        all_digits(b),
    ensures
        digits_value(b.take(k)) <= digits_value(b),
    decreases b.len() - k,
{
    if k < b.len() {
        lemma_digits_value_prefix(b, k + 1);
        assert(b.take(k + 1).drop_last() =~= b.take(k));
    } else {
        assert(b.take(k) =~= b);
    }
}

/// Reads the digits of `b[start..end]` as a number of at most `limit`.
fn digits_upto(b: &[u8], start: usize, end: usize, limit: u64) -> (r: Option<u64>)
    requires
        start <= end <= b@.len(),
        limit <= u32::MAX + 1,
    ensures
        ({
            let body = b@.subrange(start as int, end as int);
            match r {
                Some(v) => body.len() > 0 && all_digits(body) && digits_value(body) <= limit
                    && v == digits_value(body),
                None => !(body.len() > 0 && all_digits(body) && digits_value(body) <= limit),
            }
        }),
{
    let ghost body = b@.subrange(start as int, end as int);
    if start >= end {
        return None;
    }
    let mut v: u64 = 0;
    let mut i: usize = start;
    while i < end
        invariant
            start <= i <= end,
            end <= b@.len(),
            body == b@.subrange(start as int, end as int),
            limit <= u32::MAX + 1,
            all_digits(body.take(i - start)),
            v == digits_value(body.take(i - start)),
            v <= limit,
        decreases end - i,
    {
        let c = b[i];
        proof {
            assert(body.take(i - start + 1).drop_last() =~= body.take(i - start));
            assert(body[i - start] == c);
        }
        if c < 48 || c > 57 {
            proof {
                assert(!all_digits(body));
            }
            return None;
        }
        let nv = v * 10 + (c - 48) as u64;
        if nv > limit {
            proof {
                assert(all_digits(body.take(i - start + 1)));
                if all_digits(body) {
                    lemma_digits_value_prefix(body, i - start + 1);
                }
            }
            return None;
        }
        v = nv;
        i = i + 1;
    }
    proof {
        assert(body.take(end - start) =~= body);
    }
    Some(v)
}

/// Parses `b[start..end]` as a decimal `u32`, as std's `str::parse::<u32>`
/// does.
pub fn parse_u32_dec(b: &[u8], start: usize, end: usize) -> (r: Option<u32>)
    requires
        start <= end <= b@.len(),
    ensures
        r == parse_u32_text(b@.subrange(start as int, end as int)),
{
    let ghost t = b@.subrange(start as int, end as int);
    let from: usize = if start < end && b[start] == 43 {
        start + 1
    } else {
        start
    };
    proof {
        assert(b@.subrange(from as int, end as int) =~= if t.len() > 0 && t[0] == plus_byte() {
            t.drop_first()
        } else {
            t
        });
    }
    match digits_upto(b, from, end, 0xFFFF_FFFF) {
        Some(v) => Some(v as u32),
        None => None,
    }
}

/// Parses `b[start..end]` as a decimal `i32`, as std's `str::parse::<i32>`
/// does.
pub fn parse_i32_dec(b: &[u8], start: usize, end: usize) -> (r: Option<i32>)
    requires
        start <= end <= b@.len(),
    ensures
        r == parse_i32_text(b@.subrange(start as int, end as int)),
{
    let ghost t = b@.subrange(start as int, end as int);
    if start < end && b[start] == 45 {
        proof {
            assert(b@.subrange(start + 1, end as int) =~= t.drop_first());
        }
        match digits_upto(b, start + 1, end, 0x8000_0000) {
            Some(v) => {
                let r = if v == 0x8000_0000 {
                    i32::MIN
                } else {
                    -(v as i32)
                };
                Some(r)
            },
            None => None,
        }
    } else {
        let from: usize = if start < end && b[start] == 43 {
            start + 1
        } else {
            start
        };
        proof {
            assert(b@.subrange(from as int, end as int) =~= if t.len() > 0 && t[0] == plus_byte() {
                t.drop_first()
            } else {
                t
            });
        }
        match digits_upto(b, from, end, 0x7FFF_FFFF) {
            Some(v) => Some(v as i32),
            None => None,
        }
    }
}

/// The day and month of an ID3v2.3 `TDAT` frame (`DDMM`), from its trimmed
/// text: its first two and next two bytes, when there are four.
pub open spec fn tdat_day_month(b: Seq<u8>) -> Option<(u32, u32)> {
    if b.len() >= 4 {
        match (parse_u32_text(b.subrange(0, 2)), parse_u32_text(b.subrange(2, 4))) {
            (Some(d), Some(m)) => Some((d, m)),
            _ => None,
        }
    } else {
        None
    }
}

/// The date of an episode from its ID3 text frames: the year, month and day
/// of a parsed `TDRC` timestamp (a missing month or day is 1); else a
/// positive `TYER` year with the day and month of `TDAT` (or January 1);
/// else any `TYER` year with January 1.
pub open spec fn id3_date(
    timestamp: Option<(i32, Option<u8>, Option<u8>)>,
    tyer: Option<Seq<u8>>,
    tdat_trimmed: Option<Seq<u8>>,
) -> Option<(i32, u32, u32)> {
    match timestamp {
        Some((y, m, d)) => Some(
            (
                y,
                match m {
                    Some(m) => m as u32,
                    None => 1,
                },
                match d {
                    Some(d) => d as u32,
                    None => 1,
                },
            ),
        ),
        None => {
            let year = match tyer {
                Some(t) => parse_i32_text(t),
                None => None,
            };
            match year {
                Some(y) => if y > 0 {
                    let dm = match tdat_trimmed {
                        Some(t) => tdat_day_month(t),
                        None => None,
                    };
                    match dm {
                        Some((d, m)) => Some((y, m, d)),
                        None => Some((y, 1, 1)),
                    }
                } else {
                    Some((y, 1, 1))
                },
                None => None,
            }
        },
    }
}

/// The bytes of an optional text.
pub open spec fn opt_bytes(t: Option<&str>) -> Option<Seq<u8>> {
    match t {
        Some(s) => Some(s.spec_bytes()),
        None => None,
    }
}

/// Text that can be cut into `DDMM` at byte boundaries.
pub open spec fn tdat_cuttable(t: Option<&str>) -> bool {
    match t {
        Some(s) => s.spec_bytes().len() >= 4 ==> is_char_boundary(s.spec_bytes(), 2)
            && is_char_boundary(s.spec_bytes(), 4),
        None => true,
    }
}

/// The date of an episode from the parsed `TDRC` timestamp (year, month,
/// day), the `TYER` text and the trimmed `TDAT` text.
pub fn id3_date_from_parts(
    timestamp: Option<(i32, Option<u8>, Option<u8>)>,
    tyer: Option<&str>,
    tdat_trimmed: Option<&str>,
) -> (r: Option<(i32, u32, u32)>)
    requires
        tdat_cuttable(tdat_trimmed),
    ensures
        r == id3_date(timestamp, opt_bytes(tyer), opt_bytes(tdat_trimmed)),
{
    if let Some((y, m, d)) = timestamp {
        let month: u32 = match m {
            Some(m) => m as u32,
            None => 1,
        };
        let day: u32 = match d {
            Some(d) => d as u32,
            None => 1,
        };
        return Some((y, month, day));
    }
    let year = match tyer {
        Some(t) => {
            let b = t.as_bytes();
            proof {
                assert(b@.subrange(0, b@.len() as int) =~= b@);
            }
            parse_i32_dec(b, 0, b.len())
        },
        None => None,
    };
    match year {
        Some(y) => {
            if y > 0 {
                let dm = match tdat_trimmed {
                    Some(t) => {
                        let b = t.as_bytes();
                        if b.len() >= 4 {
                            match (parse_u32_dec(b, 0, 2), parse_u32_dec(b, 2, 4)) {
                                (Some(d), Some(m)) => Some((d, m)),
                                _ => None,
                            }
                        } else {
                            None
                        }
                    },
                    None => None,
                };
                match dm {
                    Some((d, m)) => Some((y, m, d)),
                    None => Some((y, 1, 1)),
                }
            } else {
                Some((y, 1, 1))
            }
        },
        None => None,
    }
}

/// What id3's `Timestamp::from_str` makes of a text: the year, month and
/// day of the timestamp, or `None` where it does not parse. It depends on
/// the text alone.
pub uninterp spec fn id3_timestamp_date(text: Seq<char>) -> Option<(i32, Option<u8>, Option<u8>)>;

/// Parses an ID3v2.4 timestamp with id3's `Timestamp::from_str` and keeps
/// its year, month and day.
#[verifier::external_body]
fn parse_id3_timestamp(text: &str) -> (r: Option<(i32, Option<u8>, Option<u8>)>)
    ensures
        r == id3_timestamp_date(text@),
{
    match text.parse::<id3::frame::Timestamp>() {
        Ok(ts) => Some((ts.year, ts.month, ts.day)),
        Err(_) => None,
    }
}

/// A character with the Unicode `White_Space` property.
pub open spec fn is_white_space(c: char) -> bool {
    let u = c as u32;
    ||| 0x9 <= u <= 0xD
    ||| u == 0x20
    ||| u == 0x85
    ||| u == 0xA0
    ||| u == 0x1680
    ||| 0x2000 <= u <= 0x200A
    ||| u == 0x2028
    ||| u == 0x2029
    ||| u == 0x202F
    ||| u == 0x205F
    ||| u == 0x3000
}

/// The number of white-space characters the text starts with.
pub open spec fn leading_white_space(s: Seq<char>) -> nat
    decreases s.len(),
{
    if s.len() > 0 && is_white_space(s[0]) {
        1 + leading_white_space(s.drop_first())
    } else {
        0
    }
}

/// The number of white-space characters the text ends with.
pub open spec fn trailing_white_space(s: Seq<char>) -> nat
    decreases s.len(),
{
    if s.len() > 0 && is_white_space(s.last()) {
        1 + trailing_white_space(s.drop_last())
    } else {
        0
    }
}

/// The text without its leading and trailing white space.
pub open spec fn trimmed_text(s: Seq<char>) -> Seq<char> {
    let a = leading_white_space(s);
    if a >= s.len() {
        Seq::empty()
    } else {
        s.subrange(a as int, s.len() - trailing_white_space(s))
    }
}

/// Trims a text with std's `str::trim`, which std documents as removing the
/// leading and trailing characters with the Unicode `White_Space` property.
#[verifier::external_body]
fn trim_text(text: &str) -> (r: &str)
    ensures
        r@ == trimmed_text(text@),
{
    text.trim()
}

/// The date of an episode from the texts of its ID3 frames `TDRC`, `TYER`
/// and `TDAT` (each where the tag has it as text): the `TDRC` timestamp's
/// year, month and day (a missing month or day is 1); else a positive
/// `TYER` year with the day and month of the trimmed `TDAT` (or January 1);
/// else any `TYER` year with January 1. When the `TDAT` text is read (no
/// timestamp, a positive year) and its first four bytes, trimmed, do not
/// split into two pairs of whole characters, there is no date.
pub fn parse_id3_date(tdrc: Option<&str>, tyer: Option<&str>, tdat: Option<&str>) -> (r: Option<
    (i32, u32, u32),
>)
    ensures
        ({
            let ts = match tdrc {
                Some(t) => id3_timestamp_date(t@),
                None => None,
            };
            let trimmed: Option<Seq<char>> = match tdat {
                Some(t) => Some(trimmed_text(t@)),
                None => None,
            };
            let cut_ok = match trimmed {
                Some(c) => vstd::utf8::encode_utf8(c).len() >= 4 ==> is_char_boundary(
                    vstd::utf8::encode_utf8(c),
                    2,
                ) && is_char_boundary(vstd::utf8::encode_utf8(c), 4),
                None => true,
            };
            let trimmed_bytes = match trimmed {
                Some(c) => Some(vstd::utf8::encode_utf8(c)),
                None => None,
            };
            let year_positive = match tyer {
                Some(t) => match parse_i32_text(t.spec_bytes()) {
                    Some(y) => y > 0,
                    None => false,
                },
                None => false,
            };
            &&& ts is Some || !year_positive || cut_ok ==> r == id3_date(
                ts,
                opt_bytes(tyer),
                trimmed_bytes,
            )
            &&& ts is None && year_positive && !cut_ok ==> r is None
        }),
{
    let ts = match tdrc {
        Some(t) => parse_id3_timestamp(t),
        None => None,
    };
    if ts.is_some() {
        return id3_date_from_parts(ts, tyer, None);
    }
    let year_positive = match tyer {
        Some(t) => {
            let b = t.as_bytes();
            proof {
                assert(b@.subrange(0, b@.len() as int) =~= b@);
            }
            match parse_i32_dec(b, 0, b.len()) {
                Some(y) => y > 0,
                None => false,
            }
        },
        None => false,
    };
    if !year_positive {
        return id3_date_from_parts(ts, tyer, None);
    }
    let trimmed = match tdat {
        Some(t) => Some(trim_text(t)),
        None => None,
    };
    let cut_ok = match trimmed {
        Some(t) => t.as_bytes().len() < 4 || (t.is_char_boundary(2) && t.is_char_boundary(4)),
        None => true,
    };
    if !cut_ok {
        return None;
    }
    id3_date_from_parts(ts, tyer, trimmed)
}

/// Keys past this one belong to episodes without an ID3 date.
pub const UNDATED_KEY_BASE: i64 = 100_000_000_000;

/// The sort key of a dated episode: `yyyymmdd` with the year clamped to
/// 1900..=2100, the month to 1..=12 and the day to 1..=31.
pub open spec fn date_key(y: i32, m: u32, d: u32) -> int {
    let year = if y < 1900 {
        1900
    } else if y > 2100 {
        2100
    } else {
        y as int
    };
    let month = if m < 1 {
        1
    } else if m > 12 {
        12
    } else {
        m as int
    };
    let day = if d < 1 {
        1
    } else if d > 31 {
        31
    } else {
        d as int
    };
    year * 10000 + month * 100 + day
}

/// The key that orders the episodes of a directory: by ID3 date where
/// there is one, otherwise after all dated ones, by modification time (in
/// seconds since the epoch).
pub fn get_mp3_sort_key(id3_date: Option<(i32, u32, u32)>, mtime_secs: u64) -> (k: i64)
    requires
        id3_date is None ==> mtime_secs <= i64::MAX - UNDATED_KEY_BASE,
    ensures
        match id3_date {
            Some((y, m, d)) => k == date_key(y, m, d),
            None => k == UNDATED_KEY_BASE + mtime_secs,
        },
{
    match id3_date {
        Some((y, m, d)) => {
            let year: i64 = if y < 1900 {
                1900
            } else if y > 2100 {
                2100
            } else {
                y as i64
            };
            let month: i64 = if m < 1 {
                1
            } else if m > 12 {
                12
            } else {
                m as i64
            };
            let day: i64 = if d < 1 {
                1
            } else if d > 31 {
                31
            } else {
                d as i64
            };
            year * 10000 + month * 100 + day
        },
        None => UNDATED_KEY_BASE + mtime_secs as i64,
    }
}

/// Every dated episode sorts before every undated one.
pub proof fn lemma_dated_before_undated(y: i32, m: u32, d: u32, mtime_secs: u64)
    ensures
        date_key(y, m, d) < UNDATED_KEY_BASE + mtime_secs,
        19000101 <= date_key(y, m, d) <= 21001231,
{
}

/// The ASCII digit of `d`.
pub open spec fn digit_char(d: int) -> char {
    (48 + d) as char
}

/// The decimal digits of `n`.
pub open spec fn decimal(n: nat) -> Seq<char>
    decreases n,
{
    if n < 10 {
        seq![digit_char(n as int)]
    } else {
        decimal(n / 10).push(digit_char((n % 10) as int))
    }
}

/// `n` with at least two digits.
pub open spec fn two_digits(n: nat) -> Seq<char> {
    if n < 10 {
        seq!['0'] + decimal(n)
    } else {
        decimal(n)
    }
}

/// `H:MM:SS` with one hour or more, `MM:SS` below that.
pub open spec fn clock_text(total_secs: nat) -> Seq<char> {
    let hours = total_secs / 3600;
    let minutes = (total_secs % 3600) / 60;
    let seconds = total_secs % 60;
    if hours > 0 {
        decimal(hours) + seq![':'] + two_digits(minutes) + seq![':'] + two_digits(seconds)
    } else {
        two_digits(minutes) + seq![':'] + two_digits(seconds)
    }
}

fn push_digit(out: &mut String, d: u64)
    requires
        d < 10,
    ensures
        final(out)@ == old(out)@.push(digit_char(d as int)),
{
    proof {
        reveal_strlit("0");
        reveal_strlit("1");
        reveal_strlit("2");
        reveal_strlit("3");
        reveal_strlit("4");
        reveal_strlit("5");
        reveal_strlit("6");
        reveal_strlit("7");
        reveal_strlit("8");
        reveal_strlit("9");
    }
    let s = if d == 0 {
        "0"
    } else if d == 1 {
        "1"
    } else if d == 2 {
        "2"
    } else if d == 3 {
        "3"
    } else if d == 4 {
        "4"
    } else if d == 5 {
        "5"
    } else if d == 6 {
        "6"
    } else if d == 7 {
        "7"
    } else if d == 8 {
        "8"
    } else {
        "9"
    };
    out.append(s);
    proof {
        assert(final(out)@ =~= old(out)@.push(digit_char(d as int)));
    }
}

pub(crate) fn push_decimal(out: &mut String, n: u64)
    ensures
        final(out)@ == old(out)@ + decimal(n as nat),
    decreases n,
{
    if n >= 10 {
        push_decimal(out, n / 10);
    }
    push_digit(out, n % 10);
    proof {
        if n >= 10 {
            assert(final(out)@ =~= old(out)@ + decimal(n as nat));
        } else {
            assert(final(out)@ =~= old(out)@ + decimal(n as nat));
        }
    }
}

fn push_two_digits(out: &mut String, n: u64)
    ensures
        final(out)@ == old(out)@ + two_digits(n as nat),
{
    let ghost before = out@;
    if n < 10 {
        push_digit(out, 0);
    }
    push_decimal(out, n);
    proof {
        assert(out@ =~= before + two_digits(n as nat));
    }
}

/// A whole number of seconds as `H:MM:SS` (one hour or more) or `MM:SS`.
pub fn format_duration(total_secs: u64) -> (s: String)
    ensures
        s@ == clock_text(total_secs as nat),
{
    let hours = total_secs / 3600;
    let minutes = (total_secs % 3600) / 60;
    let seconds = total_secs % 60;
    let mut out = String::new();
    proof {
        reveal_strlit(":");
    }
    if hours > 0 {
        push_decimal(&mut out, hours);
        out.append(":");
    }
    push_two_digits(&mut out, minutes);
    out.append(":");
    push_two_digits(&mut out, seconds);
    proof {
        assert(out@ =~= clock_text(total_secs as nat));
    }
    out
}

} // verus!
