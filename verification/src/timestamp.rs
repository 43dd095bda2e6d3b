//! Points in time as commits write them: seconds since the epoch and a time zone.

use crate::bytes::{
    all_ascii, all_digits, append, append_decimal, ascii_string, decimal, decimal_value, from,
    is_digit, lemma_decimal_value, push_char, spec_is_digit, CR, DASH, DIGIT_0, LF, PLUS, SPACE,
    TAB,
};
use vstd::prelude::*;
use vstd::string::*;
use vstd::utf8::*;

verus! {

#[derive(Debug, Clone, Copy, PartialEq, Eq, Structural)]
pub enum TimestampError {
    BadUnixTimeStamp,
    BadTimezone,
}

#[derive(Debug, Clone, Copy, PartialEq, Eq)]
pub struct Timestamp {
    /// Seconds since 1970-01-01 00:00:00 UTC; negative before it.
    pub unix: i64,
    /// A sign, two digits for the hours and two for the minutes.
    pub timezone: [u8; 5],
}

/// An optional minus sign and the digits of the absolute value.
pub open spec fn signed_decimal(n: int) -> Seq<u8> {
    if n < 0 {
        seq![DASH] + decimal((-n) as nat)
    } else {
        decimal(n as nat)
    }
}

/// The number that a text of digits, with a minus sign or without, stands for. The absolute value
/// has to fit an `i64`.
pub open spec fn unix_of(b: Seq<u8>) -> Option<int> {
    let neg = b.len() > 0 && b[0] == DASH;
    let digits = if neg {
        b.skip(1)
    } else {
        b
    };
    if digits.len() == 0 || !all_digits(digits) || decimal_value(digits) > i64::MAX {
        None
    } else if neg {
        Some(-(decimal_value(digits) as int))
    } else {
        Some(decimal_value(digits) as int)
    }
}

/// A sign and four digits.
pub open spec fn is_zone_shape(b: Seq<u8>) -> bool {
    b.len() == 5 && (b[0] == DASH || b[0] == PLUS) && all_digits(b.skip(1))
}

pub open spec fn two_digits(high: u8, low: u8) -> int {
    (high - DIGIT_0) * 10 + (low - DIGIT_0)
}

/// The hours are below 24 and the minutes below 60.
pub open spec fn is_zone_range(b: Seq<u8>) -> bool {
    two_digits(b[1], b[2]) <= 23 && two_digits(b[3], b[4]) <= 59
}

/// What reading a point in time from its two texts gives.
pub open spec fn reads_timestamp(
    unix: Seq<u8>,
    timezone: Seq<u8>,
    r: Result<Timestamp, TimestampError>,
) -> bool {
    if unix_of(unix) is None {
        r == Err::<Timestamp, TimestampError>(TimestampError::BadUnixTimeStamp)
    } else if !is_zone_shape(timezone) {
        r == Err::<Timestamp, TimestampError>(TimestampError::BadTimezone)
    } else if !is_zone_range(timezone) {
        r == Err::<Timestamp, TimestampError>(TimestampError::BadUnixTimeStamp)
    } else {
        r matches Ok(t) && t.unix == unix_of(unix)->0 && t.timezone@ == timezone
    }
}

/// The time zone of an offset from UTC in seconds: its sign, its hours and its minutes. Seconds
/// beyond a whole minute are dropped.
pub open spec fn zone_of(secs: int) -> Seq<u8> {
    let total_mins = (if secs < 0 {
        -secs
    } else {
        secs
    }) / 60;
    let hours = total_mins / 60;
    let mins = total_mins % 60;
    seq![
        if secs < 0 {
            DASH
        } else {
            PLUS
        },
        (DIGIT_0 + hours / 10) as u8,
        (DIGIT_0 + hours % 10) as u8,
        (DIGIT_0 + mins / 10) as u8,
        (DIGIT_0 + mins % 10) as u8,
    ]
}

/// The zone of an offset of less than a day tells the offset, but for the seconds beyond a whole
/// minute: `-` stands in front exactly if local time is behind UTC, and the two pairs of digits are
/// the hours and the minutes between the two times.
pub proof fn zone_tells_the_offset(secs: int)
    requires
        -86_400 < secs < 86_400,
    ensures
        ({
            let zone = zone_of(secs);
            let hours = (zone[1] - 0x30) * 10 + (zone[2] - 0x30);
            let mins = (zone[3] - 0x30) * 10 + (zone[4] - 0x30);
            &&& zone.len() == 5
            &&& forall|i: int| 1 <= i < 5 ==> 0x30 <= #[trigger] zone[i] <= 0x39
            &&& 0 <= mins < 60
            &&& secs >= 0 ==> zone[0] == 0x2b && 0 <= secs - (hours * 60 + mins) * 60 < 60
            &&& secs < 0 ==> zone[0] == 0x2d && 0 <= -secs - (hours * 60 + mins) * 60 < 60
        }),
{
}

/// `chrono::Local::now`: the current time, as the seconds since the epoch
/// (`DateTime::timestamp`) and the seconds that local time is ahead of UTC
/// (`FixedOffset::local_minus_utc`). The offset is less than a day either way; nothing else holds
/// of every call. It panics where the clock of the system is before the epoch, and where the local
/// time zone has no offset for the moment, or one of a day or more.
#[verifier::external_body]
fn local_now() -> (r: (i64, i32))
    ensures
        -86_400 < r.1 < 86_400,
{
    let now = chrono::Local::now();
    (now.timestamp(), chrono::Offset::fix(now.offset()).local_minus_utc())
}

/// The clock can tell this moment: the seconds since the epoch, and the seconds that local time is
/// ahead of UTC. Only a call of the clock shows it.
pub closed spec fn is_clock_reading(unix: i64, secs: i32) -> bool {
    call_ensures(local_now, (), (unix, secs))
}

/// What the clock tells, as something that it told.
fn reading<F: Fn() -> (i64, i32)>(clock: F) -> (r: (i64, i32))
    requires
        call_requires(clock, ()),
    ensures
        call_ensures(clock, (), r),
{
    clock()
}

proof fn lemma_prefix_value(b: Seq<u8>, k: int)
    requires
        0 <= k <= b.len(),
    ensures
        decimal_value(b.take(k)) <= decimal_value(b),
    decreases b.len(),
{
    if k == b.len() {
        assert(b.take(k) =~= b);
    } else {
        lemma_prefix_value(b.drop_last(), k);
        assert(b.drop_last().take(k) =~= b.take(k));
    }
}

/// The value of a text of digits that fits an `i64`.
fn parse_digits(digits: &[u8]) -> (r: Option<i64>)
    ensures
        r == (if digits@.len() == 0 || !all_digits(digits@) || decimal_value(digits@) > i64::MAX {
            None::<i64>
        } else {
            Some(decimal_value(digits@) as i64)
        }),
{
    if digits.len() == 0 {
        return None;
    }
    let mut n: i64 = 0;
    let mut i: usize = 0;
    while i < digits.len()
        invariant
            i <= digits@.len(),
            0 <= n,
            n == decimal_value(digits@.take(i as int)),
            all_digits(digits@.take(i as int)),
        decreases digits@.len() - i,
    {
        if !is_digit(digits[i]) {
            return None;
        }
        let d: i64 = (digits[i] - DIGIT_0) as i64;
        let ghost next = digits@.take(i + 1);
        proof {
            assert(next.drop_last() =~= digits@.take(i as int));
            lemma_prefix_value(digits@, i + 1);
        }
        match n.checked_mul(10) {
            None => {
                return None;
            },
            Some(m) => {
                match m.checked_add(d) {
                    None => {
                        return None;
                    },
                    Some(sum) => {
                        n = sum;
                    },
                }
            },
        }
        i = i + 1;
    }
    assert(digits@.take(i as int) =~= digits@);
    Some(n)
}

impl Timestamp {
    /// The text of the timestamp: the seconds, a space and the time zone.
    pub open spec fn spec_text(&self) -> Seq<u8> {
        signed_decimal(self.unix as int) + seq![SPACE] + self.timezone@
    }

    /// The time zone is one that reading accepts.
    pub open spec fn wf(&self) -> bool {
        is_zone_shape(self.timezone@) && is_zone_range(self.timezone@)
    }

    /// The timestamp of a moment `unix` in a zone that is `secs` seconds ahead of UTC.
    pub fn at(unix: i64, secs: i32) -> (t: Self)
        requires
            -86_400 < secs < 86_400,
        ensures
            t.unix == unix,
            t.timezone@ == zone_of(secs as int),
            t.wf(),
    {
        let sign: u8 = if secs < 0 {
            DASH
        } else {
            PLUS
        };
        let ahead: i32 = if secs < 0 {
            -secs
        } else {
            secs
        };
        let total_mins: i32 = ahead / 60;
        let hours: i32 = total_mins / 60;
        let mins: i32 = total_mins % 60;
        let timezone: [u8; 5] = [
            sign,
            DIGIT_0 + (hours / 10) as u8,
            DIGIT_0 + (hours % 10) as u8,
            DIGIT_0 + (mins / 10) as u8,
            DIGIT_0 + (mins % 10) as u8,
        ];
        proof {
            assert(timezone@ =~= zone_of(secs as int));
        }
        Self { unix, timezone }
    }

    /// The timestamp of the current moment in the local time zone.
    pub fn now() -> (t: Self)
        ensures
            t.wf(),
            exists|secs: int| -86_400 < secs < 86_400 && t.timezone@ == zone_of(secs),
            exists|secs: i32| #[trigger]
                is_clock_reading(t.unix, secs) && -86_400 < secs < 86_400 && t.timezone@ == zone_of(
                    secs as int,
                ),
    {
        let (unix, secs) = reading(local_now);
        assert(is_clock_reading(unix, secs));
        Self::at(unix, secs)
    }

    /// The timestamp with these two texts.
    pub fn from_bytes(unix: &[u8], timezone: &[u8]) -> (r: Result<Self, TimestampError>)
        ensures
            reads_timestamp(unix@, timezone@, r),
    {
        let neg = unix.len() > 0 && unix[0] == DASH;
        let digits = if neg {
            from(unix, 1)
        } else {
            unix
        };
        let n: i64 = match parse_digits(digits) {
            None => {
                return Err(TimestampError::BadUnixTimeStamp);
            },
            Some(n) => n,
        };
        let unix: i64 = if neg {
            -n
        } else {
            n
        };

        if timezone.len() != 5 {
            return Err(TimestampError::BadTimezone);
        }
        let tz: [u8; 5] = [timezone[0], timezone[1], timezone[2], timezone[3], timezone[4]];
        let shape = (tz[0] == DASH || tz[0] == PLUS) && is_digit(tz[1]) && is_digit(tz[2])
            && is_digit(tz[3]) && is_digit(tz[4]);
        proof {
            let rest = timezone@.skip(1);
            assert(rest[0] == tz@[1] && rest[1] == tz@[2] && rest[2] == tz@[3] && rest[3] == tz@[4]);
            assert(shape == is_zone_shape(timezone@));
            assert(tz@ =~= timezone@);
        }
        if !shape {
            return Err(TimestampError::BadTimezone);
        }
        let hours: u8 = (tz[1] - DIGIT_0) * 10 + (tz[2] - DIGIT_0);
        let minutes: u8 = (tz[3] - DIGIT_0) * 10 + (tz[4] - DIGIT_0);
        if hours > 23 || minutes > 59 {
            return Err(TimestampError::BadUnixTimeStamp);
        }
        Ok(Timestamp { unix, timezone: tz })
    }

    /// The text of the timestamp.
    pub fn to_string(&self) -> (s: String)
        requires
            all_ascii(self.timezone@),
        ensures
            encode_utf8(s@) == self.spec_text(),
    {
        let mut out: Vec<u8> = Vec::new();
        let magnitude: u64 = if self.unix < 0 {
            out.push(DASH);
            (-(self.unix + 1)) as u64 + 1
        } else {
            self.unix as u64
        };
        append_decimal(&mut out, magnitude);
        out.push(SPACE);
        append(&mut out, self.timezone.as_slice());
        proof {
            lemma_decimal_value(magnitude as nat);
            assert(out@ =~= self.spec_text());
        }
        ascii_string(out)
    }
}

pub proof fn lemma_no_space(n: int)
    ensures
        signed_decimal(n).len() > 0,
        forall|i: int| 0 <= i < signed_decimal(n).len() ==> #[trigger] signed_decimal(n)[i] != SPACE,
{
    let m = (if n < 0 {
        -n
    } else {
        n
    }) as nat;
    lemma_decimal_value(m);
    assert forall|i: int| 0 <= i < signed_decimal(n).len() implies #[trigger] signed_decimal(n)[i]
        != SPACE by {
        if n < 0 {
            if i > 0 {
                assert(signed_decimal(n)[i] == decimal(m)[i - 1]);
            }
        }
    }
}

/// The text of a number of seconds reads back as the number, except for the least `i64`, whose
/// absolute value does not fit.
pub proof fn unix_round_trip(n: int)
    requires
        i64::MIN < n <= i64::MAX,
    ensures
        unix_of(signed_decimal(n)) == Some(n),
{
    let m = (if n < 0 {
        -n
    } else {
        n
    }) as nat;
    lemma_decimal_value(m);
    if n < 0 {
        assert(signed_decimal(n).skip(1) =~= decimal(m));
    } else {
        assert(spec_is_digit(decimal(m)[0]));
    }
}

/// A well-formed timestamp reads back from the two halves of its text.
pub proof fn timestamp_round_trip(t: Timestamp, r: Result<Timestamp, TimestampError>)
    requires
        t.wf(),
        t.unix > i64::MIN,
        reads_timestamp(signed_decimal(t.unix as int), t.timezone@, r),
    ensures
        r == Ok::<Timestamp, TimestampError>(t),
{
    unix_round_trip(t.unix as int);
    match r {
        Ok(back) => {
            assert(back.timezone =~= t.timezone) by {
                assert forall|i: int| 0 <= i < 5 implies back.timezone[i] == t.timezone[i] by {
                    assert(back.timezone@[i] == t.timezone@[i]);
                }
            }
        },
        Err(_) => {},
    }
}

/// A space or a tab.
pub open spec fn spec_is_wsp(byte: u8) -> bool {
    byte == SPACE || byte == TAB
}

/// The number of spaces and tabs that `b` starts with.
pub open spec fn leading_wsp(b: Seq<u8>) -> int
    decreases b.len(),
{
    if b.len() > 0 && spec_is_wsp(b[0]) {
        1 + leading_wsp(b.drop_first())
    } else {
        0
    }
}

/// A line break that is followed by a space or a tab starts `b`.
pub open spec fn is_fold(b: Seq<u8>) -> bool {
    b.len() > 2 && b[0] == CR && b[1] == LF && spec_is_wsp(b[2])
}

/// The text with each fold, the line break and the whole run of spaces and tabs behind it,
/// replaced by one space. Every other byte becomes the character with its code.
pub open spec fn unfolded(b: Seq<u8>) -> Seq<char>
    decreases b.len(),
{
    if b.len() == 0 {
        Seq::empty()
    } else if is_fold(b) {
        proof {
            lemma_leading_wsp(b.skip(2));
        }
        seq![' '] + unfolded(b.skip(2 + leading_wsp(b.skip(2))))
    } else {
        seq![b[0] as char] + unfolded(b.drop_first())
    }
}

pub proof fn lemma_leading_wsp(b: Seq<u8>)
    ensures
        0 <= leading_wsp(b) <= b.len(),
    decreases b.len(),
{
    if b.len() > 0 && spec_is_wsp(b[0]) {
        lemma_leading_wsp(b.drop_first());
    }
}

/// Removes the folds of a date: a line break followed by white space counts as one space.
pub fn normalize_fws(input: &str) -> (out: String)
    ensures
        out@ == unfolded(encode_utf8(input@)),
{
    let bytes = input.as_bytes();
    let mut out = String::new();
    let mut i: usize = 0;

    proof {
        assert(bytes@.skip(0) =~= bytes@);
        assert(out@ + unfolded(bytes@) =~= unfolded(bytes@));
    }
    while i < bytes.len()
        invariant
            i <= bytes@.len(),
            unfolded(bytes@) == out@ + unfolded(bytes@.skip(i as int)),
        decreases bytes@.len() - i,
    {
        let ghost rest = bytes@.skip(i as int);
        let ghost before = out@;
        if bytes.len() - i > 2 && bytes[i] == CR && bytes[i + 1] == LF && is_wsp(bytes[i + 2]) {
            let ghost run = leading_wsp(rest.skip(2));
            proof {
                lemma_leading_wsp(rest.skip(2));
                assert(is_fold(rest));
                assert(bytes@.skip(i as int + 2) =~= rest.skip(2));
            }
            push_char(&mut out, ' ');
            let ghost start = i as int;
            i = i + 2;
            while i < bytes.len() && is_wsp(bytes[i])
                invariant
                    start + 2 <= i <= bytes@.len(),
                    start + 2 + run == i + leading_wsp(bytes@.skip(i as int)),
                decreases bytes@.len() - i,
            {
                proof {
                    assert(bytes@.skip(i as int).drop_first() =~= bytes@.skip(i + 1));
                }
                i = i + 1;
            }
            proof {
                lemma_leading_wsp(bytes@.skip(i as int));
                assert(leading_wsp(bytes@.skip(i as int)) == 0);
                assert(rest.skip(2 + run) =~= bytes@.skip(i as int));
                assert(before + (seq![' '] + unfolded(bytes@.skip(i as int))) =~= out@ + unfolded(
                    bytes@.skip(i as int),
                ));
            }
        } else {
            push_char(&mut out, bytes[i] as char);
            proof {
                assert(!is_fold(rest));
                assert(rest.drop_first() =~= bytes@.skip(i + 1));
                assert(before + (seq![rest[0] as char] + unfolded(bytes@.skip(i + 1))) =~= out@
                    + unfolded(bytes@.skip(i + 1)));
            }
            i = i + 1;
        }
    }
    proof {
        assert(bytes@.skip(i as int) =~= Seq::<u8>::empty());
        assert(out@ + Seq::<char>::empty() =~= out@);
    }
    out
}

/// Is this a space or a tab?
pub fn is_wsp(byte: u8) -> (r: bool)
    ensures
        r == spec_is_wsp(byte),
{
    byte == SPACE || byte == TAB
}

/// A point in time is read exactly if the seconds are digits, with a minus sign in front or
/// without, that fit in 64 bits, and the zone is a sign, an hour of the day and a minute of the
/// hour. What is read are those seconds, negative behind a minus sign, and that zone.
pub proof fn times_are_seconds_and_a_zone(
    unix: Seq<u8>,
    zone: Seq<u8>,
    digits: Seq<u8>,
    r: Result<Timestamp, TimestampError>,
)
    requires
        reads_timestamp(unix, zone, r),
        unix == digits || unix == seq![0x2du8] + digits,
        digits.len() > 0 ==> digits[0] != 0x2d,
    ensures
        r is Ok <==> {
            &&& digits.len() > 0
            &&& forall|i: int| 0 <= i < digits.len() ==> 0x30 <= #[trigger] digits[i] <= 0x39
            &&& decimal_value(digits) < 0x8000_0000_0000_0000
            &&& zone.len() == 5
            &&& zone[0] == 0x2b || zone[0] == 0x2d
            &&& forall|i: int| 1 <= i < 5 ==> 0x30 <= #[trigger] zone[i] <= 0x39
            &&& (zone[1] - 0x30) * 10 + (zone[2] - 0x30) < 24
            &&& (zone[3] - 0x30) * 10 + (zone[4] - 0x30) < 60
        },
        r matches Ok(t) ==> t.timezone@ == zone && t.unix == (if unix == digits {
            decimal_value(digits) as int
        } else {
            -(decimal_value(digits) as int)
        }),
{
    assert((seq![0x2du8] + digits).skip(1) =~= digits);
    if unix != digits {
        assert(unix[0] == 0x2d);
    }
    if all_digits(zone.skip(1)) {
        assert forall|i: int| 1 <= i < zone.len() implies 0x30 <= #[trigger] zone[i] <= 0x39 by {
            assert(zone[i] == zone.skip(1)[i - 1]);
        }
    }
}

/// A line break and the spaces and tabs behind it count as one space, however many they are. All
/// else in a date stays as it is.
pub proof fn folds_are_one_space(blanks: Seq<u8>, t: Seq<u8>, b: u8)
    requires
        blanks.len() > 0,
        forall|i: int| 0 <= i < blanks.len() ==> #[trigger] blanks[i] == 0x20 || blanks[i] == 0x09,
        t.len() > 0 ==> t[0] != 0x20 && t[0] != 0x09,
    ensures
        unfolded(Seq::empty()) == Seq::<char>::empty(),
        unfolded(seq![0x0du8, 0x0a] + blanks + t) == seq![' '] + unfolded(t),
        unfolded(seq![0x0du8, 0x0a] + t) == seq!['\r', '\n'] + unfolded(t),
        b != 0x0d ==> unfolded(seq![b] + t) == seq![b as char] + unfolded(t),
{
    let all = seq![0x0du8, 0x0a] + blanks + t;
    assert(all[2] == blanks[0]);
    assert(all.skip(2) =~= blanks + t);
    lemma_blanks_counted(blanks, t);
    assert(all.skip(2 + blanks.len() as int) =~= t);
    reveal_with_fuel(unfolded, 3);
    let other = seq![0x0du8, 0x0a] + t;
    if t.len() > 0 {
        assert(other[2] == t[0]);
    }
    assert(other.drop_first() =~= seq![0x0au8] + t);
    assert((seq![0x0au8] + t).drop_first() =~= t);
    assert(unfolded(other) =~= seq!['\r', '\n'] + unfolded(t));
    assert((seq![b] + t).drop_first() =~= t);
}

proof fn lemma_blanks_counted(blanks: Seq<u8>, t: Seq<u8>)
    requires
        forall|i: int| 0 <= i < blanks.len() ==> spec_is_wsp(#[trigger] blanks[i]),
        t.len() > 0 ==> !spec_is_wsp(t[0]),
    ensures
        leading_wsp(blanks + t) == blanks.len(),
    decreases blanks.len(),
{
    let all = blanks + t;
    if blanks.len() > 0 {
        assert(all.drop_first() =~= blanks.drop_first() + t);
        lemma_blanks_counted(blanks.drop_first(), t);
    } else if t.len() > 0 {
        assert(all[0] == t[0]);
    }
}

} // verus!
